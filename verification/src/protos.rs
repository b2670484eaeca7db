//! Check of vendored schema files against their recorded digests.

use vstd::prelude::*;
use vstd::string::StringExecFns;

use crate::hash;
use crate::hex_text;
use crate::table::Key;

verus! {

/// What the command line asks for.
#[derive(Debug, Clone, PartialEq, Eq)]
pub enum Command {
    /// Print the usage.
    Help,
    /// Verify the vendored schema files.
    CheckProtos,
    /// Something that does not exist.
    Unknown(String),
}

/// What the first argument asks for.
pub open spec fn asks(args: Seq<String>, c: Command) -> bool {
    if args.len() == 0 {
        c == Command::Help
    } else if args[0]@ == "-h"@ || args[0]@ == "--help"@ {
        c == Command::Help
    } else if args[0]@ == "check-protos"@ {
        c == Command::CheckProtos
    } else {
        c matches Command::Unknown(name) && name@ == args[0]@
    }
}

/// What the command line asks for; its first argument decides.
pub fn command(args: &Vec<String>) -> (r: Command)
    ensures
        asks(args@, r),
{
    if args.len() == 0 {
        return Command::Help;
    }
    let first = &args[0];
    if first.same(&String::from_str("-h")) || first.same(&String::from_str("--help")) {
        Command::Help
    } else if first.same(&String::from_str("check-protos")) {
        Command::CheckProtos
    } else {
        Command::Unknown(first.dup())
    }
}

/// What the check found of a file.
#[derive(Debug, Clone, PartialEq, Eq)]
pub enum Finding {
    /// The digest is the recorded one.
    Match,
    /// The digest is another.
    Drift { actual: String },
    /// The file cannot be read.
    Missing,
}

/// Contents of a [`Finding`].
pub ghost enum FindingView {
    Match,
    Drift { actual: Seq<char> },
    Missing,
}

impl View for Finding {
    type V = FindingView;

    open spec fn view(&self) -> FindingView {
        match *self {
            Finding::Match => FindingView::Match,
            Finding::Drift { actual } => FindingView::Drift { actual: actual@ },
            Finding::Missing => FindingView::Missing,
        }
    }
}

/// What is found of a file with these contents, if it could be read, whose
/// recorded digest is `expected`.
pub open spec fn found(expected: Seq<char>, contents: Option<Seq<u8>>) -> FindingView {
    match contents {
        None => FindingView::Missing,
        Some(bytes) => {
            let actual = hex_text::hex_digits(hash::sha256(bytes));
            if actual == expected {
                FindingView::Match
            } else {
                FindingView::Drift { actual }
            }
        },
    }
}

/// Compares the contents of a file, if it could be read, with its recorded
/// digest.
pub fn inspect(expected: &String, contents: Option<Vec<u8>>) -> (r: Finding)
    ensures
        r@ == found(
            expected@,
            match contents {
                Some(b) => Some(b@),
                None => None,
            },
        ),
{
    match contents {
        None => Finding::Missing,
        Some(bytes) => {
            let actual = hex_text::sha256_hex(bytes.as_slice());
            if actual.same(expected) {
                Finding::Match
            } else {
                Finding::Drift { actual }
            }
        },
    }
}

/// Number of files that do not match.
pub open spec fn mismatches(findings: Seq<Finding>) -> nat
    decreases findings.len(),
{
    if findings.len() == 0 {
        0
    } else {
        mismatches(findings.drop_last()) + (if findings.last() is Match {
            0nat
        } else {
            1nat
        })
    }
}

/// Counts the files that do not match.
pub fn count_mismatches(findings: &Vec<Finding>) -> (r: usize)
    ensures
        r == mismatches(findings@),
        r <= findings@.len(),
        r == 0 <==> forall|i: int| 0 <= i < findings@.len() ==> #[trigger] findings@[i] is Match,
{
    let mut errors: usize = 0;
    let mut i: usize = 0;
    while i < findings.len()
        invariant
            i <= findings@.len(),
            errors <= i,
            errors == mismatches(findings@.take(i as int)),
            errors == 0 <==> forall|j: int| 0 <= j < i ==> #[trigger] findings@[j] is Match,
        decreases findings@.len() - i,
    {
        proof {
            let next = findings@.take(i + 1);
            assert(next.drop_last() =~= findings@.take(i as int));
            assert(next.last() == findings@[i as int]);
        }
        match &findings[i] {
            Finding::Match => {},
            _ => {
                errors = errors + 1;
                assert(!(findings@[i as int] is Match));
            },
        }
        i = i + 1;
    }
    assert(findings@.take(i as int) =~= findings@);
    errors
}

/// The count of mismatches is the sum of those of the parts of a list, and a
/// single finding counts one unless it is a match.
pub proof fn law_mismatches_add_up(a: Seq<Finding>, b: Seq<Finding>, f: Finding)
    ensures
        mismatches(a + b) == mismatches(a) + mismatches(b),
        mismatches(seq![f]) == if f is Match {
            0nat
        } else {
            1nat
        },
    decreases b.len(),
{
    let one = seq![f];
    assert(one.drop_last() =~= Seq::<Finding>::empty());
    assert(one.last() == f);
    assert(mismatches(one.drop_last()) == 0);
    if b.len() == 0 {
        assert(a + b =~= a);
    } else {
        law_mismatches_add_up(a, b.drop_last(), f);
        assert((a + b).drop_last() =~= a + b.drop_last());
        assert((a + b).last() == b.last());
    }
}

/// A file matches exactly when its digest is the recorded one; one that could
/// not be read is missing.
pub proof fn law_only_recorded_contents_match(expected: Seq<char>, contents: Option<Seq<u8>>)
    ensures
        found(expected, contents) is Missing <==> contents is None,
        found(expected, contents) is Match <==> (contents matches Some(b) && hex_text::hex_digits(
            hash::sha256(b),
        ) == expected),
        contents matches Some(b) ==> (found(expected, contents) is Drift ==> found(expected, contents)
            == (FindingView::Drift { actual: hex_text::hex_digits(hash::sha256(b)) })),
{
}

} // verus!
