//! Protobuf messages of the broadcast protocol.

use vstd::prelude::*;

pub mod bcast;
pub mod chunk;
pub mod faults;
pub mod layout;
pub mod rs;
pub mod sess;
pub mod wire;

pub use bcast::Bcast;
pub use sess::Sess;

verus! {

/// Reasons for which bytes are not the encoding of a message.
#[derive(Debug, Clone, Copy, PartialEq, Eq, Structural)]
pub enum WireError {
    /// A variable-length integer is cut off or too large.
    InvalidVarint,
    /// A field key is no integer, too large, names field 0 or has a wire type
    /// that does not exist.
    InvalidKey,
    /// A field of the message has another wire type than its type asks for.
    UnexpectedWireType,
    /// A field extends beyond the end of the bytes.
    BufferUnderflow,
    /// A group is malformed, ends without its start, or is nested too deeply.
    InvalidGroup,
    /// A string field is not UTF-8.
    InvalidUtf8,
}

/// Contents of a list of byte strings.
pub open spec fn contents(v: Seq<Vec<u8>>) -> Seq<Seq<u8>> {
    v.map_values(|b: Vec<u8>| b@)
}

/// A copy of a byte string.
pub(crate) fn copy_bytes(b: &[u8]) -> (r: Vec<u8>)
    ensures
        r@ == b@,
{
    let mut out: Vec<u8> = Vec::new();
    out.extend_from_slice(b);
    assert(out@ =~= b@);
    out
}

/// A copy of a list of byte strings.
pub(crate) fn copy_list(v: &Vec<Vec<u8>>) -> (r: Vec<Vec<u8>>)
    ensures
        contents(r@) == contents(v@),
{
    let mut out: Vec<Vec<u8>> = Vec::new();
    let mut i: usize = 0;
    while i < v.len()
        invariant
            i <= v@.len(),
            out@.len() == i,
            forall|k: int| 0 <= k < i ==> (#[trigger] out@[k])@ == v@[k]@,
        decreases v@.len() - i,
    {
        out.push(copy_bytes(v[i].as_slice()));
        i = i + 1;
    }
    assert(contents(out@) =~= contents(v@));
    out
}

/// Whether two byte strings are equal.
pub(crate) fn same_bytes(a: &[u8], b: &[u8]) -> (r: bool)
    ensures
        r == (a@ == b@),
{
    if a.len() != b.len() {
        return false;
    }
    let mut i: usize = 0;
    while i < a.len()
        invariant
            i <= a@.len(),
            a@.len() == b@.len(),
            forall|j: int| 0 <= j < i ==> a@[j] == b@[j],
        decreases a@.len() - i,
    {
        if a[i] != b[i] {
            return false;
        }
        i = i + 1;
    }
    assert(a@ =~= b@);
    true
}

} // verus!
