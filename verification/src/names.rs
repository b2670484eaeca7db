//! Names of peers.

use vstd::prelude::*;
use vstd::string::StringExecFns;

use crate::text;

verus! {

/// The name under which peer `n` introduces itself.
pub open spec fn peer_name(n: nat) -> Seq<char> {
    seq!['p', 'e', 'e', 'r', '-'] + text::decimal(n)
}

/// The name under which peer `n` introduces itself.
pub fn name_of_peer(n: u64) -> (r: String)
    ensures
        r@ == peer_name(n as nat),
{
    proof {
        reveal_strlit("peer-");
    }
    let mut s: String = String::from_str("peer-");
    assert(s@ =~= seq!['p', 'e', 'e', 'r', '-']);
    text::append_decimal(&mut s, n);
    s
}

/// Peers have different names.
pub proof fn law_names_differ(a: nat, b: nat)
    ensures
        a != b ==> peer_name(a) != peer_name(b),
{
    text::law_decimal_spells_number(a);
    text::law_decimal_spells_number(b);
    assert(peer_name(a).skip(5) =~= text::decimal(a));
    assert(peer_name(b).skip(5) =~= text::decimal(b));
}

} // verus!
