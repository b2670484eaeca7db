//! What is wrong with bytes that encode no preamble, in words.

use vstd::prelude::*;
use vstd::string::StringExecFns;

use crate::pb::rs::{Preamble, PreambleView};
use crate::pb::wire;
use crate::pb::wire::Message;
use crate::text;

verus! {

/// A complaint about a message.
pub open spec fn told(detail: Seq<char>) -> Seq<char> {
    "failed to decode Protobuf message: "@ + detail
}

/// Name of a wire type.
pub open spec fn wire_name(wire: u8) -> Seq<char> {
    if wire == wire::VARINT {
        "Varint"@
    } else if wire == wire::FIXED64 {
        "SixtyFourBit"@
    } else if wire == wire::DELIMITED {
        "LengthDelimited"@
    } else if wire == wire::START_GROUP {
        "StartGroup"@
    } else if wire == wire::FIXED32 {
        "ThirtyTwoBit"@
    } else {
        "EndGroup"@
    }
}

/// Where in a preamble field `tag` is, if it has one.
pub open spec fn place(tag: u32) -> Option<Seq<char>> {
    if tag == 1 {
        Some("Preamble.num_data: "@)
    } else if tag == 2 {
        Some("Preamble.num_parity: "@)
    } else if tag == 3 {
        Some("Preamble.length: "@)
    } else if tag == 4 {
        Some("Preamble.hashes: "@)
    } else if tag == 5 {
        Some("Preamble.hash: "@)
    } else {
        None
    }
}

/// Wire type of the fields of a preamble.
pub open spec fn wire_of(tag: u32) -> u8 {
    if tag <= 3 {
        wire::VARINT
    } else {
        wire::DELIMITED
    }
}

/// What is wrong with the key at the start of `b`, if anything is.
pub open spec fn key_fault(b: Seq<u8>) -> Option<Seq<char>> {
    match wire::varint(b, 0) {
        None => Some("invalid varint"@),
        Some((v, _)) => if v > u32::MAX {
            Some("invalid key value: "@ + text::decimal(v))
        } else if v % 8 > 5 {
            Some("invalid wire type value: "@ + text::decimal(v % 8))
        } else if v / 8 == 0 {
            Some("invalid tag value: 0"@)
        } else {
            None
        },
    }
}

/// What is wrong with a value of one of these wire types at the start of `b`,
/// if anything is.
pub open spec fn plain_fault(b: Seq<u8>, wire: u8) -> Option<Seq<char>> {
    if wire == wire::VARINT || wire == wire::DELIMITED {
        match wire::varint(b, 0) {
            None => Some("invalid varint"@),
            Some((len, n)) => if wire == wire::DELIMITED && len > b.len() - n {
                Some("buffer underflow"@)
            } else {
                None
            },
        }
    } else if (wire == wire::FIXED64 && b.len() < 8) || (wire == wire::FIXED32 && b.len() < 4) {
        Some("buffer underflow"@)
    } else {
        None
    }
}

/// The complaint about the value of field `tag` at the start of `b`, if there
/// is one. A field of the preamble must have its wire type; any other field
/// is skipped.
pub open spec fn value_fault(b: Seq<u8>, tag: u32, wire: u8) -> Option<Seq<char>> {
    match place(tag) {
        Some(at) => if wire != wire_of(tag) {
            Some(
                told(
                    at + "invalid wire type: "@ + wire_name(wire) + " (expected "@ + wire_name(
                        wire_of(tag),
                    ) + ")"@,
                ),
            )
        } else {
            match plain_fault(b, wire) {
                Some(t) => Some(told(at + t)),
                None => None,
            }
        },
        None => if wire == wire::START_GROUP {
            match wire::group_skipped(b, tag) {
                Ok(_) => None,
                Err(t) => Some(t),
            }
        } else if wire == wire::END_GROUP {
            Some(told("unexpected end group tag"@))
        } else {
            match plain_fault(b, wire) {
                Some(t) => Some(told(t)),
                None => None,
            }
        },
    }
}

/// The complaint about the first field of `b` that no preamble has, if there
/// is one.
pub open spec fn complaint(b: Seq<u8>) -> Option<Seq<char>>
    decreases b.len(),
{
    if b.len() == 0 {
        None
    } else {
        match key_fault(b) {
            Some(t) => Some(told(t)),
            None => {
                let (tag, wire, body) = wire::read_key(b)->Ok_0;
                match value_fault(body, tag, wire) {
                    Some(t) => Some(t),
                    None => {
                        let rest = wire::read_value(body, tag, wire, false)->Ok_0.1;
                        if rest.len() < b.len() {
                            complaint(rest)
                        } else {
                            None
                        }
                    },
                }
            },
        }
    }
}

/// There is a complaint about just those bytes that encode no preamble.
pub proof fn law_complaint_iff_malformed(v: PreambleView, b: Seq<u8>)
    ensures
        complaint(b) is Some <==> wire::merged::<Preamble>(v, b) is Err,
    decreases b.len(),
{
    if b.len() > 0 {
        if let Ok((tag, wire, body)) = wire::read_key(b) {
            if let Ok((raw, rest)) = wire::read_value(body, tag, wire, false) {
                if rest.len() < b.len() {
                    if let Ok(v1) = Preamble::applied(v, tag, raw) {
                        law_complaint_iff_malformed(v1, rest);
                    }
                }
            }
        }
    }
}

fn prefixed(detail: &str) -> (r: String)
    ensures
        r@ == told(detail@),
{
    let mut t: String = String::from_str("failed to decode Protobuf message: ");
    t.append(detail);
    t
}

fn name_of_wire(wire: u8) -> (r: &'static str)
    ensures
        r@ == wire_name(wire),
{
    if wire == wire::VARINT {
        "Varint"
    } else if wire == wire::FIXED64 {
        "SixtyFourBit"
    } else if wire == wire::DELIMITED {
        "LengthDelimited"
    } else if wire == wire::START_GROUP {
        "StartGroup"
    } else if wire == wire::FIXED32 {
        "ThirtyTwoBit"
    } else {
        "EndGroup"
    }
}

fn place_of(tag: u32) -> (r: Option<&'static str>)
    ensures
        match r {
            Some(s) => place(tag) == Some(s@),
            None => place(tag) is None,
        },
{
    if tag == 1 {
        Some("Preamble.num_data: ")
    } else if tag == 2 {
        Some("Preamble.num_parity: ")
    } else if tag == 3 {
        Some("Preamble.length: ")
    } else if tag == 4 {
        Some("Preamble.hashes: ")
    } else if tag == 5 {
        Some("Preamble.hash: ")
    } else {
        None
    }
}

/// Checks a key.
fn check_key(buf: &[u8]) -> (r: Option<String>)
    ensures
        match r {
            Some(t) => key_fault(buf@) == Some(t@),
            None => key_fault(buf@) is None,
        },
{
    match wire::get_varint(buf) {
        Err(_) => Some(String::from_str("invalid varint")),
        Ok((v, _)) => {
            if v > u32::MAX as u64 {
                let mut t: String = String::from_str("invalid key value: ");
                text::append_decimal(&mut t, v);
                Some(t)
            } else if v % 8 > 5 {
                let mut t: String = String::from_str("invalid wire type value: ");
                text::append_decimal(&mut t, v % 8);
                Some(t)
            } else if v / 8 == 0 {
                Some(String::from_str("invalid tag value: 0"))
            } else {
                None
            }
        },
    }
}

/// Checks a value that is neither the start nor the end of a group.
fn check_plain(buf: &[u8], wire: u8) -> (r: Option<&'static str>)
    ensures
        match r {
            Some(t) => plain_fault(buf@, wire) == Some(t@),
            None => plain_fault(buf@, wire) is None,
        },
{
    if wire == wire::VARINT || wire == wire::DELIMITED {
        proof {
            wire::lemma_varint_bounds(buf@, 0);
        }
        match wire::get_varint(buf) {
            Err(_) => Some("invalid varint"),
            Ok((len, rest)) => {
                if wire == wire::DELIMITED && len > rest.len() as u64 {
                    Some("buffer underflow")
                } else {
                    None
                }
            },
        }
    } else if (wire == wire::FIXED64 && buf.len() < 8) || (wire == wire::FIXED32 && buf.len() < 4) {
        Some("buffer underflow")
    } else {
        None
    }
}

/// Checks the value of a field.
fn check_value(buf: &[u8], tag: u32, wire: u8) -> (r: Option<String>)
    ensures
        match r {
            Some(t) => value_fault(buf@, tag, wire) == Some(t@),
            None => value_fault(buf@, tag, wire) is None,
        },
{
    match place_of(tag) {
        Some(at) => {
            let expected: u8 = if tag <= 3 {
                wire::VARINT
            } else {
                wire::DELIMITED
            };
            let mut t: String = String::from_str(at);
            if wire != expected {
                t.append("invalid wire type: ");
                t.append(name_of_wire(wire));
                t.append(" (expected ");
                t.append(name_of_wire(expected));
                t.append(")");
                Some(prefixed(t.as_str()))
            } else {
                match check_plain(buf, wire) {
                    Some(s) => {
                        t.append(s);
                        Some(prefixed(t.as_str()))
                    },
                    None => None,
                }
            }
        },
        None => {
            if wire == wire::START_GROUP {
                match wire::skip_group(buf, tag) {
                    Ok(_) => None,
                    Err(t) => Some(t),
                }
            } else if wire == wire::END_GROUP {
                Some(prefixed("unexpected end group tag"))
            } else {
                match check_plain(buf, wire) {
                    Some(s) => Some(prefixed(s)),
                    None => None,
                }
            }
        },
    }
}

/// The complaint about bytes that encode no preamble.
pub fn complaint_about(bytes: &[u8]) -> (r: Option<String>)
    ensures
        match r {
            Some(t) => complaint(bytes@) == Some(t@),
            None => complaint(bytes@) is None,
        },
{
    let mut rest: &[u8] = bytes;
    while rest.len() > 0
        invariant
            complaint(rest@) == complaint(bytes@),
        decreases rest@.len(),
    {
        if let Some(t) = check_key(rest) {
            return Some(prefixed(t.as_str()));
        }
        let (tag, wire, body) = match wire::get_key(rest) {
            Ok(k) => k,
            Err(_) => {
                return None;
            },
        };
        if let Some(t) = check_value(body, tag, wire) {
            return Some(t);
        }
        let after = match wire::get_field(rest, false) {
            Ok((_, _, after)) => after,
            Err(_) => {
                return None;
            },
        };
        rest = after;
    }
    None
}

} // verus!
