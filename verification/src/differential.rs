//! Comparison of two decoders of the same message: each parses the input and
//! encodes what it understood again.

use vstd::prelude::*;

use crate::pb;
use crate::pb::bcast;
use crate::pb::bcast::{Bcast, BcastView};
use crate::pb::chunk;
use crate::pb::chunk::{Header, HeaderView};
use crate::pb::rs;
use crate::pb::rs::{ChunkIdent, Preamble, PreambleView};
use crate::pb::sess;
use crate::pb::sess::{Sess, SessView};
use crate::pb::wire;
use crate::pb::wire::Message;
use crate::protocol;
use crate::protocol::Selector;

verus! {

/// The encoding of the message that `input` encodes, if it does.
pub open spec fn reencoded<M: Message>(input: Seq<u8>) -> Option<Seq<u8>> {
    match wire::merged::<M>(M::blank(), input) {
        Ok(v) => Some(M::encoding(v)),
        Err(_) => None,
    }
}

/// Parses `input` and encodes the message again.
pub fn parse_and_reencode<M: Message>(input: &[u8]) -> (r: Option<Vec<u8>>)
    ensures
        match r {
            Some(b) => reencoded::<M>(input@) == Some(b@),
            None => reencoded::<M>(input@) is None,
        },
{
    match wire::decode_message::<M>(input) {
        Ok(m) => Some(m.encode_to_vec()),
        Err(_) => None,
    }
}

/// Parse and re-encode a BCAST frame. Returns `None` if the input does not parse.
#[must_use]
pub fn bcast_parse_and_reencode(input: &[u8]) -> (r: Option<Vec<u8>>)
    ensures
        match r {
            Some(b) => reencoded::<Bcast>(input@) == Some(b@),
            None => reencoded::<Bcast>(input@) is None,
        },
{
    parse_and_reencode::<Bcast>(input)
}

/// Parse and re-encode a SESS frame. Returns `None` if the input does not parse.
#[must_use]
pub fn sess_parse_and_reencode(input: &[u8]) -> (r: Option<Vec<u8>>)
    ensures
        match r {
            Some(b) => reencoded::<Sess>(input@) == Some(b@),
            None => reencoded::<Sess>(input@) is None,
        },
{
    parse_and_reencode::<Sess>(input)
}

/// Parse and re-encode a selector message. Returns `None` if the input does not parse.
#[must_use]
pub fn selector_parse_and_reencode(input: &[u8]) -> (r: Option<Vec<u8>>)
    ensures
        match r {
            Some(b) => reencoded::<Selector>(input@) == Some(b@),
            None => reencoded::<Selector>(input@) is None,
        },
{
    parse_and_reencode::<Selector>(input)
}

/// Parse and re-encode a chunk header. Returns `None` if the input does not parse.
#[must_use]
pub fn chunk_header_parse_and_reencode(input: &[u8]) -> (r: Option<Vec<u8>>)
    ensures
        match r {
            Some(b) => reencoded::<Header>(input@) == Some(b@),
            None => reencoded::<Header>(input@) is None,
        },
{
    parse_and_reencode::<Header>(input)
}

/// Parse and re-encode a Reed-Solomon preamble. Returns `None` if the input does not parse.
#[must_use]
pub fn rs_preamble_parse_and_reencode(input: &[u8]) -> (r: Option<Vec<u8>>)
    ensures
        match r {
            Some(b) => reencoded::<Preamble>(input@) == Some(b@),
            None => reencoded::<Preamble>(input@) is None,
        },
{
    parse_and_reencode::<Preamble>(input)
}

/// Parse and re-encode a Reed-Solomon chunk identifier. Returns `None` if the input does not parse.
#[must_use]
pub fn rs_chunk_ident_parse_and_reencode(input: &[u8]) -> (r: Option<Vec<u8>>)
    ensures
        match r {
            Some(b) => reencoded::<ChunkIdent>(input@) == Some(b@),
            None => reencoded::<ChunkIdent>(input@) is None,
        },
{
    parse_and_reencode::<ChunkIdent>(input)
}

/// How two decoders compare on an input.
#[derive(Debug, Clone, Copy, PartialEq, Eq, Structural)]
pub enum Comparison {
    /// Both accept it and encode the same bytes.
    Agree,
    /// Both reject it.
    BothReject,
    /// Both accept it and encode different bytes.
    Mismatch,
    /// Only the first accepts it.
    OnlyFirst,
    /// Only the second accepts it.
    OnlySecond,
}

/// Compares what two decoders made of an input.
pub fn compare(first: &Option<Vec<u8>>, second: &Option<Vec<u8>>) -> (r: Comparison)
    ensures
        r == (match (*first, *second) {
            (Some(a), Some(b)) => if a@ == b@ {
                Comparison::Agree
            } else {
                Comparison::Mismatch
            },
            (None, None) => Comparison::BothReject,
            (Some(_), None) => Comparison::OnlyFirst,
            (None, Some(_)) => Comparison::OnlySecond,
        }),
{
    match (first, second) {
        (Some(a), Some(b)) => if pb::same_bytes(a.as_slice(), b.as_slice()) {
            Comparison::Agree
        } else {
            Comparison::Mismatch
        },
        (None, None) => Comparison::BothReject,
        (Some(_), None) => Comparison::OnlyFirst,
        (None, Some(_)) => Comparison::OnlySecond,
    }
}

/// A message that was encoded is understood as it was meant: encoding it again
/// gives the same bytes.
pub proof fn law_encoding_is_stable(
    b: BcastView,
    s: SessView,
    h: HeaderView,
    p: PreambleView,
    c: ChunkIdent,
    x: Selector,
)
    requires
        b.fits(),
        s.fits(),
        vstd::utf8::encode_utf8(h.channel).len() <= u64::MAX,
        vstd::utf8::encode_utf8(h.message_id).len() <= u64::MAX,
        h.chunk_id.len() <= u64::MAX,
        forall|i: int| 0 <= i < p.hashes.len() ==> (#[trigger] p.hashes[i]).len() <= u64::MAX,
        p.hash.len() <= u64::MAX,
    ensures
        reencoded::<Bcast>(Bcast::encoding(b)) == Some(Bcast::encoding(b)),
        reencoded::<Sess>(Sess::encoding(s)) == Some(Sess::encoding(s)),
        reencoded::<Header>(Header::encoding(h)) == Some(Header::encoding(h)),
        reencoded::<Preamble>(Preamble::encoding(p)) == Some(Preamble::encoding(p)),
        reencoded::<ChunkIdent>(ChunkIdent::encoding(c)) == Some(ChunkIdent::encoding(c)),
        reencoded::<Selector>(Selector::encoding(x)) == Some(Selector::encoding(x)),
{
    bcast::law_bcast_round_trip(b);
    sess::law_sess_round_trip(s);
    chunk::law_header_round_trip(h);
    rs::law_preamble_round_trip(p);
    rs::law_chunk_ident_round_trip(c);
    protocol::law_selector_round_trip(x);
}

} // verus!
