//! Foundational protocol types: the stream kinds and their selector.

use vstd::prelude::*;

use crate::pb::wire;
use crate::pb::wire::{Message, Raw, RawView};
use crate::pb::WireError;

verus! {

/// Kind of a stream.
#[derive(Debug, Clone, Copy, PartialEq, Eq, Structural)]
pub enum Protocol {
    Unspecified,
    Bcast,
    Sess,
    Chunk,
}

/// Number of a stream kind.
pub open spec fn number_of(p: Protocol) -> u8 {
    match p {
        Protocol::Unspecified => 0,
        Protocol::Bcast => 1,
        Protocol::Sess => 2,
        Protocol::Chunk => 3,
    }
}

impl Protocol {
    /// Number of this stream kind.
    pub fn number(self) -> (r: u8)
        ensures
            r == number_of(self),
    {
        match self {
            Protocol::Unspecified => 0,
            Protocol::Bcast => 1,
            Protocol::Sess => 2,
            Protocol::Chunk => 3,
        }
    }

    /// The stream kind of this number, if there is one.
    pub fn from_number(n: u8) -> (r: Option<Protocol>)
        ensures
            match r {
                Some(p) => number_of(p) == n,
                None => n > 3,
            },
    {
        match n {
            0 => Some(Protocol::Unspecified),
            1 => Some(Protocol::Bcast),
            2 => Some(Protocol::Sess),
            3 => Some(Protocol::Chunk),
            _ => None,
        }
    }
}

/// Names the kind of a stream.
#[derive(Debug, Clone, Copy, PartialEq, Eq, Structural)]
pub struct Selector {
    pub protocol: i32,
}

impl View for Selector {
    type V = Selector;

    open spec fn view(&self) -> Selector {
        *self
    }
}

impl Selector {
    /// The selector that `bytes` encode.
    pub fn decode(bytes: &[u8]) -> (r: Result<Selector, WireError>)
        ensures
            r == wire::merged::<Selector>(Selector::blank(), bytes@),
    {
        wire::decode_message(bytes)
    }
}

impl Message for Selector {
    open spec fn blank() -> Selector {
        Selector { protocol: 0 }
    }

    open spec fn applied(v: Selector, tag: u32, raw: RawView) -> Result<Selector, WireError> {
        if tag == 1 {
            match wire::int32_of(raw) {
                Ok(protocol) => Ok(Selector { protocol }),
                Err(e) => Err(e),
            }
        } else {
            Ok(v)
        }
    }

    open spec fn encoding(v: Selector) -> Seq<u8> {
        wire::with_int32(1, v.protocol, Seq::empty())
    }

    fn new_blank() -> (r: Self) {
        Selector { protocol: 0 }
    }

    fn merge_field(&mut self, tag: u32, raw: Raw) -> (r: Result<(), WireError>) {
        if tag == 1 {
            match wire::take_int32(raw) {
                Ok(v) => {
                    self.protocol = v;
                    Ok(())
                },
                Err(e) => Err(e),
            }
        } else {
            Ok(())
        }
    }

    fn encode(&self, out: &mut Vec<u8>) {
        wire::put_int32(1, self.protocol, out);
        assert(out@ + Seq::<u8>::empty() =~= out@);
    }
}

/// Decoding the encoding of a selector gives it back, and only the
/// unspecified selector encodes to nothing.
pub proof fn law_selector_round_trip(v: Selector)
    ensures
        wire::merged::<Selector>(Selector::blank(), Selector::encoding(v)) == Ok::<Selector, WireError>(
            v,
        ),
        v.protocol != 0 ==> Selector::encoding(v).len() > 0,
{
    wire::law_integers_round_trip(v.protocol, 0);
    wire::lemma_merge_varint::<Selector>(false, Selector::blank(),
        1,
        wire::extended(v.protocol),
        Seq::empty(),
    );
    wire::law_varint_round_trip(wire::extended(v.protocol), Seq::empty());
}

} // verus!
