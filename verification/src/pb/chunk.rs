//! Header of a CHUNK stream.

use vstd::prelude::*;

use crate::pb::wire;
use crate::pb::wire::{Message, Raw, RawView};
use crate::pb::WireError;

verus! {

/// Announces the payload that follows on a CHUNK stream.
#[derive(Debug, Clone, PartialEq, Eq)]
pub struct Header {
    pub channel: String,
    pub message_id: String,
    pub chunk_id: Vec<u8>,
    pub data_length: u32,
}

/// Contents of a [`Header`].
#[verifier::ext_equal]
pub ghost struct HeaderView {
    pub channel: Seq<char>,
    pub message_id: Seq<char>,
    pub chunk_id: Seq<u8>,
    pub data_length: u32,
}

impl View for Header {
    type V = HeaderView;

    open spec fn view(&self) -> HeaderView {
        HeaderView {
            channel: self.channel@,
            message_id: self.message_id@,
            chunk_id: self.chunk_id@,
            data_length: self.data_length,
        }
    }
}

impl Header {
    /// The header that `bytes` encode.
    pub fn decode(bytes: &[u8]) -> (r: Result<Header, WireError>)
        ensures
            match r {
                Ok(m) => wire::merged::<Header>(Header::blank(), bytes@) == Ok::<HeaderView, WireError>(
                    m@,
                ),
                Err(e) => wire::merged::<Header>(Header::blank(), bytes@) == Err::<HeaderView, WireError>(
                    e,
                ),
            },
    {
        wire::decode_message(bytes)
    }
}

impl Message for Header {
    open spec fn blank() -> HeaderView {
        HeaderView {
            channel: Seq::empty(),
            message_id: Seq::empty(),
            chunk_id: Seq::empty(),
            data_length: 0,
        }
    }

    open spec fn applied(v: HeaderView, tag: u32, raw: RawView) -> Result<HeaderView, WireError> {
        if tag == 1 {
            match wire::text_of(raw) {
                Ok(channel) => Ok(HeaderView { channel, ..v }),
                Err(e) => Err(e),
            }
        } else if tag == 2 {
            match wire::text_of(raw) {
                Ok(message_id) => Ok(HeaderView { message_id, ..v }),
                Err(e) => Err(e),
            }
        } else if tag == 3 {
            match wire::blob_of(raw) {
                Ok(chunk_id) => Ok(HeaderView { chunk_id, ..v }),
                Err(e) => Err(e),
            }
        } else if tag == 4 {
            match wire::uint32_of(raw) {
                Ok(data_length) => Ok(HeaderView { data_length, ..v }),
                Err(e) => Err(e),
            }
        } else {
            Ok(v)
        }
    }

    open spec fn encoding(v: HeaderView) -> Seq<u8> {
        wire::with_text(
            1,
            v.channel,
            wire::with_text(
                2,
                v.message_id,
                wire::with_blob(3, v.chunk_id, wire::with_uint32(4, v.data_length, Seq::empty())),
            ),
        )
    }

    fn new_blank() -> (r: Self) {
        let r = Header {
            channel: String::new(),
            message_id: String::new(),
            chunk_id: Vec::new(),
            data_length: 0,
        };
        assert(r@ =~= Self::blank());
        r
    }

    fn merge_field(&mut self, tag: u32, raw: Raw) -> (r: Result<(), WireError>) {
        if tag == 1 {
            match wire::take_text(raw) {
                Ok(v) => {
                    self.channel = v;
                    Ok(())
                },
                Err(e) => Err(e),
            }
        } else if tag == 2 {
            match wire::take_text(raw) {
                Ok(v) => {
                    self.message_id = v;
                    Ok(())
                },
                Err(e) => Err(e),
            }
        } else if tag == 3 {
            match wire::take_blob(raw) {
                Ok(v) => {
                    self.chunk_id = v;
                    Ok(())
                },
                Err(e) => Err(e),
            }
        } else if tag == 4 {
            match wire::take_uint32(raw) {
                Ok(v) => {
                    self.data_length = v;
                    Ok(())
                },
                Err(e) => Err(e),
            }
        } else {
            Ok(())
        }
    }

    fn encode(&self, out: &mut Vec<u8>) {
        let ghost t4 = wire::with_uint32(4, self@.data_length, Seq::empty());
        let ghost t3 = wire::with_blob(3, self@.chunk_id, t4);
        let ghost t2 = wire::with_text(2, self@.message_id, t3);
        wire::put_text(1, &self.channel, out);
        assert(out@ + t2 == old(out)@ + Self::encoding(self@));
        wire::put_text(2, &self.message_id, out);
        assert(out@ + t3 == old(out)@ + Self::encoding(self@));
        wire::put_blob(3, self.chunk_id.as_slice(), out);
        assert(out@ + t4 == old(out)@ + Self::encoding(self@));
        wire::put_uint32(4, self.data_length, out);
        assert(out@ + Seq::<u8>::empty() =~= out@);
    }
}

/// Decoding the encoding of a chunk header gives the header back.
pub proof fn law_header_round_trip(v: HeaderView)
    requires
        vstd::utf8::encode_utf8(v.channel).len() <= u64::MAX,
        vstd::utf8::encode_utf8(v.message_id).len() <= u64::MAX,
        v.chunk_id.len() <= u64::MAX,
    ensures
        wire::merged::<Header>(Header::blank(), Header::encoding(v)) == Ok::<HeaderView, WireError>(v),
{
    let t4 = wire::with_uint32(4, v.data_length, Seq::empty());
    let t3 = wire::with_blob(3, v.chunk_id, t4);
    let t2 = wire::with_text(2, v.message_id, t3);
    let m0 = Header::blank();
    let m1 = HeaderView { channel: v.channel, ..m0 };
    let m2 = HeaderView { message_id: v.message_id, ..m1 };
    let m3 = HeaderView { chunk_id: v.chunk_id, ..m2 };
    wire::lemma_merge_text::<Header>(false, m0, 1, v.channel, t2);
    assert(wire::merged::<Header>(m0, Header::encoding(v)) == wire::merged::<Header>(m1, t2));
    wire::lemma_merge_text::<Header>(false, m1, 2, v.message_id, t3);
    wire::lemma_merge_bytes::<Header>(false, m2, 3, v.chunk_id, t4);
    if v.chunk_id.len() == 0 {
        assert(v.chunk_id =~= m2.chunk_id);
    }
    wire::law_integers_round_trip(0, v.data_length);
    wire::lemma_merge_varint::<Header>(false, m3, 4, v.data_length as u64, Seq::empty());
}

} // verus!
