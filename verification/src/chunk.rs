//! CHUNK stream layout: `Selector || Header || raw_bytes`.
//!
//! Each chunk is sent on its own unidirectional stream. The sender writes a
//! [`Protocol::Chunk`] selector, then a length-prefixed [`Header`], then
//! exactly `header.data_length` bytes of payload with no further framing.

use vstd::prelude::*;
use vstd::slice::slice_subrange;

use crate::pb;
use crate::pb::chunk;
use crate::pb::chunk::{Header, HeaderView};
use crate::pb::wire::Message;
use crate::protocol;
use crate::protocol::Protocol;
use crate::selector;
use crate::wire;
use crate::wire::{ReadError, WriteError, MAX_FRAME_BYTES};

verus! {

/// Maximum permitted CHUNK payload size, in bytes (1 MiB). Independent of
/// the framed-message cap in [`crate::wire`]: the payload rides raw, not as a
/// length-prefixed frame.
pub const MAX_CHUNK_DATA_BYTES: u32 = 1024 * 1024;

/// A complete CHUNK stream.
pub open spec fn chunk_stream(header: HeaderView, payload: Seq<u8>) -> Seq<u8> {
    seq![protocol::number_of(Protocol::Chunk)] + wire::frame(Header::encoding(header)) + payload
}

/// Why a chunk cannot be written, if it cannot.
pub open spec fn write_fault(header: HeaderView, len: nat) -> Option<WriteError> {
    if header.data_length > MAX_CHUNK_DATA_BYTES {
        Some(WriteError::PayloadTooLarge { len: header.data_length })
    } else if len != header.data_length {
        Some(WriteError::PayloadMismatch { declared: header.data_length, len: len as usize })
    } else if Header::encoding(header).len() > MAX_FRAME_BYTES {
        Some(WriteError::FrameTooLarge { len: Header::encoding(header).len() as usize })
    } else {
        None
    }
}

/// Writes a complete CHUNK stream: selector, header, and payload bytes.
///
/// Returns an error if `payload.len()` does not match `header.data_length`,
/// or if the payload exceeds [`MAX_CHUNK_DATA_BYTES`]; nothing is written
/// then. A header too large for a frame leaves the selector behind.
pub fn write_chunk(writer: &mut Vec<u8>, header: &Header, payload: &[u8]) -> (r: Result<
    (),
    WriteError,
>)
    ensures
        match r {
            Ok(()) => {
                &&& write_fault(header@, payload@.len()) is None
                &&& final(writer)@ == old(writer)@ + chunk_stream(header@, payload@)
            },
            Err(e) => {
                &&& write_fault(header@, payload@.len()) == Some(e)
                &&& final(writer)@ == (if e is FrameTooLarge {
                    old(writer)@.push(protocol::number_of(Protocol::Chunk))
                } else {
                    old(writer)@
                })
            },
        },
{
    if header.data_length > MAX_CHUNK_DATA_BYTES {
        return Err(WriteError::PayloadTooLarge { len: header.data_length });
    }
    if payload.len() != header.data_length as usize {
        return Err(WriteError::PayloadMismatch { declared: header.data_length, len: payload.len() });
    }
    selector::open_stream(writer, Protocol::Chunk);
    if let Err(e) = wire::write_framed(writer, header) {
        return Err(e);
    }
    writer.extend_from_slice(payload);
    assert(writer@ =~= old(writer)@ + chunk_stream(header@, payload@));
    Ok(())
}

/// The header at the start of an inbound CHUNK stream behind its selector,
/// and what follows it.
pub open spec fn chunk_opened(b: Seq<u8>) -> Result<(HeaderView, Seq<u8>), ReadError> {
    match wire::framed_message::<Header>(b) {
        Err(e) => Err(e),
        Ok((header, rest)) => if header.data_length > MAX_CHUNK_DATA_BYTES {
            Err(ReadError::PayloadTooLarge { len: header.data_length })
        } else {
            Ok((header, rest))
        },
    }
}

/// Rejects a header whose `data_length` exceeds [`MAX_CHUNK_DATA_BYTES`].
pub fn check_header(header: &Header) -> (r: Result<(), ReadError>)
    ensures
        r == (if header.data_length > MAX_CHUNK_DATA_BYTES {
            Err(ReadError::PayloadTooLarge { len: header.data_length })
        } else {
            Ok(())
        }),
{
    if header.data_length > MAX_CHUNK_DATA_BYTES {
        Err(ReadError::PayloadTooLarge { len: header.data_length })
    } else {
        Ok(())
    }
}

/// Reads the [`Header`] from an inbound CHUNK stream and returns a
/// payload reader bounded to exactly `header.data_length` bytes.
///
/// The selector byte must have been consumed by the caller first
/// (typically via [`crate::selector::read_selector`]), since the
/// dispatch layer needs the protocol identifier to route the stream.
///
/// Rejects a header whose `data_length` exceeds [`MAX_CHUNK_DATA_BYTES`]
/// before any payload bytes are read.
pub fn read_chunk_stream<'a>(reader: &'a [u8]) -> (r: Result<
    (Header, ChunkPayloadReader<&'a [u8]>),
    ReadError,
>)
    ensures
        match r {
            Ok((header, payload)) => {
                &&& chunk_opened(reader@) == Ok::<(HeaderView, Seq<u8>), ReadError>(
                    (header@, payload.source()@),
                )
                &&& payload.left() == header@.data_length
            },
            Err(e) => chunk_opened(reader@) == Err::<(HeaderView, Seq<u8>), ReadError>(e),
        },
{
    match wire::read_framed::<Header>(reader) {
        Err(e) => Err(e),
        Ok((header, rest)) => match check_header(&header) {
            Err(e) => Err(e),
            Ok(()) => {
                let payload = ChunkPayloadReader::new(rest, &header);
                Ok((header, payload))
            },
        },
    }
}

/// Bounded reader that yields exactly `data_length` bytes of CHUNK payload.
///
/// A source that ends before the declared payload length has been reached is
/// an error. After all expected bytes are delivered, further reads return
/// nothing.
#[derive(Debug)]
pub struct ChunkPayloadReader<R> {
    reader: R,
    remaining: u64,
}

impl<R> ChunkPayloadReader<R> {
    /// Where the payload comes from.
    pub closed spec fn source(&self) -> R {
        self.reader
    }

    /// Bytes still expected.
    pub closed spec fn left(&self) -> nat {
        self.remaining as nat
    }

    /// A reader of the payload that `header` announces.
    pub fn new(reader: R, header: &Header) -> (r: Self)
        ensures
            r.source() == reader,
            r.left() == header@.data_length,
    {
        ChunkPayloadReader { reader, remaining: header.data_length as u64 }
    }

    /// Bytes still expected from the underlying stream.
    #[must_use]
    pub fn remaining(&self) -> (r: u64)
        ensures
            r == self.left(),
    {
        self.remaining
    }

    /// The underlying stream.
    pub fn reader_mut(&mut self) -> (r: &mut R)
        ensures
            *r == old(self).source(),
            final(self).source() == *final(r),
            final(self).left() == old(self).left(),
    {
        &mut self.reader
    }

    /// How many bytes to ask the underlying stream for, when there is room
    /// for `room`.
    pub fn want(&self, room: usize) -> (r: usize)
        ensures
            r == (if self.left() <= room {
                self.left()
            } else {
                room as nat
            }),
    {
        if self.remaining <= room as u64 {
            self.remaining as usize
        } else {
            room
        }
    }

    /// Takes note of `n` bytes that the underlying stream gave when it was
    /// asked for `asked`, which are of the payload. None, where some were
    /// asked for, means that the stream has ended and the payload is
    /// truncated.
    pub fn took(&mut self, asked: usize, n: usize) -> (r: Result<(), ReadError>)
        requires
            n <= asked <= old(self).left(),
        ensures
            final(self).source() == old(self).source(),
            final(self).left() == old(self).left() - n,
            r == (if n == 0 && asked > 0 {
                Err(ReadError::UnexpectedEof)
            } else {
                Ok(())
            }),
    {
        if n == 0 && asked > 0 {
            return Err(ReadError::UnexpectedEof);
        }
        self.remaining = self.remaining - n as u64;
        Ok(())
    }
}

/// How many bytes a read with room for `room` bytes takes from a source of
/// `len` bytes of which `left` belong to the payload.
pub open spec fn taken(left: nat, len: nat, room: nat) -> nat {
    let want = if left <= room {
        left
    } else {
        room
    };
    if want <= len {
        want
    } else {
        len
    }
}

impl<'a> ChunkPayloadReader<&'a [u8]> {
    /// Reads at most `room` bytes. Without room nothing is read, and only a
    /// source that has ended too early is an error.
    pub fn read(&mut self, room: usize) -> (r: Result<Vec<u8>, ReadError>)
        ensures
            ({
                let n = taken(old(self).left(), old(self).source()@.len(), room as nat);
                match r {
                    Ok(b) => {
                        &&& old(self).left() == 0 || room == 0 || old(self).source()@.len() > 0
                        &&& b@ == old(self).source()@.take(n as int)
                        &&& final(self).source()@ == old(self).source()@.skip(n as int)
                        &&& final(self).left() == old(self).left() - n
                    },
                    Err(e) => {
                        &&& old(self).left() > 0 && room > 0 && old(self).source()@.len() == 0
                        &&& e == ReadError::UnexpectedEof
                        &&& final(self).source()@ == old(self).source()@
                        &&& final(self).left() == old(self).left()
                    },
                }
            }),
    {
        if self.remaining == 0 {
            let r: Vec<u8> = Vec::new();
            assert(r@ =~= old(self).source()@.take(0));
            assert(old(self).source()@.skip(0) =~= old(self).source()@);
            return Ok(r);
        }
        let want: usize = self.want(room);
        let len: usize = self.reader.len();
        let n: usize = if want <= len {
            want
        } else {
            len
        };
        if let Err(e) = self.took(want, n) {
            return Err(e);
        }
        let given = slice_subrange(self.reader, 0, n);
        let rest = slice_subrange(self.reader, n, len);
        assert(given@ =~= old(self).source()@.take(n as int));
        assert(rest@ =~= old(self).source()@.skip(n as int));
        self.reader = rest;
        Ok(pb::copy_bytes(given))
    }

    /// Reads what is left of the payload. A source that is too short is an
    /// error.
    pub fn read_to_end(&mut self) -> (r: Result<Vec<u8>, ReadError>)
        ensures
            match r {
                Ok(b) => {
                    &&& old(self).left() <= old(self).source()@.len()
                    &&& b@ == old(self).source()@.take(old(self).left() as int)
                    &&& final(self).source()@ == old(self).source()@.skip(old(self).left() as int)
                    &&& final(self).left() == 0
                },
                Err(e) => {
                    &&& old(self).left() > old(self).source()@.len()
                    &&& e == ReadError::UnexpectedEof
                    &&& final(self).source()@.len() == 0
                    &&& final(self).left() == old(self).left() - old(self).source()@.len()
                },
            },
    {
        let len: usize = self.reader.len();
        let enough: bool = self.remaining <= len as u64;
        if self.remaining > 0 && len == 0 {
            return Err(ReadError::UnexpectedEof);
        }
        match self.read(len) {
            Ok(b) => if enough {
                Ok(b)
            } else {
                Err(ReadError::UnexpectedEof)
            },
            Err(e) => Err(e),
        }
    }
}

/// A chunk that was written reads back: the selector of a CHUNK stream, the
/// header, and as the payload what was written.
pub proof fn law_chunk_stream_round_trip(header: HeaderView, payload: Seq<u8>, rest: Seq<u8>)
    requires
        write_fault(header, payload.len()) is None,
        vstd::utf8::encode_utf8(header.channel).len() <= u64::MAX,
        vstd::utf8::encode_utf8(header.message_id).len() <= u64::MAX,
        header.chunk_id.len() <= u64::MAX,
    ensures
        ({
            let b = chunk_stream(header, payload) + rest;
            &&& selector::selected(b[0]) == Ok::<Protocol, ReadError>(Protocol::Chunk)
            &&& chunk_opened(b.skip(1)) == Ok::<(HeaderView, Seq<u8>), ReadError>(
                (header, payload + rest),
            )
            &&& (payload + rest).take(header.data_length as int) == payload
        }),
{
    let b = chunk_stream(header, payload) + rest;
    let body = Header::encoding(header);
    assert(b.skip(1) =~= wire::frame(body) + (payload + rest));
    wire::law_frame_round_trip(body, payload + rest);
    chunk::law_header_round_trip(header);
    assert((payload + rest).take(header.data_length as int) =~= payload);
}

/// A chunk can be written exactly when its header announces the length of its
/// payload, that is at most a mebibyte, and the header fits into a frame. A
/// header that announces more is refused by its reader, too.
pub proof fn law_chunks_are_bounded(header: HeaderView, len: nat, b: Seq<u8>)
    ensures
        write_fault(header, len) is None <==> header.data_length == len && len <= 1048576
            && Header::encoding(header).len() <= 1048576,
        header.data_length > 1048576 ==> write_fault(header, len) == Some(
            WriteError::PayloadTooLarge { len: header.data_length },
        ),
        chunk_opened(b) matches Ok((h, rest)) ==> h.data_length <= 1048576 && wire::framed_message::<
            Header,
        >(b) == Ok::<(HeaderView, Seq<u8>), ReadError>((h, rest)),
        wire::framed_message::<Header>(b) matches Ok((h, rest)) ==> (chunk_opened(b) is Ok
            <==> h.data_length <= 1048576),
{
}

/// A read takes no more than is left of the chunk, than there is room for, and
/// than the source has, and no less than one of them.
pub proof fn law_read_takes_what_it_may(left: nat, len: nat, room: nat)
    ensures
        ({
            let n = taken(left, len, room);
            &&& n <= left && n <= len && n <= room
            &&& n == left || n == len || n == room
        }),
{
}

} // verus!
