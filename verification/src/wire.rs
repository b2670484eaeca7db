//! Length-prefixed protobuf framing for BCAST and SESS streams: frames are
//! prefixed by a 4-byte big-endian `u32` length.

use vstd::prelude::*;
use vstd::slice::slice_subrange;

use crate::pb::wire;
use crate::pb::wire::Message;
use crate::pb::WireError;

verus! {

/// Maximum permitted frame size, in bytes (1 MiB).
/// Frames larger than this are rejected before any payload bytes are read or
/// written.
pub const MAX_FRAME_BYTES: usize = 1024 * 1024;

/// Bytes of a length prefix.
pub const PREFIX_BYTES: usize = 4;

/// Reasons for which nothing can be written.
#[derive(Debug, Clone, Copy, PartialEq, Eq, Structural)]
pub enum WriteError {
    /// The encoded message exceeds [`MAX_FRAME_BYTES`].
    FrameTooLarge { len: usize },
    /// The chunk payload exceeds the permitted size.
    PayloadTooLarge { len: u32 },
    /// The payload is not as long as its header says.
    PayloadMismatch { declared: u32, len: usize },
}

/// Reasons for which what was read is refused.
#[derive(Debug, Clone, Copy, PartialEq, Eq, Structural)]
pub enum ReadError {
    /// The stream ends before what it announced.
    UnexpectedEof,
    /// The declared frame length exceeds [`MAX_FRAME_BYTES`].
    FrameTooLarge { len: u32 },
    /// The frame is not the encoding of a message.
    Malformed(WireError),
    /// The selector byte names no stream kind.
    UnknownSelector { byte: u8 },
    /// The selector byte is that of the unspecified kind.
    UnspecifiedSelector,
    /// The declared chunk payload exceeds the permitted size.
    PayloadTooLarge { len: u32 },
}

/// The four bytes of a length, highest first.
pub open spec fn prefix(len: nat) -> Seq<u8> {
    seq![
        (len / 0x100_0000 % 256) as u8,
        (len / 0x1_0000 % 256) as u8,
        (len / 0x100 % 256) as u8,
        (len % 256) as u8,
    ]
}

/// The length that four bytes spell.
pub open spec fn length(b: Seq<u8>) -> nat {
    (b[0] * 0x100_0000 + b[1] * 0x1_0000 + b[2] * 0x100 + b[3]) as nat
}

/// A frame around `body`.
pub open spec fn frame(body: Seq<u8>) -> Seq<u8> {
    prefix(body.len()) + body
}

/// The body of the frame at the start of `b`, and what follows.
pub open spec fn unframed(b: Seq<u8>) -> Result<(Seq<u8>, Seq<u8>), ReadError> {
    if b.len() < PREFIX_BYTES {
        Err(ReadError::UnexpectedEof)
    } else if length(b) > MAX_FRAME_BYTES {
        Err(ReadError::FrameTooLarge { len: length(b) as u32 })
    } else if b.len() < PREFIX_BYTES + length(b) {
        Err(ReadError::UnexpectedEof)
    } else {
        let end = PREFIX_BYTES + length(b);
        Ok((b.subrange(PREFIX_BYTES as int, end), b.skip(end)))
    }
}

/// The message in the frame at the start of `b`, and what follows.
pub open spec fn framed_message<M: Message>(b: Seq<u8>) -> Result<(M::V, Seq<u8>), ReadError> {
    match unframed(b) {
        Err(e) => Err(e),
        Ok((body, rest)) => match wire::merged::<M>(M::blank(), body) {
            Err(e) => Err(ReadError::Malformed(e)),
            Ok(m) => Ok((m, rest)),
        },
    }
}

/// Appends a single protobuf message as `u32_be(len) || encoded_bytes`.
///
/// Returns an error if the encoded length exceeds [`MAX_FRAME_BYTES`].
pub fn write_framed<M: Message>(writer: &mut Vec<u8>, message: &M) -> (r: Result<(), WriteError>)
    ensures
        match r {
            Ok(()) => {
                &&& M::encoding(message@).len() <= MAX_FRAME_BYTES
                &&& final(writer)@ == old(writer)@ + frame(M::encoding(message@))
            },
            Err(e) => {
                &&& M::encoding(message@).len() > MAX_FRAME_BYTES
                &&& M::encoding(message@).len() <= usize::MAX
                &&& e == (WriteError::FrameTooLarge { len: M::encoding(message@).len() as usize })
                &&& final(writer)@ == old(writer)@
            },
        },
{
    let body = message.encode_to_vec();
    let len: usize = body.len();
    if len > MAX_FRAME_BYTES {
        return Err(WriteError::FrameTooLarge { len });
    }
    writer.push((len / 0x100_0000 % 256) as u8);
    writer.push((len / 0x1_0000 % 256) as u8);
    writer.push((len / 0x100 % 256) as u8);
    writer.push((len % 256) as u8);
    writer.extend_from_slice(body.as_slice());
    assert(writer@ =~= old(writer)@ + frame(body@));
    Ok(())
}

/// Length of the frame that a prefix announces.
pub fn frame_length(prefix: &[u8]) -> (r: Result<usize, ReadError>)
    ensures
        r == (if prefix@.len() < PREFIX_BYTES {
            Err(ReadError::UnexpectedEof)
        } else if length(prefix@) > MAX_FRAME_BYTES {
            Err(ReadError::FrameTooLarge { len: length(prefix@) as u32 })
        } else {
            Ok(length(prefix@) as usize)
        }),
{
    if prefix.len() < PREFIX_BYTES {
        return Err(ReadError::UnexpectedEof);
    }
    let len: u32 = prefix[0] as u32 * 0x100_0000 + prefix[1] as u32 * 0x1_0000 + prefix[2] as u32
        * 0x100 + prefix[3] as u32;
    if len as usize > MAX_FRAME_BYTES {
        return Err(ReadError::FrameTooLarge { len });
    }
    Ok(len as usize)
}

/// Reads a single 4-byte-big-endian length-prefixed protobuf message, and
/// returns what follows it too.
///
/// Returns an error if the declared length exceeds [`MAX_FRAME_BYTES`] or the
/// payload is truncated before the declared length is reached.
pub fn read_framed<'a, M: Message>(reader: &'a [u8]) -> (r: Result<(M, &'a [u8]), ReadError>)
    ensures
        match r {
            Ok((m, rest)) => framed_message::<M>(reader@) == Ok::<(M::V, Seq<u8>), ReadError>(
                (m@, rest@),
            ),
            Err(e) => framed_message::<M>(reader@) == Err::<(M::V, Seq<u8>), ReadError>(e),
        },
{
    let len: usize = match frame_length(reader) {
        Ok(n) => n,
        Err(e) => {
            return Err(e);
        },
    };
    if reader.len() - PREFIX_BYTES < len {
        return Err(ReadError::UnexpectedEof);
    }
    let end: usize = PREFIX_BYTES + len;
    let body = slice_subrange(reader, PREFIX_BYTES, end);
    let rest = slice_subrange(reader, end, reader.len());
    assert(rest@ =~= reader@.skip(end as int));
    match wire::decode_message::<M>(body) {
        Ok(m) => Ok((m, rest)),
        Err(e) => Err(ReadError::Malformed(e)),
    }
}

/// Reading a frame gives back the body that was framed and what followed it.
pub proof fn law_frame_round_trip(body: Seq<u8>, rest: Seq<u8>)
    requires
        body.len() <= MAX_FRAME_BYTES,
    ensures
        unframed(frame(body) + rest) == Ok::<(Seq<u8>, Seq<u8>), ReadError>((body, rest)),
{
    let b = frame(body) + rest;
    let n = body.len();
    assert(b[0] == prefix(n)[0] && b[1] == prefix(n)[1] && b[2] == prefix(n)[2] && b[3] == prefix(n)[3]);
    assert(length(b) == n);
    assert(b.subrange(4, 4 + n as int) =~= body);
    assert(b.skip(4 + n as int) =~= rest);
}

/// A frame is its body behind four bytes that spell its length, the most
/// significant first.
pub proof fn law_frame_is_prefixed(body: Seq<u8>)
    requires
        body.len() <= u32::MAX,
    ensures
        frame(body).len() == 4 + body.len(),
        frame(body).skip(4) == body,
        frame(body)[0] * 16777216 + frame(body)[1] * 65536 + frame(body)[2] * 256 + frame(body)[3]
            == body.len(),
{
    assert(frame(body).skip(4) =~= body);
}

/// A frame that announces more than a mebibyte is refused, however much of it
/// there is; any other is read as soon as all of it is there, and not before.
pub proof fn law_frames_are_bounded(b: Seq<u8>)
    requires
        b.len() >= 4,
    ensures
        ({
            let len = b[0] * 16777216 + b[1] * 65536 + b[2] * 256 + b[3];
            &&& len > 1048576 ==> unframed(b) == Err::<(Seq<u8>, Seq<u8>), ReadError>(
                ReadError::FrameTooLarge { len: len as u32 },
            )
            &&& len <= 1048576 && b.len() < 4 + len ==> unframed(b) == Err::<
                (Seq<u8>, Seq<u8>),
                ReadError,
            >(ReadError::UnexpectedEof)
            &&& len <= 1048576 && b.len() >= 4 + len ==> (unframed(b) matches Ok((body, rest))
                && body.len() == len && b.take(4) + body + rest == b)
        }),
{
    let len = b[0] * 16777216 + b[1] * 65536 + b[2] * 256 + b[3];
    assert(length(b) == len);
    if len <= 1048576 && b.len() >= 4 + len {
        let (body, rest) = unframed(b)->Ok_0;
        assert(b.take(4) + body + rest =~= b);
    }
}

} // verus!
