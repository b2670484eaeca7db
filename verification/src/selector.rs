//! Stream-opening protocol selector.
//!
//! Every stream begins with exactly one raw byte whose value is
//! the [`Protocol`] number (BCAST=1, SESS=2, CHUNK=3).
//! The byte is not length-prefixed.
//! Streams whose selector is `0` (unspecified) or an unknown value are
//! rejected by the reader; the dispatch layer cancels such streams.

use vstd::prelude::*;
use vstd::slice::slice_subrange;

use crate::protocol;
use crate::protocol::Protocol;
use crate::wire::ReadError;

verus! {

/// The stream kind that a selector byte declares.
pub open spec fn selected(byte: u8) -> Result<Protocol, ReadError> {
    if byte == 0 {
        Err(ReadError::UnspecifiedSelector)
    } else if byte == 1 {
        Ok(Protocol::Bcast)
    } else if byte == 2 {
        Ok(Protocol::Sess)
    } else if byte == 3 {
        Ok(Protocol::Chunk)
    } else {
        Err(ReadError::UnknownSelector { byte })
    }
}

/// Writes the single-byte protocol selector for `protocol`. The writer is
/// then positioned to write the stream-type's framed messages.
pub fn open_stream(writer: &mut Vec<u8>, protocol: Protocol)
    ensures
        final(writer)@ == old(writer)@.push(protocol::number_of(protocol)),
{
    writer.push(protocol.number());
}

/// The stream kind that a selector byte declares.
pub fn check_selector(byte: u8) -> (r: Result<Protocol, ReadError>)
    ensures
        r == selected(byte),
{
    match Protocol::from_number(byte) {
        None => Err(ReadError::UnknownSelector { byte }),
        Some(Protocol::Unspecified) => Err(ReadError::UnspecifiedSelector),
        Some(p) => Ok(p),
    }
}

/// Reads the single opening selector byte and returns the declared protocol,
/// with what follows the byte.
///
/// Rejects [`Protocol::Unspecified`] and unrecognized values.
pub fn read_selector<'a>(reader: &'a [u8]) -> (r: Result<(Protocol, &'a [u8]), ReadError>)
    ensures
        match r {
            Ok((p, rest)) => {
                &&& reader@.len() > 0
                &&& selected(reader@[0]) == Ok::<Protocol, ReadError>(p)
                &&& rest@ == reader@.skip(1)
            },
            Err(e) => if reader@.len() == 0 {
                e == ReadError::UnexpectedEof
            } else {
                selected(reader@[0]) == Err::<Protocol, ReadError>(e)
            },
        },
{
    if reader.len() == 0 {
        return Err(ReadError::UnexpectedEof);
    }
    match check_selector(reader[0]) {
        Ok(p) => {
            let rest = slice_subrange(reader, 1, reader.len());
            assert(rest@ =~= reader@.skip(1));
            Ok((p, rest))
        },
        Err(e) => Err(e),
    }
}

/// A stream opened for a protocol reads as that protocol; one opened as
/// unspecified is refused.
pub proof fn law_selector_byte_round_trip(p: Protocol)
    ensures
        p != Protocol::Unspecified ==> selected(protocol::number_of(p)) == Ok::<Protocol, ReadError>(p),
        p == Protocol::Unspecified ==> selected(protocol::number_of(p)) == Err::<Protocol, ReadError>(
            ReadError::UnspecifiedSelector,
        ),
{
}

/// Streams are told apart by a byte: 1 for BCAST, 2 for SESS and 3 for CHUNK.
/// 0 says nothing, and no other byte means anything.
pub proof fn law_selector_bytes(byte: u8, p: Protocol)
    ensures
        selected(byte) == Ok::<Protocol, ReadError>(p) <==> (byte == 1 && p == Protocol::Bcast) || (byte
            == 2 && p == Protocol::Sess) || (byte == 3 && p == Protocol::Chunk),
        byte == 0 ==> selected(byte) == Err::<Protocol, ReadError>(ReadError::UnspecifiedSelector),
        byte > 3 ==> selected(byte) == Err::<Protocol, ReadError>(ReadError::UnknownSelector { byte }),
        protocol::number_of(Protocol::Bcast) == 1,
        protocol::number_of(Protocol::Sess) == 2,
        protocol::number_of(Protocol::Chunk) == 3,
{
}

} // verus!
