//! How messages are laid out in bytes: each field behind the byte that holds
//! its number and type.

use vstd::prelude::*;

use crate::pb::bcast::{
    Bcast,
    BcastView,
    Handshake,
    HandshakeView,
    MessageView,
    Subscribe,
    SubscribeView,
    Unsubscribe,
    UnsubscribeView,
};
use crate::pb::chunk::{Header, HeaderView};
use crate::pb::rs::{ChunkIdent, Preamble, PreambleView};
use crate::pb::sess::{FrameView, Open, OpenView, Sess, SessView, Update, UpdateView};
use crate::pb::wire;
use crate::pb::wire::Message;
use crate::pb::WireError;
use crate::protocol::Selector;

verus! {

/// A byte string behind its key and its length.
pub open spec fn delimited(key: u8, b: Seq<u8>) -> Seq<u8> {
    seq![key] + wire::leb(b.len()) + b
}

/// The same, but nothing for no bytes.
pub open spec fn optional(key: u8, b: Seq<u8>) -> Seq<u8> {
    if b.len() == 0 {
        Seq::empty()
    } else {
        delimited(key, b)
    }
}

/// The UTF-8 form of a text behind its key and its length, but nothing for no
/// text.
pub open spec fn spelled(key: u8, s: Seq<char>) -> Seq<u8> {
    optional(key, vstd::utf8::encode_utf8(s))
}

/// An integer behind its key, but nothing for 0. A negative one takes ten
/// bytes, as if it had 64 bits.
pub open spec fn counted(key: u8, v: int) -> Seq<u8> {
    if v == 0 {
        Seq::empty()
    } else if v > 0 {
        seq![key] + wire::leb(v as nat)
    } else {
        seq![key] + wire::leb((18446744073709551616 + v) as nat)
    }
}

/// Byte strings, each behind its key and its length.
pub open spec fn repeated(key: u8, items: Seq<Seq<u8>>) -> Seq<u8>
    decreases items.len(),
{
    if items.len() == 0 {
        Seq::empty()
    } else {
        delimited(key, items[0]) + repeated(key, items.drop_first())
    }
}

proof fn lemma_key(tag: u32, kind: u8)
    requires
        1 <= tag <= 15,
        kind < 8,
    ensures
        wire::key(tag, kind) == seq![(8 * tag + kind) as u8],
{
}

proof fn lemma_bytes(tag: u32, b: Seq<u8>, tail: Seq<u8>)
    requires
        1 <= tag <= 15,
    ensures
        wire::with_bytes(tag, b, tail) == delimited((8 * tag + 2) as u8, b) + tail,
        wire::with_blob(tag, b, tail) == optional((8 * tag + 2) as u8, b) + tail,
{
    lemma_key(tag, 2);
    assert(wire::with_bytes(tag, b, tail) =~= delimited((8 * tag + 2) as u8, b) + tail);
    assert(wire::with_blob(tag, b, tail) =~= optional((8 * tag + 2) as u8, b) + tail);
}

proof fn lemma_integer(tag: u32, v: i32, u: u32, tail: Seq<u8>)
    requires
        1 <= tag <= 15,
    ensures
        wire::with_int32(tag, v, tail) == counted((8 * tag) as u8, v as int) + tail,
        wire::with_uint32(tag, u, tail) == counted((8 * tag) as u8, u as int) + tail,
{
    lemma_key(tag, 0);
    assert(wire::with_int32(tag, v, tail) =~= counted((8 * tag) as u8, v as int) + tail);
    assert(wire::with_uint32(tag, u, tail) =~= counted((8 * tag) as u8, u as int) + tail);
}

proof fn lemma_repeated(tag: u32, items: Seq<Seq<u8>>, tail: Seq<u8>)
    requires
        1 <= tag <= 15,
    ensures
        wire::with_blobs(tag, items, tail) == repeated((8 * tag + 2) as u8, items) + tail,
    decreases items.len(),
{
    let key = (8 * tag + 2) as u8;
    if items.len() > 0 {
        let rest = items.drop_first();
        lemma_repeated(tag, rest, tail);
        lemma_bytes(tag, items[0], wire::with_blobs(tag, rest, tail));
        assert(delimited(key, items[0]) + (repeated(key, rest) + tail) =~= (delimited(key, items[0])
            + repeated(key, rest)) + tail);
    } else {
        assert(Seq::<u8>::empty() + tail =~= tail);
    }
}

/// A handshake holds the version as field 1, the channels as fields 2 and the
/// name as field 3; a subscription and its end hold the channel as field 1. A
/// BCAST frame holds one of these, as field 1, 2 or 3.
pub proof fn law_control_layout(
    h: HandshakeView,
    s: SubscribeView,
    u: UnsubscribeView,
)
    ensures
        Handshake::encoding(h) == counted(8, h.version as int) + repeated(
            18,
            wire::utf8_list(h.channels),
        ) + spelled(26, h.peer_id),
        Subscribe::encoding(s) == spelled(10, s.channel),
        Unsubscribe::encoding(u) == spelled(10, u.channel),
        Bcast::encoding(BcastView { message: Some(MessageView::PeerHandshake(h)) }) == delimited(
            10,
            Handshake::encoding(h),
        ),
        Bcast::encoding(BcastView { message: Some(MessageView::ChannelSubscribe(s)) }) == delimited(
            18,
            Subscribe::encoding(s),
        ),
        Bcast::encoding(BcastView { message: Some(MessageView::ChannelUnsubscribe(u)) }) == delimited(
            26,
            Unsubscribe::encoding(u),
        ),
        Bcast::encoding(BcastView { message: None }) == Seq::<u8>::empty(),
{
    let none = Seq::<u8>::empty();
    let name = vstd::utf8::encode_utf8(h.peer_id);
    lemma_bytes(3, name, none);
    let t2 = wire::with_text(3, h.peer_id, none);
    lemma_repeated(2, wire::utf8_list(h.channels), t2);
    let t1 = wire::with_blobs(2, wire::utf8_list(h.channels), t2);
    lemma_integer(1, 0, h.version, t1);
    assert(Handshake::encoding(h) =~= counted(8, h.version as int) + repeated(
        18,
        wire::utf8_list(h.channels),
    ) + spelled(26, h.peer_id));
    lemma_bytes(1, vstd::utf8::encode_utf8(s.channel), none);
    lemma_bytes(1, vstd::utf8::encode_utf8(u.channel), none);
    assert(spelled(10, s.channel) + none =~= spelled(10, s.channel));
    assert(spelled(10, u.channel) + none =~= spelled(10, u.channel));
    lemma_bytes(1, Handshake::encoding(h), none);
    lemma_bytes(2, Subscribe::encoding(s), none);
    lemma_bytes(3, Unsubscribe::encoding(u), none);
    assert(delimited(10, Handshake::encoding(h)) + none =~= delimited(10, Handshake::encoding(h)));
    assert(delimited(18, Subscribe::encoding(s)) + none =~= delimited(18, Subscribe::encoding(s)));
    assert(delimited(26, Unsubscribe::encoding(u)) + none =~= delimited(26, Unsubscribe::encoding(u)));
}

/// The frame that opens a session holds the channel, the message, the
/// preamble and the first update, as fields 1 to 4; a routing update holds its
/// data as field 1. A SESS frame holds one of these, as field 1 or 2.
pub proof fn law_session_layout(o: OpenView, u: UpdateView)
    ensures
        Open::encoding(o) == spelled(10, o.channel) + spelled(18, o.message_id) + optional(
            26,
            o.preamble,
        ) + optional(34, o.initial_update),
        Update::encoding(u) == optional(10, u.data),
        Sess::encoding(SessView { frame: Some(FrameView::SessionOpen(o)) }) == delimited(
            10,
            Open::encoding(o),
        ),
        Sess::encoding(SessView { frame: Some(FrameView::RoutingUpdate(u)) }) == delimited(
            18,
            Update::encoding(u),
        ),
        Sess::encoding(SessView { frame: None }) == Seq::<u8>::empty(),
{
    let none = Seq::<u8>::empty();
    lemma_bytes(4, o.initial_update, none);
    let t3 = wire::with_blob(4, o.initial_update, none);
    lemma_bytes(3, o.preamble, t3);
    let t2 = wire::with_blob(3, o.preamble, t3);
    lemma_bytes(2, vstd::utf8::encode_utf8(o.message_id), t2);
    let t1 = wire::with_text(2, o.message_id, t2);
    lemma_bytes(1, vstd::utf8::encode_utf8(o.channel), t1);
    assert(Open::encoding(o) =~= spelled(10, o.channel) + spelled(18, o.message_id) + optional(
        26,
        o.preamble,
    ) + optional(34, o.initial_update));
    lemma_bytes(1, u.data, none);
    assert(optional(10, u.data) + none =~= optional(10, u.data));
    lemma_bytes(1, Open::encoding(o), none);
    lemma_bytes(2, Update::encoding(u), none);
    assert(delimited(10, Open::encoding(o)) + none =~= delimited(10, Open::encoding(o)));
    assert(delimited(18, Update::encoding(u)) + none =~= delimited(18, Update::encoding(u)));
}

/// The header of a chunk holds the channel, the message, the identifier and
/// the length of the data, as fields 1 to 4. An identifier and a selector hold
/// their number as field 1.
pub proof fn law_chunk_layout(h: HeaderView, c: ChunkIdent, s: Selector)
    ensures
        Header::encoding(h) == spelled(10, h.channel) + spelled(18, h.message_id) + optional(
            26,
            h.chunk_id,
        ) + counted(32, h.data_length as int),
        ChunkIdent::encoding(c) == counted(8, c.index as int),
        Selector::encoding(s) == counted(8, s.protocol as int),
{
    let none = Seq::<u8>::empty();
    lemma_integer(4, 0, h.data_length, none);
    let t3 = wire::with_uint32(4, h.data_length, none);
    lemma_bytes(3, h.chunk_id, t3);
    let t2 = wire::with_blob(3, h.chunk_id, t3);
    lemma_bytes(2, vstd::utf8::encode_utf8(h.message_id), t2);
    let t1 = wire::with_text(2, h.message_id, t2);
    lemma_bytes(1, vstd::utf8::encode_utf8(h.channel), t1);
    assert(Header::encoding(h) =~= spelled(10, h.channel) + spelled(18, h.message_id) + optional(
        26,
        h.chunk_id,
    ) + counted(32, h.data_length as int));
    lemma_integer(1, c.index, 0, none);
    lemma_integer(1, s.protocol, 0, none);
    assert(counted(8, c.index as int) + none =~= counted(8, c.index as int));
    assert(counted(8, s.protocol as int) + none =~= counted(8, s.protocol as int));
}

/// A preamble holds the counts of data and parity shards, the length, the
/// digests of the shards and that of the message, as fields 1 to 5.
pub proof fn law_preamble_layout(p: PreambleView)
    ensures
        Preamble::encoding(p) == counted(8, p.num_data as int) + (counted(16, p.num_parity as int) + (
        counted(24, p.length as int) + (repeated(34, p.hashes) + optional(42, p.hash)))),
{
    let none = Seq::<u8>::empty();
    lemma_bytes(5, p.hash, none);
    let q4 = wire::with_blob(5, p.hash, none);
    assert(q4 =~= optional(42, p.hash));
    lemma_repeated(4, p.hashes, q4);
    let q3 = wire::with_blobs(4, p.hashes, q4);
    lemma_integer(3, p.length, 0, q3);
    let q2 = wire::with_int32(3, p.length, q3);
    lemma_integer(2, p.num_parity, 0, q2);
    let q1 = wire::with_int32(2, p.num_parity, q2);
    lemma_integer(1, p.num_data, 0, q1);
}

/// Fields that a message does not know are passed over, whatever they hold.
pub proof fn law_unknown_fields_are_passed_over(tag: u32, v: u64, b: Seq<u8>, tail: Seq<u8>)
    requires
        6 <= tag < 0x1000_0000,
        b.len() <= u64::MAX,
    ensures
        wire::merged::<Bcast>(Bcast::blank(), wire::with_varint(tag, v, tail)) == wire::merged::<Bcast>(
            Bcast::blank(),
            tail,
        ),
        wire::merged::<Bcast>(Bcast::blank(), wire::with_bytes(tag, b, tail)) == wire::merged::<Bcast>(
            Bcast::blank(),
            tail,
        ),
        wire::merged::<Sess>(Sess::blank(), wire::with_varint(tag, v, tail)) == wire::merged::<Sess>(
            Sess::blank(),
            tail,
        ),
        wire::merged::<Sess>(Sess::blank(), wire::with_bytes(tag, b, tail)) == wire::merged::<Sess>(
            Sess::blank(),
            tail,
        ),
        wire::merged::<Header>(Header::blank(), wire::with_varint(tag, v, tail)) == wire::merged::<
            Header,
        >(Header::blank(), tail),
        wire::merged::<Header>(Header::blank(), wire::with_bytes(tag, b, tail)) == wire::merged::<
            Header,
        >(Header::blank(), tail),
        wire::merged::<Preamble>(Preamble::blank(), wire::with_varint(tag, v, tail)) == wire::merged::<
            Preamble,
        >(Preamble::blank(), tail),
        wire::merged::<Preamble>(Preamble::blank(), wire::with_bytes(tag, b, tail)) == wire::merged::<
            Preamble,
        >(Preamble::blank(), tail),
        wire::merged::<ChunkIdent>(ChunkIdent::blank(), wire::with_varint(tag, v, tail))
            == wire::merged::<ChunkIdent>(ChunkIdent::blank(), tail),
        wire::merged::<Selector>(Selector::blank(), wire::with_varint(tag, v, tail)) == wire::merged::<
            Selector,
        >(Selector::blank(), tail),
{
    wire::lemma_merge_varint::<Bcast>(false, Bcast::blank(), tag, v, tail);
    wire::lemma_merge_bytes::<Bcast>(false, Bcast::blank(), tag, b, tail);
    wire::lemma_merge_varint::<Sess>(false, Sess::blank(), tag, v, tail);
    wire::lemma_merge_bytes::<Sess>(false, Sess::blank(), tag, b, tail);
    wire::lemma_merge_varint::<Header>(false, Header::blank(), tag, v, tail);
    wire::lemma_merge_bytes::<Header>(false, Header::blank(), tag, b, tail);
    wire::lemma_merge_varint::<Preamble>(false, Preamble::blank(), tag, v, tail);
    wire::lemma_merge_bytes::<Preamble>(false, Preamble::blank(), tag, b, tail);
    wire::lemma_merge_varint::<ChunkIdent>(false, ChunkIdent::blank(), tag, v, tail);
    wire::lemma_merge_varint::<Selector>(false, Selector::blank(), tag, v, tail);
}

/// Of a number or a text that comes twice the later one counts; of digests
/// all do, in turn.
pub proof fn law_later_fields_win(
    i: ChunkIdent,
    h: HeaderView,
    p: PreambleView,
    a: u64,
    b: Seq<u8>,
    tail: Seq<u8>,
)
    requires
        b.len() <= u64::MAX,
    ensures
        wire::merged::<ChunkIdent>(i, wire::with_varint(1, a, tail)) == wire::merged::<ChunkIdent>(
            ChunkIdent { index: wire::low_signed(a) },
            tail,
        ),
        wire::merged::<Header>(h, wire::with_varint(4, a, tail)) == wire::merged::<Header>(
            HeaderView { data_length: wire::low_unsigned(a), ..h },
            tail,
        ),
        wire::merged::<Header>(h, wire::with_bytes(3, b, tail)) == wire::merged::<Header>(
            HeaderView { chunk_id: b, ..h },
            tail,
        ),
        wire::merged::<Preamble>(p, wire::with_varint(1, a, tail)) == wire::merged::<Preamble>(
            PreambleView { num_data: wire::low_signed(a), ..p },
            tail,
        ),
        wire::merged::<Preamble>(p, wire::with_bytes(4, b, tail)) == wire::merged::<Preamble>(
            PreambleView { hashes: p.hashes.push(b), ..p },
            tail,
        ),
        wire::merged::<Preamble>(p, wire::with_bytes(5, b, tail)) == wire::merged::<Preamble>(
            PreambleView { hash: b, ..p },
            tail,
        ),
{
    wire::lemma_merge_varint::<ChunkIdent>(false, i, 1, a, tail);
    wire::lemma_merge_varint::<Header>(false, h, 4, a, tail);
    wire::lemma_merge_bytes::<Header>(false, h, 3, b, tail);
    wire::lemma_merge_varint::<Preamble>(false, p, 1, a, tail);
    wire::lemma_merge_bytes::<Preamble>(false, p, 4, b, tail);
    wire::lemma_merge_bytes::<Preamble>(false, p, 5, b, tail);
}

/// A field of another type than the message has it with makes the message
/// unreadable.
pub proof fn law_wrong_type_is_refused(a: u64, b: Seq<u8>, tail: Seq<u8>)
    requires
        b.len() <= u64::MAX,
    ensures
        wire::merged::<ChunkIdent>(ChunkIdent::blank(), wire::with_bytes(1, b, tail)) == Err::<
            ChunkIdent,
            WireError,
        >(WireError::UnexpectedWireType),
        wire::merged::<Header>(Header::blank(), wire::with_varint(1, a, tail)) == Err::<
            HeaderView,
            WireError,
        >(WireError::UnexpectedWireType),
        wire::merged::<Preamble>(Preamble::blank(), wire::with_varint(4, a, tail)) == Err::<
            PreambleView,
            WireError,
        >(WireError::UnexpectedWireType),
        wire::merged::<Bcast>(Bcast::blank(), wire::with_varint(1, a, tail)) == Err::<
            BcastView,
            WireError,
        >(WireError::UnexpectedWireType),
        wire::merged::<Sess>(Sess::blank(), wire::with_varint(2, a, tail)) == Err::<SessView, WireError>(
            WireError::UnexpectedWireType,
        ),
{
    wire::lemma_merge_bytes::<ChunkIdent>(false, ChunkIdent::blank(), 1, b, tail);
    wire::lemma_merge_varint::<Header>(false, Header::blank(), 1, a, tail);
    wire::lemma_merge_varint::<Preamble>(false, Preamble::blank(), 4, a, tail);
    wire::lemma_merge_varint::<Bcast>(false, Bcast::blank(), 1, a, tail);
    wire::lemma_merge_varint::<Sess>(false, Sess::blank(), 2, a, tail);
}

} // verus!
