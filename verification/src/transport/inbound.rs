//! What inbound streams mean.

use vstd::prelude::*;

use crate::chunk;
use crate::engine::model::SessionId;
use crate::pb::bcast;
use crate::pb::bcast::{Bcast, BcastView, MessageView};
use crate::pb::chunk::{Header, HeaderView};
use crate::pb::rs;
use crate::pb::rs::ChunkIdent;
use crate::pb::sess;
use crate::pb::sess::{FrameView, Sess, SessView};
use crate::pb::wire as fields;
use crate::pb::wire::Message;
use crate::pb::WireError;
use crate::protocol::Protocol;
use crate::runtime;
use crate::runtime::{NetEvent, NetEventView, NetSendView};
use crate::selector;
use crate::strategy::PeerId;
use crate::table::Key;
use crate::transport::outbound;
use crate::wire;
use crate::wire::ReadError;

verus! {

/// Reasons for which a CHUNK stream is refused.
#[derive(Debug, Clone, Copy, PartialEq, Eq, Structural)]
pub enum ChunkIdError {
    /// The chunk identifier is not the encoding of one.
    Malformed(WireError),
    /// The index is negative.
    Negative { index: i32 },
}

/// The event that a BCAST frame means.
pub open spec fn bcast_meaning(peer: PeerId, frame: BcastView) -> Option<NetEventView> {
    match frame.message {
        Some(MessageView::PeerHandshake(h)) => Some(
            NetEventView::Handshake {
                peer,
                version: h.version,
                channels: h.channels,
                peer_id: h.peer_id,
            },
        ),
        Some(MessageView::ChannelSubscribe(s)) => Some(
            NetEventView::Subscribe { peer, channel: s.channel },
        ),
        Some(MessageView::ChannelUnsubscribe(u)) => Some(
            NetEventView::Unsubscribe { peer, channel: u.channel },
        ),
        None => None,
    }
}

/// The event that a SESS frame means. Routing updates mean none.
pub open spec fn sess_meaning(peer: PeerId, frame: SessView) -> Option<NetEventView> {
    match frame.frame {
        Some(FrameView::SessionOpen(o)) => Some(
            NetEventView::SessionOpen {
                peer,
                channel: o.channel,
                message_id: o.message_id,
                preamble: o.preamble,
                initial_update: o.initial_update,
            },
        ),
        _ => None,
    }
}

/// The event that a BCAST frame of `peer` means.
pub fn bcast_event(peer: PeerId, frame: Bcast) -> (r: Option<NetEvent>)
    ensures
        match r {
            Some(e) => bcast_meaning(peer, frame@) == Some(e@),
            None => bcast_meaning(peer, frame@) is None,
        },
{
    match frame.message {
        Some(bcast::Message::PeerHandshake(h)) => Some(
            NetEvent::Handshake {
                peer,
                version: h.version,
                channels: h.channels,
                peer_id: h.peer_id,
            },
        ),
        Some(bcast::Message::ChannelSubscribe(s)) => Some(
            NetEvent::Subscribe { peer, channel: s.channel },
        ),
        Some(bcast::Message::ChannelUnsubscribe(u)) => Some(
            NetEvent::Unsubscribe { peer, channel: u.channel },
        ),
        None => None,
    }
}

/// The event that a SESS frame of `peer` means.
pub fn sess_event(peer: PeerId, frame: Sess) -> (r: Option<NetEvent>)
    ensures
        match r {
            Some(e) => sess_meaning(peer, frame@) == Some(e@),
            None => sess_meaning(peer, frame@) is None,
        },
{
    match frame.frame {
        Some(sess::Frame::SessionOpen(o)) => Some(
            NetEvent::SessionOpen {
                peer,
                channel: o.channel,
                message_id: o.message_id,
                preamble: o.preamble,
                initial_update: o.initial_update,
            },
        ),
        _ => None,
    }
}

/// Whether a frame is a handshake under another identity than the pinned one.
pub open spec fn impostor(frame: BcastView, expected: Option<Seq<char>>) -> bool {
    match (expected, frame.message) {
        (Some(name), Some(MessageView::PeerHandshake(h))) => h.peer_id != name,
        _ => false,
    }
}

/// Peer-id pinning: whether a dialed peer whose handshake asserts a different
/// identity is to be rejected. The connection is closed then and the
/// handshake never surfaces.
pub fn is_impostor(frame: &Bcast, expected: &Option<String>) -> (r: bool)
    ensures
        r == impostor(frame@, name_of(*expected)),
{
    if let Some(name) = expected {
        if let Some(bcast::Message::PeerHandshake(h)) = &frame.message {
            return !h.peer_id.same(name);
        }
    }
    false
}

/// What an inbound stream of frames is about.
#[derive(Debug)]
enum Kind {
    Bcast,
    /// The session, once its open frame has come.
    Sess { key: Option<(String, String)> },
}

/// What to do after a frame.
#[derive(Debug)]
pub enum Action {
    /// The frame means nothing; read on.
    Continue,
    /// Hand the event to the engine and read on.
    Emit(NetEvent),
    /// The peer is not who it was expected to be: close the connection with
    /// the mismatch code and read no more.
    CloseConnection,
}

/// Contents of an [`Action`].
#[verifier::ext_equal]
pub ghost enum ActionView {
    Continue,
    Emit(NetEventView),
    CloseConnection,
}

impl View for Action {
    type V = ActionView;

    open spec fn view(&self) -> ActionView {
        match *self {
            Action::Continue => ActionView::Continue,
            Action::Emit(e) => ActionView::Emit(e@),
            Action::CloseConnection => ActionView::CloseConnection,
        }
    }
}

/// A BCAST or SESS stream of a peer, read frame by frame.
#[derive(Debug)]
pub struct InboundStream {
    peer: PeerId,
    expected: Option<String>,
    kind: Kind,
}

/// What an inbound stream of frames is about.
#[verifier::ext_equal]
pub ghost enum KindView {
    Bcast,
    Sess { key: Option<SessionId> },
}

/// State of an [`InboundStream`].
#[verifier::ext_equal]
pub ghost struct StreamView {
    pub peer: PeerId,
    /// The identity to which the peer is pinned.
    pub expected: Option<Seq<char>>,
    pub kind: KindView,
}

/// Contents of an optional name.
pub open spec fn name_of(name: Option<String>) -> Option<Seq<char>> {
    match name {
        Some(s) => Some(s@),
        None => None,
    }
}

impl View for InboundStream {
    type V = StreamView;

    closed spec fn view(&self) -> StreamView {
        StreamView {
            peer: self.peer,
            expected: name_of(self.expected),
            kind: match self.kind {
                Kind::Bcast => KindView::Bcast,
                Kind::Sess { key } => KindView::Sess {
                    key: match key {
                        Some(k) => Some(k@),
                        None => None,
                    },
                },
            },
        }
    }
}

impl StreamView {
    /// State and action after the body of a frame came.
    ///
    /// On a BCAST stream a handshake under another identity than the pinned
    /// one closes the connection and never surfaces. On a SESS stream the
    /// open frame tells which session the stream is about.
    pub open spec fn after_frame(self, body: Seq<u8>) -> (StreamView, Result<ActionView, ReadError>) {
        match self.kind {
            KindView::Bcast => match fields::merged::<Bcast>(Bcast::blank(), body) {
                Err(e) => (self, Err(ReadError::Malformed(e))),
                Ok(frame) => if impostor(frame, self.expected) {
                    (self, Ok(ActionView::CloseConnection))
                } else {
                    match bcast_meaning(self.peer, frame) {
                        Some(event) => (self, Ok(ActionView::Emit(event))),
                        None => (self, Ok(ActionView::Continue)),
                    }
                },
            },
            KindView::Sess { .. } => match fields::merged::<Sess>(Sess::blank(), body) {
                Err(e) => (self, Err(ReadError::Malformed(e))),
                Ok(frame) => match sess_meaning(self.peer, frame) {
                    Some(event) => (
                        StreamView {
                            kind: KindView::Sess {
                                key: Some(
                                    (
                                        event->SessionOpen_channel,
                                        event->SessionOpen_message_id,
                                    ),
                                ),
                            },
                            ..self
                        },
                        Ok(ActionView::Emit(event)),
                    ),
                    None => (self, Ok(ActionView::Continue)),
                },
            },
        }
    }
}

impl InboundStream {
    /// A BCAST stream of a peer, pinned to an expected identity or not.
    pub fn bcast(peer: PeerId, expected: Option<String>) -> (r: Self)
        ensures
            r@ == (StreamView { peer, expected: name_of(expected), kind: KindView::Bcast }),
    {
        InboundStream { peer, expected, kind: Kind::Bcast }
    }

    /// A SESS stream of a peer.
    pub fn sess(peer: PeerId) -> (r: Self)
        ensures
            r@ == (StreamView { peer, expected: None, kind: KindView::Sess { key: None } }),
    {
        InboundStream { peer, expected: None, kind: Kind::Sess { key: None } }
    }

    /// The session that a SESS stream is about, once that is known. The stream
    /// is stopped with the reconstructed code when the session is.
    pub fn session(&self) -> (r: Option<&(String, String)>)
        ensures
            match r {
                Some(k) => self@.kind == (KindView::Sess { key: Some(k@) }),
                None => self@.kind == KindView::Bcast || self@.kind == (KindView::Sess { key: None }),
            },
    {
        match &self.kind {
            Kind::Bcast => None,
            Kind::Sess { key } => match key {
                Some(k) => Some(k),
                None => None,
            },
        }
    }

    /// Takes the body of a frame and tells what to do.
    pub fn on_frame(&mut self, body: &[u8]) -> (r: Result<Action, ReadError>)
        ensures
            match r {
                Ok(a) => old(self)@.after_frame(body@) == (
                    final(self)@,
                    Ok::<ActionView, ReadError>(a@),
                ),
                Err(e) => old(self)@.after_frame(body@) == (
                    final(self)@,
                    Err::<ActionView, ReadError>(e),
                ),
            },
    {
        match &self.kind {
            Kind::Bcast => {
                let frame = match Bcast::decode(body) {
                    Ok(f) => f,
                    Err(e) => {
                        return Err(ReadError::Malformed(e));
                    },
                };
                if is_impostor(&frame, &self.expected) {
                    return Ok(Action::CloseConnection);
                }
                match bcast_event(self.peer, frame) {
                    Some(event) => Ok(Action::Emit(event)),
                    None => Ok(Action::Continue),
                }
            },
            Kind::Sess { .. } => {
                let frame = match Sess::decode(body) {
                    Ok(f) => f,
                    Err(e) => {
                        return Err(ReadError::Malformed(e));
                    },
                };
                match sess_event(self.peer, frame) {
                    Some(event) => {
                        if let NetEvent::SessionOpen { channel, message_id, .. } = &event {
                            self.kind = Kind::Sess { key: Some((channel.dup(), message_id.dup())) };
                        }
                        Ok(Action::Emit(event))
                    },
                    None => Ok(Action::Continue),
                }
            },
        }
    }
}

/// A pinned peer that introduces itself under another name is never surfaced:
/// the connection is closed instead. Under the pinned name, or unpinned, the
/// handshake surfaces.
pub proof fn law_pinned_identity_holds(v: StreamView, body: Seq<u8>, frame: BcastView)
    requires
        v.kind == KindView::Bcast,
        fields::merged::<Bcast>(Bcast::blank(), body) == Ok::<BcastView, WireError>(frame),
        frame.message matches Some(MessageView::PeerHandshake(_)),
    ensures
        ({
            let h = frame.message->Some_0->PeerHandshake_0;
            v.after_frame(body).1 == Ok::<ActionView, ReadError>(
                if v.expected is Some && v.expected != Some(h.peer_id) {
                    ActionView::CloseConnection
                } else {
                    ActionView::Emit(
                        NetEventView::Handshake {
                            peer: v.peer,
                            version: h.version,
                            channels: h.channels,
                            peer_id: h.peer_id,
                        },
                    )
                },
            )
        }),
{
}

/// The index in the header of a chunk.
pub open spec fn index_of(header: HeaderView) -> Result<u32, ChunkIdError> {
    match fields::merged::<ChunkIdent>(ChunkIdent::blank(), header.chunk_id) {
        Err(e) => Err(ChunkIdError::Malformed(e)),
        Ok(ident) => if ident.index < 0 {
            Err(ChunkIdError::Negative { index: ident.index })
        } else {
            Ok(ident.index as u32)
        },
    }
}

/// The index in the header of a chunk.
pub fn chunk_index(header: &Header) -> (r: Result<u32, ChunkIdError>)
    ensures
        r == index_of(header@),
{
    match ChunkIdent::decode(header.chunk_id.as_slice()) {
        Err(e) => Err(ChunkIdError::Malformed(e)),
        Ok(ident) => if ident.index < 0 {
            Err(ChunkIdError::Negative { index: ident.index })
        } else {
            Ok(ident.index as u32)
        },
    }
}

/// The event that a complete CHUNK stream of `peer` means.
pub fn chunk_event(peer: PeerId, header: Header, chunk_id: u32, payload: Vec<u8>) -> (r: NetEvent)
    ensures
        r@ == (NetEventView::Chunk {
            peer,
            channel: header@.channel,
            message_id: header@.message_id,
            chunk_id,
            payload: payload@,
        }),
{
    NetEvent::Chunk {
        peer,
        channel: header.channel,
        message_id: header.message_id,
        chunk_id,
        payload,
    }
}

/// A frame, or the end of the stream. A stream that ends, at a frame boundary
/// or within a frame, has no more frames.
pub fn frame_or_end<M>(read: Result<M, ReadError>) -> (r: Result<Option<M>, ReadError>)
    ensures
        r == (match read {
            Ok(m) => Ok::<Option<M>, ReadError>(Some(m)),
            Err(ReadError::UnexpectedEof) => Ok(None),
            Err(e) => Err(e),
        }),
{
    match read {
        Ok(m) => Ok(Some(m)),
        Err(ReadError::UnexpectedEof) => Ok(None),
        Err(e) => Err(e),
    }
}

/// What is written for a handshake, a subscription or its end reads, on a
/// fresh BCAST stream of `src`, as the event that the receiver of the message
/// is to see.
pub proof fn law_control_round_trip(src: PeerId, msg: NetSendView)
    requires
        outbound::control_frame(msg) is Some,
        outbound::control_frame(msg)->Some_0.fits(),
        outbound::planned(msg, false, false) is Ok,
    ensures
        ({
            let bytes = outbound::planned(msg, false, false)->Ok_0->Control_bytes;
            let frame = outbound::control_frame(msg)->Some_0;
            &&& selector::selected(bytes[0]) == Ok::<Protocol, ReadError>(Protocol::Bcast)
            &&& wire::framed_message::<Bcast>(bytes.skip(1)) == Ok::<(BcastView, Seq<u8>), ReadError>(
                (frame, Seq::empty()),
            )
            &&& bcast_meaning(src, frame) == Some(runtime::event_of(src, msg))
        }),
{
    let frame = outbound::control_frame(msg)->Some_0;
    let body = Bcast::encoding(frame);
    let bytes = outbound::planned(msg, false, false)->Ok_0->Control_bytes;
    assert(bytes == outbound::on_stream(true, Protocol::Bcast, body));
    assert(bytes.skip(1) =~= wire::frame(body) + Seq::<u8>::empty());
    wire::law_frame_round_trip(body, Seq::empty());
    bcast::law_bcast_round_trip(frame);
}

/// What is written to open a session reads, on a fresh SESS stream of `src`,
/// as the event that the receiver of the message is to see.
pub proof fn law_session_open_round_trip(src: PeerId, msg: NetSendView)
    requires
        msg is SessionOpen,
        outbound::session_frame(msg)->Some_0.fits(),
        outbound::planned(msg, false, false) is Ok,
    ensures
        ({
            let bytes = outbound::planned(msg, false, false)->Ok_0->OpenSession_bytes;
            let frame = outbound::session_frame(msg)->Some_0;
            &&& selector::selected(bytes[0]) == Ok::<Protocol, ReadError>(Protocol::Sess)
            &&& wire::framed_message::<Sess>(bytes.skip(1)) == Ok::<(SessView, Seq<u8>), ReadError>(
                (frame, Seq::empty()),
            )
            &&& sess_meaning(src, frame) == Some(runtime::event_of(src, msg))
        }),
{
    let frame = outbound::session_frame(msg)->Some_0;
    let body = Sess::encoding(frame);
    let bytes = outbound::planned(msg, false, false)->Ok_0->OpenSession_bytes;
    assert(bytes == outbound::on_stream(true, Protocol::Sess, body));
    assert(bytes.skip(1) =~= wire::frame(body) + Seq::<u8>::empty());
    wire::law_frame_round_trip(body, Seq::empty());
    sess::law_sess_round_trip(frame);
}

/// What is written for a chunk reads, on its CHUNK stream, as the chunk: its
/// names, its index if that fits, and its payload.
pub proof fn law_chunk_round_trip(
    peer: PeerId,
    channel: Seq<char>,
    message_id: Seq<char>,
    chunk_id: u32,
    payload: Seq<u8>,
    token: u64,
)
    requires
        chunk_id <= i32::MAX,
        vstd::utf8::encode_utf8(channel).len() <= u64::MAX,
        vstd::utf8::encode_utf8(message_id).len() <= u64::MAX,
        ({
            let msg = NetSendView::Chunk { peer, channel, message_id, chunk_id, payload, token };
            outbound::planned(msg, false, false)->Ok_0->Chunk_bytes is Some
        }),
    ensures
        ({
            let msg = NetSendView::Chunk { peer, channel, message_id, chunk_id, payload, token };
            let bytes = outbound::planned(msg, false, false)->Ok_0->Chunk_bytes->Some_0;
            let header = outbound::chunk_header(channel, message_id, chunk_id, payload.len());
            &&& selector::selected(bytes[0]) == Ok::<Protocol, ReadError>(Protocol::Chunk)
            &&& chunk::chunk_opened(bytes.skip(1)) == Ok::<(HeaderView, Seq<u8>), ReadError>(
                (header, payload),
            )
            &&& header.channel == channel && header.message_id == message_id
            &&& header.data_length == payload.len()
            &&& index_of(header) == Ok::<u32, ChunkIdError>(chunk_id)
        }),
{
    let header = outbound::chunk_header(channel, message_id, chunk_id, payload.len());
    let ident = ChunkIdent { index: chunk_id as i32 };
    rs::law_chunk_ident_round_trip(ident);
    fields::law_varint_round_trip(fields::extended(ident.index), Seq::empty());
    fields::law_varint_round_trip((8 + fields::VARINT) as u64, Seq::empty());
    assert(header.chunk_id.len() <= u64::MAX);
    chunk::law_chunk_stream_round_trip(header, payload, Seq::empty());
    let b = chunk::chunk_stream(header, payload);
    assert(b + Seq::<u8>::empty() =~= b);
    assert(payload + Seq::<u8>::empty() =~= payload);
}

/// A control message goes on the BCAST stream, behind the selector when the
/// stream is new and as the same frame without it when it is not. It is
/// refused exactly when its frame would hold more than a mebibyte.
pub proof fn law_control_stream_opens_once(msg: NetSendView, session_open: bool)
    requires
        outbound::control_frame(msg) is Some,
    ensures
        ({
            let first = outbound::planned(msg, false, session_open);
            let later = outbound::planned(msg, true, session_open);
            let size = Bcast::encoding(outbound::control_frame(msg)->Some_0).len();
            &&& first is Ok <==> size <= 1048576
            &&& later is Ok <==> size <= 1048576
            &&& first is Ok ==> {
                &&& first->Ok_0 is Control && later->Ok_0 is Control
                &&& first->Ok_0->Control_open && !later->Ok_0->Control_open
                &&& first->Ok_0->Control_bytes.skip(1) == later->Ok_0->Control_bytes
                &&& first->Ok_0->Control_bytes.len() == 5 + size
            }
            &&& first is Err ==> first == later
        }),
{
    let body = Bcast::encoding(outbound::control_frame(msg)->Some_0);
    assert(outbound::on_stream(true, Protocol::Bcast, body).skip(1) =~= wire::frame(body));
}

/// Opening a session takes a stream of its own, whatever is open. A routing
/// update goes on the stream of its session and reads back there as the
/// update; without that stream there is nothing to write it on. A session that
/// is reconstructed here is told to nobody in writing.
pub proof fn law_updates_need_session_stream(msg: NetSendView, ctrl_open: bool, session_open: bool)
    requires
        outbound::session_frame(msg) matches Some(f) ==> f.fits(),
    ensures
        ({
            let r = outbound::planned(msg, ctrl_open, session_open);
            let frame = outbound::session_frame(msg)->Some_0;
            let size = Sess::encoding(frame).len();
            &&& msg is SessionOpen ==> r == outbound::planned(msg, false, false) && (r is Ok <==> size
                <= 1048576)
            &&& msg is RoutingUpdate && !session_open ==> r == Ok::<
                outbound::OutboundView,
                wire::WriteError,
            >(outbound::OutboundView::NoSession)
            &&& msg is RoutingUpdate && session_open ==> {
                &&& r is Ok <==> size <= 1048576
                &&& r is Ok ==> r->Ok_0 is UpdateSession && wire::framed_message::<Sess>(
                    r->Ok_0->UpdateSession_bytes,
                ) == Ok::<(SessView, Seq<u8>), ReadError>((frame, Seq::empty()))
                &&& frame.frame matches Some(FrameView::RoutingUpdate(u)) && u.data
                    == msg->RoutingUpdate_payload
            }
            &&& msg is SessionReconstructed ==> r == Ok::<outbound::OutboundView, wire::WriteError>(
                outbound::OutboundView::Nothing,
            )
        }),
{
    if msg is RoutingUpdate {
        let frame = outbound::session_frame(msg)->Some_0;
        let body = Sess::encoding(frame);
        if body.len() <= 1048576 {
            wire::law_frame_round_trip(body, Seq::empty());
            assert(wire::frame(body) + Seq::<u8>::empty() =~= wire::frame(body));
            sess::law_sess_round_trip(frame);
        }
    }
}

/// A chunk is written with the length of its payload, unless that is more
/// than a mebibyte or its header is more than a frame holds.
pub proof fn law_chunk_is_written_whole(
    peer: PeerId,
    channel: Seq<char>,
    message_id: Seq<char>,
    chunk_id: u32,
    payload: Seq<u8>,
    token: u64,
    ctrl_open: bool,
    session_open: bool,
)
    ensures
        ({
            let msg = NetSendView::Chunk { peer, channel, message_id, chunk_id, payload, token };
            let header = outbound::chunk_header(channel, message_id, chunk_id, payload.len());
            let r = outbound::planned(msg, ctrl_open, session_open);
            let size = Header::encoding(header).len();
            &&& r is Ok && r->Ok_0 is Chunk
            &&& r->Ok_0->Chunk_bytes is Some <==> payload.len() <= 1048576 && size <= 1048576
            &&& r->Ok_0->Chunk_bytes matches Some(b) ==> {
                &&& b.len() == 5 + size + payload.len()
                &&& b.skip(5 + size as int) == payload
            }
        }),
{
    let header = outbound::chunk_header(channel, message_id, chunk_id, payload.len());
    let size = Header::encoding(header).len();
    let b = chunk::chunk_stream(header, payload);
    assert(b.skip(5 + size as int) =~= payload);
}

/// A SESS stream is about the session that its open frame names, which it
/// surfaces; routing updates on it surface nothing and leave that as it is.
/// What is no frame is an error, after which the stream is as it was.
pub proof fn law_session_stream_learns_its_session(v: StreamView, frame: SessView)
    requires
        v.kind is Sess,
        frame.fits(),
    ensures
        ({
            let (after, r) = v.after_frame(Sess::encoding(frame));
            &&& after.peer == v.peer && after.expected == v.expected
            &&& frame.frame matches Some(FrameView::SessionOpen(o)) ==> {
                &&& after.kind == (KindView::Sess { key: Some((o.channel, o.message_id)) })
                &&& r == Ok::<ActionView, ReadError>(
                    ActionView::Emit(
                        NetEventView::SessionOpen {
                            peer: v.peer,
                            channel: o.channel,
                            message_id: o.message_id,
                            preamble: o.preamble,
                            initial_update: o.initial_update,
                        },
                    ),
                )
            }
            &&& !(frame.frame matches Some(FrameView::SessionOpen(_))) ==> after == v && r == Ok::<
                ActionView,
                ReadError,
            >(ActionView::Continue)
        }),
{
    sess::law_sess_round_trip(frame);
}

/// A frame that cannot be parsed is an error and leaves a stream as it was; a
/// BCAST stream stays as it was whatever comes.
pub proof fn law_malformed_frame_changes_nothing(v: StreamView, body: Seq<u8>)
    ensures
        v.after_frame(body).1 is Err ==> v.after_frame(body).0 == v,
        v.kind is Bcast ==> v.after_frame(body).0 == v,
        v.kind is Bcast ==> (v.after_frame(body).1 is Err <==> fields::merged::<Bcast>(
            Bcast::blank(),
            body,
        ) is Err),
        v.kind is Sess ==> (v.after_frame(body).1 is Err <==> fields::merged::<Sess>(
            Sess::blank(),
            body,
        ) is Err),
{
}

/// Subscriptions and their ends surface on a BCAST stream as what they say of
/// the peer whose stream it is, pinned or not.
pub proof fn law_subscriptions_surface(v: StreamView, frame: BcastView)
    requires
        v.kind is Bcast,
        frame.fits(),
    ensures
        ({
            let r = v.after_frame(Bcast::encoding(frame)).1;
            &&& frame.message matches Some(MessageView::ChannelSubscribe(s)) ==> r == Ok::<
                ActionView,
                ReadError,
            >(ActionView::Emit(NetEventView::Subscribe { peer: v.peer, channel: s.channel }))
            &&& frame.message matches Some(MessageView::ChannelUnsubscribe(s)) ==> r == Ok::<
                ActionView,
                ReadError,
            >(ActionView::Emit(NetEventView::Unsubscribe { peer: v.peer, channel: s.channel }))
            &&& frame.message is None ==> r == Ok::<ActionView, ReadError>(ActionView::Continue)
        }),
{
    bcast::law_bcast_round_trip(frame);
}

/// The index of a chunk is what its identifier says, unless that is negative.
pub proof fn law_negative_index_is_refused(header: HeaderView, index: i32)
    requires
        header.chunk_id == ChunkIdent::encoding(ChunkIdent { index }),
    ensures
        index < 0 ==> index_of(header) == Err::<u32, ChunkIdError>(ChunkIdError::Negative { index }),
        index >= 0 ==> index_of(header) == Ok::<u32, ChunkIdError>(index as u32),
{
    rs::law_chunk_ident_round_trip(ChunkIdent { index });
}

/// The report on a chunk names it and says how it went; on other messages
/// there is none.
pub proof fn law_report_names_its_chunk(msg: NetSendView, ok: bool)
    ensures
        outbound::report(msg, ok) is Some <==> msg is Chunk,
        msg is Chunk ==> outbound::report(msg, ok) == Some(
            NetEventView::ChunkSendResult {
                peer: msg->Chunk_peer,
                channel: msg->Chunk_channel,
                message_id: msg->Chunk_message_id,
                token: msg->Chunk_token,
                ok,
            },
        ),
{
}

} // verus!
