//! The bytes of outbound messages and the streams they go on.

use vstd::prelude::*;

use crate::chunk;
use crate::order;
use crate::pb::bcast;
use crate::pb::bcast::{Bcast, BcastView, HandshakeView, MessageView, SubscribeView, UnsubscribeView};
use crate::pb::chunk::{Header, HeaderView};
use crate::pb::rs::ChunkIdent;
use crate::pb::sess;
use crate::pb::sess::{FrameView, OpenView, Sess, SessView, UpdateView};
use crate::pb::wire::Message;
use crate::pb;
use crate::protocol;
use crate::protocol::Protocol;
use crate::runtime::memory_net;
use crate::runtime::{NetEvent, NetEventView, NetSend, NetSendView};
use crate::selector;
use crate::strategy::PeerId;
use crate::table::Key;
use crate::transport::config::ERR_RECONSTRUCTED;
use crate::wire;
use crate::wire::{WriteError, MAX_FRAME_BYTES};

verus! {

/// What to write for a message.
#[derive(Debug)]
pub enum Outbound {
    /// Write `bytes` on the BCAST stream, which is new when `open` is set.
    Control { open: bool, bytes: Vec<u8> },
    /// Write `bytes` on a new stream, keep it for updates, and watch it for
    /// the receiver's stop.
    OpenSession { bytes: Vec<u8> },
    /// Write `bytes` on the stream of the session.
    UpdateSession { bytes: Vec<u8> },
    /// A routing update without a stream to write it on.
    NoSession,
    /// Write `bytes` on a new stream and finish it. Without bytes the chunk
    /// cannot be written, which is a failure to report.
    Chunk { bytes: Option<Vec<u8>> },
    /// Nothing goes out.
    Nothing,
}

/// Contents of an [`Outbound`].
#[verifier::ext_equal]
pub ghost enum OutboundView {
    Control { open: bool, bytes: Seq<u8> },
    OpenSession { bytes: Seq<u8> },
    UpdateSession { bytes: Seq<u8> },
    NoSession,
    Chunk { bytes: Option<Seq<u8>> },
    Nothing,
}

impl View for Outbound {
    type V = OutboundView;

    open spec fn view(&self) -> OutboundView {
        match *self {
            Outbound::Control { open, bytes } => OutboundView::Control { open, bytes: bytes@ },
            Outbound::OpenSession { bytes } => OutboundView::OpenSession { bytes: bytes@ },
            Outbound::UpdateSession { bytes } => OutboundView::UpdateSession { bytes: bytes@ },
            Outbound::NoSession => OutboundView::NoSession,
            Outbound::Chunk { bytes } => OutboundView::Chunk {
                bytes: match bytes {
                    Some(b) => Some(b@),
                    None => None,
                },
            },
            Outbound::Nothing => OutboundView::Nothing,
        }
    }
}

/// The BCAST frame of a message.
pub open spec fn control_frame(msg: NetSendView) -> Option<BcastView> {
    match msg {
        NetSendView::Handshake { version, channels, peer_id, .. } => Some(
            BcastView {
                message: Some(
                    MessageView::PeerHandshake(HandshakeView { version, channels, peer_id }),
                ),
            },
        ),
        NetSendView::Subscribe { channel, .. } => Some(
            BcastView { message: Some(MessageView::ChannelSubscribe(SubscribeView { channel })) },
        ),
        NetSendView::Unsubscribe { channel, .. } => Some(
            BcastView { message: Some(MessageView::ChannelUnsubscribe(UnsubscribeView { channel })) },
        ),
        _ => None,
    }
}

/// The SESS frame of a message.
pub open spec fn session_frame(msg: NetSendView) -> Option<SessView> {
    match msg {
        NetSendView::SessionOpen { channel, message_id, preamble, initial_update, .. } => Some(
            SessView {
                frame: Some(
                    FrameView::SessionOpen(
                        OpenView { channel, message_id, preamble, initial_update },
                    ),
                ),
            },
        ),
        NetSendView::RoutingUpdate { payload, .. } => Some(
            SessView { frame: Some(FrameView::RoutingUpdate(UpdateView { data: payload })) },
        ),
        _ => None,
    }
}

/// The header of a chunk. An index or a length that does not fit is the
/// largest that does.
pub open spec fn chunk_header(
    channel: Seq<char>,
    message_id: Seq<char>,
    chunk_id: u32,
    len: nat,
) -> HeaderView {
    HeaderView {
        channel,
        message_id,
        chunk_id: ChunkIdent::encoding(
            ChunkIdent {
                index: if chunk_id <= i32::MAX {
                    chunk_id as i32
                } else {
                    i32::MAX
                },
            },
        ),
        data_length: if len <= u32::MAX {
            len as u32
        } else {
            u32::MAX
        },
    }
}

/// A frame, behind the selector of its stream when that is new.
pub open spec fn on_stream(open: bool, p: Protocol, body: Seq<u8>) -> Seq<u8> {
    if open {
        seq![protocol::number_of(p)] + wire::frame(body)
    } else {
        wire::frame(body)
    }
}

/// The refusal of a frame that is too large.
pub open spec fn too_large(body: Seq<u8>) -> WriteError {
    WriteError::FrameTooLarge { len: body.len() as usize }
}

/// What to write for a message when the BCAST stream, and the stream of the
/// message's session, are open or not.
pub open spec fn planned(msg: NetSendView, ctrl_open: bool, session_open: bool) -> Result<
    OutboundView,
    WriteError,
> {
    match msg {
        NetSendView::Handshake { .. }
        | NetSendView::Subscribe { .. }
        | NetSendView::Unsubscribe { .. } => {
            let body = Bcast::encoding(control_frame(msg)->Some_0);
            if body.len() > MAX_FRAME_BYTES {
                Err(too_large(body))
            } else {
                Ok(
                    OutboundView::Control {
                        open: !ctrl_open,
                        bytes: on_stream(!ctrl_open, Protocol::Bcast, body),
                    },
                )
            }
        },
        NetSendView::SessionOpen { .. } => {
            let body = Sess::encoding(session_frame(msg)->Some_0);
            if body.len() > MAX_FRAME_BYTES {
                Err(too_large(body))
            } else {
                Ok(OutboundView::OpenSession { bytes: on_stream(true, Protocol::Sess, body) })
            }
        },
        NetSendView::RoutingUpdate { .. } => {
            let body = Sess::encoding(session_frame(msg)->Some_0);
            if !session_open {
                Ok(OutboundView::NoSession)
            } else if body.len() > MAX_FRAME_BYTES {
                Err(too_large(body))
            } else {
                Ok(OutboundView::UpdateSession { bytes: wire::frame(body) })
            }
        },
        NetSendView::Chunk { channel, message_id, chunk_id, payload, .. } => {
            let header = chunk_header(channel, message_id, chunk_id, payload.len());
            Ok(
                OutboundView::Chunk {
                    bytes: if chunk::write_fault(header, payload.len()) is None {
                        Some(chunk::chunk_stream(header, payload))
                    } else {
                        None
                    },
                },
            )
        },
        NetSendView::SessionReconstructed { .. } => Ok(OutboundView::Nothing),
    }
}

/// A copy of a list of names.
fn copy_names(v: &Vec<String>) -> (r: Vec<String>)
    ensures
        order::spelled(r@) == order::spelled(v@),
{
    let mut out: Vec<String> = Vec::new();
    let mut i: usize = 0;
    while i < v.len()
        invariant
            i <= v@.len(),
            out@.len() == i,
            forall|k: int| 0 <= k < i ==> (#[trigger] out@[k])@ == v@[k]@,
        decreases v@.len() - i,
    {
        out.push(v[i].dup());
        i = i + 1;
    }
    assert(order::spelled(out@) =~= order::spelled(v@));
    out
}

/// Writes a BCAST frame.
fn control(frame: Bcast, ctrl_open: bool) -> (r: Result<Outbound, WriteError>)
    ensures
        ({
            let body = Bcast::encoding(frame@);
            match r {
                Ok(o) => body.len() <= MAX_FRAME_BYTES && o@ == (OutboundView::Control {
                    open: !ctrl_open,
                    bytes: on_stream(!ctrl_open, Protocol::Bcast, body),
                }),
                Err(e) => body.len() > MAX_FRAME_BYTES && e == too_large(body),
            }
        }),
{
    let mut bytes: Vec<u8> = Vec::new();
    if !ctrl_open {
        selector::open_stream(&mut bytes, Protocol::Bcast);
    }
    match wire::write_framed(&mut bytes, &frame) {
        Ok(()) => {
            assert(bytes@ =~= on_stream(!ctrl_open, Protocol::Bcast, Bcast::encoding(frame@)));
            Ok(Outbound::Control { open: !ctrl_open, bytes })
        },
        Err(e) => Err(e),
    }
}

/// Decides what to write for a message when the BCAST stream, and the stream
/// of the message's session, are open or not.
///
/// A chunk failure must not disturb the peer's other streams; it is
/// reported, never an error here.
pub fn plan(msg: &NetSend, ctrl_open: bool, session_open: bool) -> (r: Result<Outbound, WriteError>)
    ensures
        match r {
            Ok(o) => planned(msg@, ctrl_open, session_open) == Ok::<OutboundView, WriteError>(o@),
            Err(e) => planned(msg@, ctrl_open, session_open) == Err::<OutboundView, WriteError>(e),
        },
{
    match msg {
        NetSend::Handshake { version, channels, peer_id, .. } => {
            let frame = Bcast {
                message: Some(
                    bcast::Message::PeerHandshake(
                        bcast::Handshake {
                            version: *version,
                            channels: copy_names(channels),
                            peer_id: peer_id.dup(),
                        },
                    ),
                ),
            };
            assert(Some(frame@) == control_frame(msg@));
            control(frame, ctrl_open)
        },
        NetSend::Subscribe { channel, .. } => {
            let frame = Bcast {
                message: Some(
                    bcast::Message::ChannelSubscribe(bcast::Subscribe { channel: channel.dup() }),
                ),
            };
            assert(Some(frame@) == control_frame(msg@));
            control(frame, ctrl_open)
        },
        NetSend::Unsubscribe { channel, .. } => {
            let frame = Bcast {
                message: Some(
                    bcast::Message::ChannelUnsubscribe(
                        bcast::Unsubscribe { channel: channel.dup() },
                    ),
                ),
            };
            assert(Some(frame@) == control_frame(msg@));
            control(frame, ctrl_open)
        },
        NetSend::SessionOpen { channel, message_id, preamble, initial_update, .. } => {
            let frame = Sess {
                frame: Some(
                    sess::Frame::SessionOpen(
                        sess::Open {
                            channel: channel.dup(),
                            message_id: message_id.dup(),
                            preamble: pb::copy_bytes(preamble.as_slice()),
                            initial_update: pb::copy_bytes(initial_update.as_slice()),
                        },
                    ),
                ),
            };
            assert(Some(frame@) == session_frame(msg@));
            let mut bytes: Vec<u8> = Vec::new();
            selector::open_stream(&mut bytes, Protocol::Sess);
            match wire::write_framed(&mut bytes, &frame) {
                Ok(()) => {
                    assert(bytes@ =~= on_stream(true, Protocol::Sess, Sess::encoding(frame@)));
                    Ok(Outbound::OpenSession { bytes })
                },
                Err(e) => Err(e),
            }
        },
        NetSend::RoutingUpdate { payload, .. } => {
            if !session_open {
                return Ok(Outbound::NoSession);
            }
            let frame = Sess {
                frame: Some(
                    sess::Frame::RoutingUpdate(
                        sess::Update { data: pb::copy_bytes(payload.as_slice()) },
                    ),
                ),
            };
            assert(Some(frame@) == session_frame(msg@));
            let mut bytes: Vec<u8> = Vec::new();
            match wire::write_framed(&mut bytes, &frame) {
                Ok(()) => {
                    assert(bytes@ =~= wire::frame(Sess::encoding(frame@)));
                    Ok(Outbound::UpdateSession { bytes })
                },
                Err(e) => Err(e),
            }
        },
        NetSend::Chunk { channel, message_id, chunk_id, payload, .. } => {
            let index: i32 = if *chunk_id <= 0x7fff_ffff {
                *chunk_id as i32
            } else {
                i32::MAX
            };
            let data_length: u32 = if payload.len() as u64 <= u32::MAX as u64 {
                payload.len() as u32
            } else {
                u32::MAX
            };
            let ident = ChunkIdent { index };
            let header = Header {
                channel: channel.dup(),
                message_id: message_id.dup(),
                chunk_id: ident.encode_to_vec(),
                data_length,
            };
            assert(header@ =~= chunk_header(channel@, message_id@, *chunk_id, payload@.len()));
            let mut bytes: Vec<u8> = Vec::new();
            match chunk::write_chunk(&mut bytes, &header, payload.as_slice()) {
                Ok(()) => {
                    assert(bytes@ =~= chunk::chunk_stream(header@, payload@));
                    Ok(Outbound::Chunk { bytes: Some(bytes) })
                },
                Err(_) => Ok(Outbound::Chunk { bytes: None }),
            }
        },
        NetSend::SessionReconstructed { .. } => Ok(Outbound::Nothing),
    }
}

/// The report on a chunk.
pub open spec fn report(msg: NetSendView, ok: bool) -> Option<NetEventView> {
    match msg {
        NetSendView::Chunk { peer, channel, message_id, token, .. } => Some(
            NetEventView::ChunkSendResult { peer, channel, message_id, token, ok },
        ),
        _ => None,
    }
}

/// The report on a chunk: whether it was written. Other messages have none.
pub fn chunk_report(msg: &NetSend, ok: bool) -> (r: Option<NetEvent>)
    ensures
        match r {
            Some(e) => report(msg@, ok) == Some(e@),
            None => report(msg@, ok) is None,
        },
{
    match msg {
        NetSend::Chunk { peer, channel, message_id, token, .. } => Some(
            NetEvent::ChunkSendResult {
                peer: *peer,
                channel: memory_net::same_text(channel),
                message_id: memory_net::same_text(message_id),
                token: *token,
                ok,
            },
        ),
        _ => None,
    }
}

/// What the receiver's stop of a SESS stream means: with the reconstructed
/// code it reconstructed the message, with any other it left the session.
pub fn stop_event(peer: PeerId, channel: String, message_id: String, code: u64) -> (r: NetEvent)
    ensures
        r@ == (if code == ERR_RECONSTRUCTED {
            NetEventView::PeerReconstructed { peer, channel: channel@, message_id: message_id@ }
        } else {
            NetEventView::SessionClosed { peer, channel: channel@, message_id: message_id@ }
        }),
{
    if code == ERR_RECONSTRUCTED as u64 {
        NetEvent::PeerReconstructed { peer, channel, message_id }
    } else {
        NetEvent::SessionClosed { peer, channel, message_id }
    }
}

} // verus!
