//! Network abstraction: what the engine sends, what it receives, and the
//! transport in between.

use vstd::prelude::*;

use crate::order;
use crate::strategy::PeerId;

pub mod memory_laws;
pub mod memory_net;

verus! {

/// Outbound message to send via [`Net::send`]. The variants mirror the
/// [`NetEvent`] receive side.
#[derive(Debug, Clone, PartialEq, Eq)]
pub enum NetSend {
    /// `Bcast.Handshake` frame.
    Handshake { peer: PeerId, version: u32, channels: Vec<String>, peer_id: String },
    /// `Bcast.Subscribe` frame.
    Subscribe { peer: PeerId, channel: String },
    /// `Bcast.Unsubscribe` frame.
    Unsubscribe { peer: PeerId, channel: String },
    /// `Sess.Open` frame: open a session with this peer.
    SessionOpen {
        peer: PeerId,
        channel: String,
        message_id: String,
        preamble: Vec<u8>,
        initial_update: Vec<u8>,
    },
    /// `Sess.Update` frame: routing-update bytes.
    RoutingUpdate { peer: PeerId, channel: String, message_id: String, payload: Vec<u8> },
    /// `Chunk` stream: a single chunk header + payload.
    Chunk {
        peer: PeerId,
        channel: String,
        message_id: String,
        chunk_id: u32,
        payload: Vec<u8>,
        /// Opaque correlation token echoed back verbatim in
        /// [`NetEvent::ChunkSendResult`]. The engine passes the session
        /// dispatch handle so it can resolve the honest send outcome back
        /// to the right in-flight allocation.
        token: u64,
    },
    /// Local command (no peer): this node reconstructed
    /// `(channel, message_id)`. The transport resets all *inbound* SESS
    /// streams for that session with the reconstructed application error
    /// code, telling every upstream sender we are done. Peers
    /// observe the reset as [`NetEvent::PeerReconstructed`].
    SessionReconstructed { channel: String, message_id: String },
}

/// Inbound event. The `peer` field denotes the
/// sender from this endpoint's point of view.
#[derive(Debug, Clone, PartialEq, Eq)]
pub enum NetEvent {
    Handshake { peer: PeerId, version: u32, channels: Vec<String>, peer_id: String },
    Subscribe { peer: PeerId, channel: String },
    Unsubscribe { peer: PeerId, channel: String },
    SessionOpen {
        peer: PeerId,
        channel: String,
        message_id: String,
        preamble: Vec<u8>,
        initial_update: Vec<u8>,
    },
    RoutingUpdate { peer: PeerId, channel: String, message_id: String, payload: Vec<u8> },
    Chunk { peer: PeerId, channel: String, message_id: String, chunk_id: u32, payload: Vec<u8> },
    /// Peer disconnected. The engine treats this as a hard
    /// disconnect: detach all sessions, clear in-flight state.
    PeerDisconnected { peer: PeerId },
    /// A connection to `peer` is established (dialed or accepted). The
    /// engine responds by sending its `Handshake`. Memory/sim nets never
    /// emit this; they drive [`crate::engine::Engine::connect`] directly.
    PeerConnected { peer: PeerId },
    /// Honest outcome of a [`NetSend::Chunk`] reaching (or failing to
    /// reach) the wire. `token` echoes the value from the send; `ok` is
    /// false on write error, stream reset, disconnect, or backpressure.
    /// The engine resolves it to the session's in-flight allocation and
    /// re-drains.
    ChunkSendResult { peer: PeerId, channel: String, message_id: String, token: u64, ok: bool },
    /// A peer reset its outbound SESS stream to us with the reconstructed
    /// code: it has reconstructed `(channel, message_id)`. The
    /// engine detaches it from the session as completed, freeing the budget
    /// of any further sends planned to it.
    PeerReconstructed { peer: PeerId, channel: String, message_id: String },
    /// A peer closed its SESS stream to us (plain FIN, or a reset with a
    /// code other than the reconstructed one): it departed the session
    /// without completing. The engine detaches it as not completed.
    SessionClosed { peer: PeerId, channel: String, message_id: String },
}

/// Errors returned by [`Net::send`].
#[derive(Debug, Clone, Copy, PartialEq, Eq, Structural)]
pub enum NetError {
    /// The destination peer is not registered with this transport.
    PeerNotFound(PeerId),
    /// The transport has been shut down.
    Closed,
    /// The peer's outbound queue is full. The caller treats the send as
    /// failed; for chunks the engine refunds the allocation and re-plans.
    Backpressure(PeerId),
}

/// Contents of a [`NetSend`].
#[verifier::ext_equal]
pub ghost enum NetSendView {
    Handshake { peer: PeerId, version: u32, channels: Seq<Seq<char>>, peer_id: Seq<char> },
    Subscribe { peer: PeerId, channel: Seq<char> },
    Unsubscribe { peer: PeerId, channel: Seq<char> },
    SessionOpen {
        peer: PeerId,
        channel: Seq<char>,
        message_id: Seq<char>,
        preamble: Seq<u8>,
        initial_update: Seq<u8>,
    },
    RoutingUpdate { peer: PeerId, channel: Seq<char>, message_id: Seq<char>, payload: Seq<u8> },
    Chunk {
        peer: PeerId,
        channel: Seq<char>,
        message_id: Seq<char>,
        chunk_id: u32,
        payload: Seq<u8>,
        token: u64,
    },
    SessionReconstructed { channel: Seq<char>, message_id: Seq<char> },
}

impl View for NetSend {
    type V = NetSendView;

    open spec fn view(&self) -> NetSendView {
        match *self {
            NetSend::Handshake { peer, version, channels, peer_id } => NetSendView::Handshake {
                peer,
                version,
                channels: order::spelled(channels@),
                peer_id: peer_id@,
            },
            NetSend::Subscribe { peer, channel } => NetSendView::Subscribe { peer, channel: channel@ },
            NetSend::Unsubscribe { peer, channel } => NetSendView::Unsubscribe {
                peer,
                channel: channel@,
            },
            NetSend::SessionOpen { peer, channel, message_id, preamble, initial_update } => {
                NetSendView::SessionOpen {
                    peer,
                    channel: channel@,
                    message_id: message_id@,
                    preamble: preamble@,
                    initial_update: initial_update@,
                }
            },
            NetSend::RoutingUpdate { peer, channel, message_id, payload } => {
                NetSendView::RoutingUpdate {
                    peer,
                    channel: channel@,
                    message_id: message_id@,
                    payload: payload@,
                }
            },
            NetSend::Chunk { peer, channel, message_id, chunk_id, payload, token } => {
                NetSendView::Chunk {
                    peer,
                    channel: channel@,
                    message_id: message_id@,
                    chunk_id,
                    payload: payload@,
                    token,
                }
            },
            NetSend::SessionReconstructed { channel, message_id } => {
                NetSendView::SessionReconstructed { channel: channel@, message_id: message_id@ }
            },
        }
    }
}

/// Contents of a [`NetEvent`].
#[verifier::ext_equal]
pub ghost enum NetEventView {
    Handshake { peer: PeerId, version: u32, channels: Seq<Seq<char>>, peer_id: Seq<char> },
    Subscribe { peer: PeerId, channel: Seq<char> },
    Unsubscribe { peer: PeerId, channel: Seq<char> },
    SessionOpen {
        peer: PeerId,
        channel: Seq<char>,
        message_id: Seq<char>,
        preamble: Seq<u8>,
        initial_update: Seq<u8>,
    },
    RoutingUpdate { peer: PeerId, channel: Seq<char>, message_id: Seq<char>, payload: Seq<u8> },
    Chunk {
        peer: PeerId,
        channel: Seq<char>,
        message_id: Seq<char>,
        chunk_id: u32,
        payload: Seq<u8>,
    },
    PeerDisconnected { peer: PeerId },
    PeerConnected { peer: PeerId },
    ChunkSendResult {
        peer: PeerId,
        channel: Seq<char>,
        message_id: Seq<char>,
        token: u64,
        ok: bool,
    },
    PeerReconstructed { peer: PeerId, channel: Seq<char>, message_id: Seq<char> },
    SessionClosed { peer: PeerId, channel: Seq<char>, message_id: Seq<char> },
}

impl View for NetEvent {
    type V = NetEventView;

    open spec fn view(&self) -> NetEventView {
        match *self {
            NetEvent::Handshake { peer, version, channels, peer_id } => NetEventView::Handshake {
                peer,
                version,
                channels: order::spelled(channels@),
                peer_id: peer_id@,
            },
            NetEvent::Subscribe { peer, channel } => NetEventView::Subscribe {
                peer,
                channel: channel@,
            },
            NetEvent::Unsubscribe { peer, channel } => NetEventView::Unsubscribe {
                peer,
                channel: channel@,
            },
            NetEvent::SessionOpen { peer, channel, message_id, preamble, initial_update } => {
                NetEventView::SessionOpen {
                    peer,
                    channel: channel@,
                    message_id: message_id@,
                    preamble: preamble@,
                    initial_update: initial_update@,
                }
            },
            NetEvent::RoutingUpdate { peer, channel, message_id, payload } => {
                NetEventView::RoutingUpdate {
                    peer,
                    channel: channel@,
                    message_id: message_id@,
                    payload: payload@,
                }
            },
            NetEvent::Chunk { peer, channel, message_id, chunk_id, payload } => NetEventView::Chunk {
                peer,
                channel: channel@,
                message_id: message_id@,
                chunk_id,
                payload: payload@,
            },
            NetEvent::PeerDisconnected { peer } => NetEventView::PeerDisconnected { peer },
            NetEvent::PeerConnected { peer } => NetEventView::PeerConnected { peer },
            NetEvent::ChunkSendResult { peer, channel, message_id, token, ok } => {
                NetEventView::ChunkSendResult {
                    peer,
                    channel: channel@,
                    message_id: message_id@,
                    token,
                    ok,
                }
            },
            NetEvent::PeerReconstructed { peer, channel, message_id } => {
                NetEventView::PeerReconstructed { peer, channel: channel@, message_id: message_id@ }
            },
            NetEvent::SessionClosed { peer, channel, message_id } => NetEventView::SessionClosed {
                peer,
                channel: channel@,
                message_id: message_id@,
            },
        }
    }
}

/// Contents of a list of events.
pub open spec fn events_of(v: Seq<NetEvent>) -> Seq<NetEventView> {
    v.map_values(|e: NetEvent| e@)
}

/// Destination peer of an outbound message; a local command has none.
pub open spec fn destination_of(msg: NetSendView) -> Option<PeerId> {
    match msg {
        NetSendView::Handshake { peer, .. } => Some(peer),
        NetSendView::Subscribe { peer, .. } => Some(peer),
        NetSendView::Unsubscribe { peer, .. } => Some(peer),
        NetSendView::SessionOpen { peer, .. } => Some(peer),
        NetSendView::RoutingUpdate { peer, .. } => Some(peer),
        NetSendView::Chunk { peer, .. } => Some(peer),
        NetSendView::SessionReconstructed { .. } => None,
    }
}

/// The event that receivers of an outbound message of `src` see.
pub open spec fn event_of(src: PeerId, msg: NetSendView) -> NetEventView {
    match msg {
        NetSendView::Handshake { version, channels, peer_id, .. } => NetEventView::Handshake {
            peer: src,
            version,
            channels,
            peer_id,
        },
        NetSendView::Subscribe { channel, .. } => NetEventView::Subscribe { peer: src, channel },
        NetSendView::Unsubscribe { channel, .. } => NetEventView::Unsubscribe { peer: src, channel },
        NetSendView::SessionOpen { channel, message_id, preamble, initial_update, .. } => {
            NetEventView::SessionOpen { peer: src, channel, message_id, preamble, initial_update }
        },
        NetSendView::RoutingUpdate { channel, message_id, payload, .. } => {
            NetEventView::RoutingUpdate { peer: src, channel, message_id, payload }
        },
        NetSendView::Chunk { channel, message_id, chunk_id, payload, .. } => NetEventView::Chunk {
            peer: src,
            channel,
            message_id,
            chunk_id,
            payload,
        },
        NetSendView::SessionReconstructed { channel, message_id } => {
            NetEventView::PeerReconstructed { peer: src, channel, message_id }
        },
    }
}

/// Destination peer of an outbound message; a local command has none.
pub fn destination(msg: &NetSend) -> (r: Option<PeerId>)
    ensures
        r == destination_of(msg@),
{
    match msg {
        NetSend::Handshake { peer, .. } => Some(*peer),
        NetSend::Subscribe { peer, .. } => Some(*peer),
        NetSend::Unsubscribe { peer, .. } => Some(*peer),
        NetSend::SessionOpen { peer, .. } => Some(*peer),
        NetSend::RoutingUpdate { peer, .. } => Some(*peer),
        NetSend::Chunk { peer, .. } => Some(*peer),
        NetSend::SessionReconstructed { .. } => None,
    }
}

/// Map an outbound message to the inbound event the destination sees.
/// `src` is the sending endpoint; the event's `peer` field denotes the
/// sender from the destination's point of view.
pub fn into_event(src: PeerId, msg: NetSend) -> (r: NetEvent)
    ensures
        r@ == event_of(src, msg@),
{
    match msg {
        NetSend::Handshake { version, channels, peer_id, .. } => NetEvent::Handshake {
            peer: src,
            version,
            channels,
            peer_id,
        },
        NetSend::Subscribe { channel, .. } => NetEvent::Subscribe { peer: src, channel },
        NetSend::Unsubscribe { channel, .. } => NetEvent::Unsubscribe { peer: src, channel },
        NetSend::SessionOpen { channel, message_id, preamble, initial_update, .. } => {
            NetEvent::SessionOpen { peer: src, channel, message_id, preamble, initial_update }
        },
        NetSend::RoutingUpdate { channel, message_id, payload, .. } => NetEvent::RoutingUpdate {
            peer: src,
            channel,
            message_id,
            payload,
        },
        NetSend::Chunk { channel, message_id, chunk_id, payload, .. } => NetEvent::Chunk {
            peer: src,
            channel,
            message_id,
            chunk_id,
            payload,
        },
        NetSend::SessionReconstructed { channel, message_id } => NetEvent::PeerReconstructed {
            peer: src,
            channel,
            message_id,
        },
    }
}

/// Network transport abstraction.
///
/// `send` returns immediately after queueing the
/// message; the implementation owns whatever work is required to actually
/// emit it on the wire.
pub trait Net: Sized {
    /// State of the transport, with all that its answers depend on.
    type Model;

    spec fn model(&self) -> Self::Model;

    /// State and answer after a message is submitted.
    spec fn sent(m: Self::Model, msg: NetSendView) -> (Self::Model, Result<(), NetError>);

    /// Submit an outbound message. Errors are infrastructure-level:
    /// peer not registered, transport closed, etc.
    fn send(&mut self, msg: NetSend) -> (r: Result<(), NetError>)
        ensures
            (final(self).model(), r) == Self::sent(old(self).model(), msg@),
    ;
}

/// A message goes to the peer that it names, which sees it as coming from its
/// sender, with the same contents. Only the notice of a reconstructed session
/// names no peer.
pub proof fn law_event_mirrors_message(src: PeerId, msg: NetSendView)
    ensures
        destination_of(msg) is None <==> msg is SessionReconstructed,
        match msg {
            NetSendView::Handshake { peer, version, channels, peer_id } => destination_of(msg) == Some(peer)
                && event_of(src, msg) == (NetEventView::Handshake { peer: src, version, channels, peer_id }),
            NetSendView::Subscribe { peer, channel } => destination_of(msg) == Some(peer) && event_of(
                src,
                msg,
            ) == (NetEventView::Subscribe { peer: src, channel }),
            NetSendView::Unsubscribe { peer, channel } => destination_of(msg) == Some(peer) && event_of(
                src,
                msg,
            ) == (NetEventView::Unsubscribe { peer: src, channel }),
            NetSendView::SessionOpen { peer, channel, message_id, preamble, initial_update } => {
                destination_of(msg) == Some(peer) && event_of(src, msg) == (NetEventView::SessionOpen {
                    peer: src,
                    channel,
                    message_id,
                    preamble,
                    initial_update,
                })
            },
            NetSendView::RoutingUpdate { peer, channel, message_id, payload } => destination_of(msg) == Some(
                peer,
            ) && event_of(src, msg) == (NetEventView::RoutingUpdate {
                peer: src,
                channel,
                message_id,
                payload,
            }),
            NetSendView::Chunk { peer, channel, message_id, chunk_id, payload, .. } => destination_of(msg)
                == Some(peer) && event_of(src, msg) == (NetEventView::Chunk {
                peer: src,
                channel,
                message_id,
                chunk_id,
                payload,
            }),
            NetSendView::SessionReconstructed { channel, message_id } => event_of(src, msg) == (
            NetEventView::PeerReconstructed { peer: src, channel, message_id }),
        },
{
}

} // verus!
