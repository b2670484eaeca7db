//! Where a submitted message goes, and what its sender is told.

use vstd::prelude::*;

use crate::engine::model::SessionId;
use crate::runtime;
use crate::runtime::{NetError, NetSend, NetSendView};
use crate::strategy::PeerId;
use crate::transport::reset;
use crate::transport::reset::ReconstructedTracker;

verus! {

/// What becomes of a submitted message.
#[derive(Debug)]
pub enum Route {
    /// A session was recorded as reconstructed; inbound readers are woken.
    Recorded,
    /// The message goes on the outbound queue of a peer.
    Peer { dst: PeerId, msg: NetSend },
}

/// Contents of a [`Route`].
pub ghost enum RouteView {
    Recorded,
    Peer { dst: PeerId, msg: NetSendView },
}

impl View for Route {
    type V = RouteView;

    open spec fn view(&self) -> RouteView {
        match *self {
            Route::Recorded => RouteView::Recorded,
            Route::Peer { dst, msg } => RouteView::Peer { dst, msg: msg@ },
        }
    }
}

/// The reconstructed sessions and the route after a message was submitted.
pub open spec fn routed(keys: Seq<SessionId>, msg: NetSendView) -> (Seq<SessionId>, RouteView) {
    match msg {
        NetSendView::SessionReconstructed { channel, message_id } => (
            reset::recorded(keys, (channel, message_id)),
            RouteView::Recorded,
        ),
        _ => (keys, RouteView::Peer { dst: runtime::destination_of(msg)->Some_0, msg }),
    }
}

/// Routes a submitted message. A local reconstruct is recorded and has no
/// peer.
pub fn route(tracker: &mut ReconstructedTracker, msg: NetSend) -> (r: Route)
    ensures
        (final(tracker)@, r@) == routed(old(tracker)@, msg@),
{
    match runtime::destination(&msg) {
        Some(dst) => Route::Peer { dst, msg },
        None => {
            if let NetSend::SessionReconstructed { channel, message_id } = msg {
                tracker.record((channel, message_id));
            }
            Route::Recorded
        },
    }
}

/// How the outbound queue of a peer took a message.
#[derive(Debug, Clone, Copy, PartialEq, Eq, Structural)]
pub enum Enqueued {
    /// It is in the queue.
    Accepted,
    /// The queue is full.
    Full,
    /// The queue is closed: the peer's pump has stopped (disconnect in
    /// flight).
    Closed,
    /// There is no such peer.
    Unknown,
}

/// What the sender is told. A full queue is backpressure: the engine refunds
/// a chunk and reroutes, or retries a control frame on its next drain.
pub fn answer(dst: PeerId, taken: Enqueued) -> (r: Result<(), NetError>)
    ensures
        r == (match taken {
            Enqueued::Accepted => Ok::<(), NetError>(()),
            Enqueued::Full => Err(NetError::Backpressure(dst)),
            Enqueued::Closed => Err(NetError::PeerNotFound(dst)),
            Enqueued::Unknown => Err(NetError::PeerNotFound(dst)),
        }),
{
    match taken {
        Enqueued::Accepted => Ok(()),
        Enqueued::Full => Err(NetError::Backpressure(dst)),
        Enqueued::Closed => Err(NetError::PeerNotFound(dst)),
        Enqueued::Unknown => Err(NetError::PeerNotFound(dst)),
    }
}

/// A session that is reconstructed here is remembered and goes to nobody;
/// every other message goes to its peer as it is, and nothing is remembered.
pub proof fn law_messages_go_to_their_peers(keys: Seq<SessionId>, msg: NetSendView)
    requires
        reset::bounded(keys),
    ensures
        ({
            let (after, route) = routed(keys, msg);
            match msg {
                NetSendView::SessionReconstructed { channel, message_id } => {
                    &&& route == RouteView::Recorded
                    &&& after.contains((channel, message_id))
                },
                NetSendView::Handshake { peer, .. }
                | NetSendView::Subscribe { peer, .. }
                | NetSendView::Unsubscribe { peer, .. }
                | NetSendView::SessionOpen { peer, .. }
                | NetSendView::RoutingUpdate { peer, .. }
                | NetSendView::Chunk { peer, .. } => {
                    &&& route == (RouteView::Peer { dst: peer, msg })
                    &&& after == keys
                },
            }
        }),
{
    if let NetSendView::SessionReconstructed { channel, message_id } = msg {
        reset::law_recorded_key_is_found(keys, (channel, message_id));
    }
}

} // verus!
