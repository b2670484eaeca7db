//! Event trace: the determinism artifact.
//!
//! Every send (with its disposition) and every engine step is recorded
//! as a [`TraceEntry`]. The determinism contract is asserted by
//! comparing traces: the same scenario with the same seed produces an
//! equal trace on every run.

use vstd::prelude::*;

use crate::engine::Nanos;
use crate::runtime::{NetSend, NetSendView};
use crate::strategy::PeerId;

verus! {

/// One recorded simulation event.
#[derive(Debug, Clone, Copy, PartialEq, Eq, Structural)]
pub struct TraceEntry {
    /// Virtual time (since simulation start) at which the event was
    /// recorded.
    pub at: Nanos,
    /// Sequence number; total order over all recorded events.
    pub seq: u64,
    pub kind: TraceKind,
}

/// What happened.
#[derive(Debug, Clone, Copy, PartialEq, Eq, Structural)]
pub enum TraceKind {
    /// An endpoint submitted a message; `disposition` records what the
    /// fault plan decided.
    Send { src: PeerId, dst: PeerId, msg: MsgKind, disposition: Disposition },
    /// The runner delivered an inbound event to `peer` and stepped its
    /// engine.
    EngineStep { peer: PeerId },
}

/// Compact message classification for trace entries.
#[derive(Debug, Clone, Copy, PartialEq, Eq, Structural)]
pub enum MsgKind {
    Handshake,
    Subscribe,
    Unsubscribe,
    SessionOpen,
    RoutingUpdate,
    Chunk { chunk_id: u32 },
    /// Notice to a peer that the session it opened is reconstructed.
    SessionReconstructed,
}

/// The kind of an outbound message.
pub open spec fn kind_of(msg: NetSendView) -> MsgKind {
    match msg {
        NetSendView::Handshake { .. } => MsgKind::Handshake,
        NetSendView::Subscribe { .. } => MsgKind::Subscribe,
        NetSendView::Unsubscribe { .. } => MsgKind::Unsubscribe,
        NetSendView::SessionOpen { .. } => MsgKind::SessionOpen,
        NetSendView::RoutingUpdate { .. } => MsgKind::RoutingUpdate,
        NetSendView::Chunk { chunk_id, .. } => MsgKind::Chunk { chunk_id },
        NetSendView::SessionReconstructed { .. } => MsgKind::SessionReconstructed,
    }
}

impl MsgKind {
    /// Classify an outbound message.
    pub fn of(msg: &NetSend) -> (r: Self)
        ensures
            r == kind_of(msg@),
    {
        match msg {
            NetSend::Handshake { .. } => MsgKind::Handshake,
            NetSend::Subscribe { .. } => MsgKind::Subscribe,
            NetSend::Unsubscribe { .. } => MsgKind::Unsubscribe,
            NetSend::SessionOpen { .. } => MsgKind::SessionOpen,
            NetSend::RoutingUpdate { .. } => MsgKind::RoutingUpdate,
            NetSend::Chunk { chunk_id, .. } => MsgKind::Chunk { chunk_id: *chunk_id },
            NetSend::SessionReconstructed { .. } => MsgKind::SessionReconstructed,
        }
    }
}

/// Outcome the fault plan assigned to a send.
#[derive(Debug, Clone, Copy, PartialEq, Eq, Structural)]
pub enum Disposition {
    /// Scheduled for delivery at the given virtual time.
    Delivered { deliver_at: Nanos },
    /// Silently discarded; the sender still observes `Ok` (a network
    /// drop is invisible to the sending engine).
    Dropped { reason: DropReason },
}

/// Which kind of fault rule discarded a message.
#[derive(Debug, Clone, Copy, PartialEq, Eq, Structural)]
pub enum DropReason {
    /// A scripted drop predicate matched.
    Rule,
    /// The link was partitioned at send time.
    Partition,
    /// A seeded probability rule fired.
    Random,
}

/// The trace tells messages of different kinds apart, and chunks by their
/// number.
pub proof fn law_kinds_tell_messages_apart(msg: NetSendView)
    ensures
        kind_of(msg) is Handshake <==> msg is Handshake,
        kind_of(msg) is Subscribe <==> msg is Subscribe,
        kind_of(msg) is Unsubscribe <==> msg is Unsubscribe,
        kind_of(msg) is SessionOpen <==> msg is SessionOpen,
        kind_of(msg) is RoutingUpdate <==> msg is RoutingUpdate,
        kind_of(msg) is Chunk <==> msg is Chunk,
        kind_of(msg) is SessionReconstructed <==> msg is SessionReconstructed,
        msg is Chunk ==> kind_of(msg) == (MsgKind::Chunk { chunk_id: msg->Chunk_chunk_id }),
{
}

} // verus!
