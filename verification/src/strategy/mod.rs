//! Broadcast strategies and supporting data structures.
//!
//! This module hosts the [`Strategy`] trait, the engine-facing
//! interface that every broadcast coding scheme implements, and the
//! supporting types (verdicts, dispatch records, peer identifiers).

use vstd::prelude::*;

pub mod bitmap;
pub mod config;
pub mod dispatch;
pub mod rs;

pub use dispatch::{ChunkDispatch, DispatchHandle};

verus! {

/// Peer identifier.
pub type PeerId = u64;

/// Verdict returned by a strategy or session for an inbound chunk.
///
/// [`Self::Pending`] is reserved for strategies that verify asynchronously.
#[derive(Debug, Clone, Copy, PartialEq, Eq, Structural)]
pub enum Verdict {
    /// Chunk was useful in advancing decoding.
    Accepted,
    /// Chunk carries no new information; the shard or generation is
    /// already satisfied.
    Redundant,
    /// Chunk arrived after completeness was signaled to peers but
    /// before decode finished. In-flight leftovers from the network.
    /// Owned by the session boundary, not the strategy.
    Decoding,
    /// Chunk arrived after the session has fully reconstructed the
    /// message. Owned by the session boundary.
    Surplus,
    /// Chunk was malformed or failed verification.
    Invalid,
    /// Verification has been submitted to an async worker pool.
    Pending,
}

/// Outcome of a successful [`Strategy::take_chunk`] call.
#[derive(Debug, Clone, Copy, PartialEq, Eq, Structural)]
pub struct TakeOutcome {
    /// How the strategy classified this chunk.
    pub verdict: Verdict,
    /// `true` when the strategy holds enough data to reconstruct the
    /// message. The session transitions to `Decoding` on this signal.
    pub complete: bool,
}

/// Errors returned by [`Strategy::take_chunk`].
#[derive(Debug, Clone, Copy, PartialEq, Eq, Structural)]
pub enum TakeError {
    /// The chunk's declared index is outside `[0, num_data + num_parity)`.
    OutOfRange { idx: u64, total: u64 },
}

/// Engine-facing per-session interface for a broadcast coding scheme.
///
/// One instance lives per `(channel, message, direction)` tuple in the
/// engine. Each method is described by a spec function on the state of the
/// strategy, [`Self::Model`].
pub trait Strategy: Sized {
    /// Strategy-specific chunk identifier (e.g. shard index for RS).
    type ChunkId;

    /// Strategy-specific routing-update payload (e.g. shard havelist
    /// bitmap for RS).
    type RoutingUpdate: View;

    /// Errors returned by [`Self::decode`].
    type DecodeError;

    /// State of the strategy.
    type Model;

    /// What a strategy holds of its message.
    type Holding;

    spec fn model(&self) -> Self::Model;

    /// Invariant of the state.
    spec fn valid(m: Self::Model) -> bool;

    /// Chunk `idx` has been received and processed.
    spec fn holds(m: Self::Model, idx: Self::ChunkId) -> bool;

    /// Verdict on a chunk that is not stored yet.
    spec fn verdict(m: Self::Model, idx: Self::ChunkId, data: Seq<u8>) -> Verdict;

    /// State and outcome after a chunk is delivered.
    spec fn taken(m: Self::Model, idx: Self::ChunkId, data: Seq<u8>) -> (
        Self::Model,
        Result<TakeOutcome, TakeError>,
    );

    /// State after a peer joined.
    spec fn attached(m: Self::Model, peer: PeerId) -> Self::Model;

    /// State after a peer left.
    spec fn detached(m: Self::Model, peer: PeerId, completed: bool) -> Self::Model;

    /// State after a peer's routing update, and the handles it makes redundant.
    spec fn routed(
        m: Self::Model,
        peer: PeerId,
        update: <Self::RoutingUpdate as View>::V,
    ) -> (Self::Model, Seq<DispatchHandle>);

    /// State after polling for chunks, and the dispatches returned.
    spec fn polled(m: Self::Model) -> (Self::Model, Seq<dispatch::DispatchView<Self::ChunkId>>);

    /// State after polling for routing, and the update returned.
    spec fn announced(m: Self::Model, force: bool) -> (
        Self::Model,
        Option<<Self::RoutingUpdate as View>::V>,
    );

    /// State after a send outcome is reported.
    spec fn reported(m: Self::Model, peer: PeerId, handle: DispatchHandle, ok: bool) -> Self::Model;

    /// `(have, need)` of the state.
    spec fn counts(m: Self::Model) -> (u32, u32);

    /// The message that the state gives, if it gives one.
    spec fn message(m: Self::Model) -> Option<Seq<u8>>;

    /// What is held is of `payload`, and enough to reconstruct it.
    spec fn bears(m: Self::Model, payload: Seq<u8>) -> bool;

    /// What the state holds of the message.
    spec fn holding(m: Self::Model) -> Self::Holding;

    /// Bound on how often polling still returns work.
    spec fn backlog(m: Self::Model) -> nat;

    /// Polling that returns work uses up some of the backlog, so that
    /// polling until there is no work comes to an end.
    proof fn polling_ends(m: Self::Model)
        requires
            Self::valid(m),
        ensures
            ({
                let (m1, routing) = Self::announced(m, false);
                let (m2, chunks) = Self::polled(m1);
                routing is Some || chunks.len() > 0 ==> Self::backlog(m2) < Self::backlog(m)
            }),
    ;

    /// Planning sends and hearing of their outcomes does not change what is
    /// held.
    proof fn planning_keeps(
        m: Self::Model,
        payload: Seq<u8>,
        peer: PeerId,
        handle: DispatchHandle,
        ok: bool,
    )
        requires
            Self::bears(m, payload),
        ensures
            Self::bears(Self::announced(m, false).0, payload),
            Self::bears(Self::polled(m).0, payload),
            Self::bears(Self::reported(m, peer, handle, ok), payload),
    ;

    /// Nor does it, where that is not enough yet.
    proof fn planning_keeps_holding(m: Self::Model, peer: PeerId, handle: DispatchHandle, ok: bool)
        ensures
            Self::holding(Self::announced(m, false).0) == Self::holding(m),
            Self::holding(Self::polled(m).0) == Self::holding(m),
            Self::holding(Self::reported(m, peer, handle, ok)) == Self::holding(m),
    ;

    /// Reports whether this chunk has already been received and
    /// processed. Used as a fast-path gate before [`Self::take_chunk`].
    fn have_chunk(&self, idx: &Self::ChunkId) -> (r: bool)
        requires
            Self::valid(self.model()),
        ensures
            r == Self::holds(self.model(), *idx),
    ;

    /// Verifies an inbound chunk before acceptance.
    fn verify_chunk(&self, idx: &Self::ChunkId, data: &[u8]) -> (r: Verdict)
        requires
            Self::valid(self.model()),
        ensures
            r == Self::verdict(self.model(), *idx, data@),
    ;

    /// Delivers a chunk to the strategy. Returns the
    /// classification and a `complete` flag that signals the session
    /// to transition to `Decoding`.
    fn take_chunk(&mut self, idx: Self::ChunkId, data: Vec<u8>) -> (r: Result<TakeOutcome, TakeError>)
        requires
            Self::valid(old(self).model()),
        ensures
            Self::valid(final(self).model()),
            (final(self).model(), r) == Self::taken(old(self).model(), idx, data@),
    ;

    /// Registers a peer in this session.
    fn attach_peer(&mut self, peer: PeerId)
        requires
            Self::valid(old(self).model()),
        ensures
            Self::valid(final(self).model()),
            final(self).model() == Self::attached(old(self).model(), peer),
    ;

    /// Removes a peer. `completed=true` indicates the peer signaled
    /// successful reconstruction; `false` indicates disconnection or
    /// unsubscribe.
    fn detach_peer(&mut self, peer: PeerId, completed: bool)
        requires
            Self::valid(old(self).model()),
        ensures
            Self::valid(final(self).model()),
            final(self).model() == Self::detached(old(self).model(), peer, completed),
    ;

    /// Delivers a peer's routing-update payload. Returns the dispatch
    /// handles of in-flight sends rendered redundant by the update.
    fn routing_update(&mut self, peer: PeerId, update: Self::RoutingUpdate) -> (r: Vec<DispatchHandle>)
        requires
            Self::valid(old(self).model()),
        ensures
            Self::valid(final(self).model()),
            (final(self).model(), r@) == Self::routed(old(self).model(), peer, update@),
    ;

    /// Returns pending chunk dispatches for attached peers. Each
    /// returned dispatch will receive exactly one [`Self::chunk_sent`]
    /// callback.
    fn poll_chunks(&mut self) -> (r: Vec<ChunkDispatch<Self::ChunkId>>)
        requires
            Self::valid(old(self).model()),
        ensures
            Self::valid(final(self).model()),
            (final(self).model(), dispatch::dispatches(r@)) == Self::polled(old(self).model()),
    ;

    /// Returns the current routing state for broadcast to peers.
    /// `force=true` returns unconditionally; `false` returns only when
    /// the state has materially changed since the last poll.
    fn poll_routing(&mut self, force: bool) -> (r: Option<Self::RoutingUpdate>)
        requires
            Self::valid(old(self).model()),
        ensures
            Self::valid(final(self).model()),
            final(self).model() == Self::announced(old(self).model(), force).0,
            match r {
                Some(u) => Self::announced(old(self).model(), force).1 == Some(u@),
                None => Self::announced(old(self).model(), force).1 is None,
            },
    ;

    /// Reports the outcome of a chunk send. Called exactly once per
    /// dispatch returned by [`Self::poll_chunks`].
    fn chunk_sent(&mut self, peer: PeerId, handle: DispatchHandle, ok: bool)
        requires
            Self::valid(old(self).model()),
        ensures
            Self::valid(final(self).model()),
            final(self).model() == Self::reported(old(self).model(), peer, handle, ok),
    ;

    /// Returns `(have, need)`: how many chunks accepted versus needed
    /// for reconstruction.
    fn progress(&self) -> (r: (u32, u32))
        requires
            Self::valid(self.model()),
        ensures
            r == Self::counts(self.model()),
    ;

    /// Reconstructs the original message from the strategy's complete
    /// state.
    fn decode(&self) -> (r: Result<Vec<u8>, Self::DecodeError>)
        requires
            Self::valid(self.model()),
        ensures
            match r {
                Ok(v) => Self::message(self.model()) == Some(v@),
                Err(_) => Self::message(self.model()) is None,
            },
            forall|payload: Seq<u8>| #[trigger]
                Self::bears(self.model(), payload) ==> Self::message(self.model()) == Some(payload),
    ;
}

} // verus!
