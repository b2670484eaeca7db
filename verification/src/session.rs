//! Per-session state machine over a [`Strategy`].
//!
//! States advance monotonically:
//!
//! ```text
//! Origin             (terminal: no inbound chunks accepted)
//!
//! Consuming  --complete-->  Decoding  --decode_ok-->  Reconstructed
//!                              |
//!                              +--decode_err-->  Failed
//! ```

use vstd::prelude::*;

use crate::strategy::dispatch;
use crate::strategy::dispatch::{ChunkDispatch, DispatchHandle, DispatchView};
use crate::strategy::{PeerId, Strategy, TakeError, TakeOutcome, Verdict};

verus! {

/// Lifecycle state of a session.
#[derive(Debug, Clone, Copy, PartialEq, Eq, Structural)]
pub enum SessionState {
    /// Origin sessions never transition; the publisher already has the
    /// message and serves chunks from the strategy's production queue.
    Origin,
    /// The session accepts verified chunks. Transitions to `Decoding`
    /// when the strategy signals completeness.
    Consuming,
    /// A decode call is pending. No additional chunks accepted.
    Decoding,
    /// Decode succeeded and the message has been delivered.
    Reconstructed,
    /// Decode failed. Decode failure is non-recoverable.
    Failed,
}

/// Bundle of work emitted by [`Session::poll`].
pub struct SessionWork<S: Strategy> {
    /// Optional updated routing payload to broadcast to attached peers.
    pub routing: Option<S::RoutingUpdate>,
    /// Outbound chunk dispatches.
    pub dispatches: Vec<ChunkDispatch<S::ChunkId>>,
}

/// Errors returned by session operations.
#[derive(Debug, Clone, Copy, PartialEq, Eq, Structural)]
pub enum SessionError {
    /// `take_chunk` was called outside of `Consuming`. The carried
    /// verdict reflects the session state: `Decoding` for in-flight
    /// leftovers, `Surplus` after reconstruction, `Invalid` for origin and
    /// failed sessions.
    PostConsuming(Verdict),
    /// `decode_and_finish` was called outside of `Decoding`.
    NotDecoding(SessionState),
    /// The strategy's `take_chunk` rejected the chunk.
    Take(TakeError),
}

/// State of a [`Session`].
#[verifier::ext_equal]
pub ghost struct SessionView<M> {
    pub state: SessionState,
    pub strategy: M,
}

/// Per-session state machine over a [`Strategy`].
pub struct Session<S: Strategy> {
    strategy: S,
    state: SessionState,
}

impl<S: Strategy> View for Session<S> {
    type V = SessionView<S::Model>;

    closed spec fn view(&self) -> SessionView<S::Model> {
        SessionView { state: self.state, strategy: self.strategy.model() }
    }
}

/// The verdict on a chunk that arrives outside of `Consuming`.
pub open spec fn boundary(state: SessionState) -> Verdict {
    match state {
        SessionState::Decoding => Verdict::Decoding,
        SessionState::Reconstructed => Verdict::Surplus,
        _ => Verdict::Invalid,
    }
}

impl<S: Strategy> Session<S> {
    /// State and result after a chunk is delivered.
    pub open spec fn taken(v: SessionView<S::Model>, idx: S::ChunkId, data: Seq<u8>) -> (
        SessionView<S::Model>,
        Result<TakeOutcome, SessionError>,
    ) {
        if v.state == SessionState::Consuming {
            let (m, r) = S::taken(v.strategy, idx, data);
            match r {
                Ok(o) => (
                    SessionView {
                        state: if o.complete && o.verdict == Verdict::Accepted {
                            SessionState::Decoding
                        } else {
                            SessionState::Consuming
                        },
                        strategy: m,
                    },
                    Ok(o),
                ),
                Err(e) => (SessionView { strategy: m, ..v }, Err(SessionError::Take(e))),
            }
        } else {
            (v, Err(SessionError::PostConsuming(boundary(v.state))))
        }
    }

    /// State and result after decoding.
    pub open spec fn finished(v: SessionView<S::Model>) -> (
        SessionView<S::Model>,
        Result<Seq<u8>, SessionError>,
    ) {
        if v.state != SessionState::Decoding {
            (v, Err(SessionError::NotDecoding(v.state)))
        } else {
            match S::message(v.strategy) {
                Some(p) => (SessionView { state: SessionState::Reconstructed, ..v }, Ok(p)),
                None => (
                    SessionView { state: SessionState::Failed, ..v },
                    Err(SessionError::NotDecoding(SessionState::Failed)),
                ),
            }
        }
    }

    /// State after polling, and the work returned.
    pub open spec fn polled(v: SessionView<S::Model>) -> (
        SessionView<S::Model>,
        Option<<S::RoutingUpdate as View>::V>,
        Seq<DispatchView<S::ChunkId>>,
    ) {
        let (m1, routing) = S::announced(v.strategy, false);
        let (m2, chunks) = S::polled(m1);
        (SessionView { strategy: m2, ..v }, routing, chunks)
    }

    pub open spec fn attached(v: SessionView<S::Model>, peer: PeerId) -> SessionView<S::Model> {
        SessionView { strategy: S::attached(v.strategy, peer), ..v }
    }

    pub open spec fn detached(v: SessionView<S::Model>, peer: PeerId, completed: bool) -> SessionView<
        S::Model,
    > {
        SessionView { strategy: S::detached(v.strategy, peer, completed), ..v }
    }

    /// Attaches `peers` in turn.
    pub open spec fn attached_all(v: SessionView<S::Model>, peers: Seq<PeerId>) -> SessionView<S::Model>
        decreases peers.len(),
    {
        if peers.len() == 0 {
            v
        } else {
            Self::attached(Self::attached_all(v, peers.drop_last()), peers.last())
        }
    }

    pub open spec fn reported(v: SessionView<S::Model>, peer: PeerId, handle: DispatchHandle, ok: bool) -> SessionView<
        S::Model,
    > {
        SessionView { strategy: S::reported(v.strategy, peer, handle, ok), ..v }
    }

    /// Construct an origin session. State starts at [`SessionState::Origin`]
    /// and never transitions.
    pub fn new_origin(strategy: S) -> (r: Self)
        ensures
            r@ == (SessionView { state: SessionState::Origin, strategy: strategy.model() }),
    {
        Session { strategy, state: SessionState::Origin }
    }

    /// Construct a relay session. State starts at [`SessionState::Consuming`].
    pub fn new_relay(strategy: S) -> (r: Self)
        ensures
            r@ == (SessionView { state: SessionState::Consuming, strategy: strategy.model() }),
    {
        Session { strategy, state: SessionState::Consuming }
    }

    /// Current lifecycle state.
    #[must_use]
    pub fn state(&self) -> (r: SessionState)
        ensures
            r == self@.state,
    {
        self.state
    }

    /// Borrow the underlying strategy.
    #[must_use]
    pub fn strategy(&self) -> (r: &S)
        ensures
            r.model() == self@.strategy,
    {
        &self.strategy
    }

    /// Mutably borrow the underlying strategy. Most callers should use
    /// the session methods; this is a back door for tests and bespoke
    /// engine plumbing.
    pub fn strategy_mut(&mut self) -> (r: &mut S)
        ensures
            r.model() == old(self)@.strategy,
            final(self)@ == (SessionView { strategy: final(r).model(), ..old(self)@ }),
    {
        &mut self.strategy
    }

    /// Attach a peer to this session.
    pub fn attach_peer(&mut self, peer: PeerId)
        requires
            S::valid(old(self)@.strategy),
        ensures
            S::valid(final(self)@.strategy),
            final(self)@ == Self::attached(old(self)@, peer),
    {
        self.strategy.attach_peer(peer);
    }

    /// Detach a peer.
    pub fn detach_peer(&mut self, peer: PeerId, completed: bool)
        requires
            S::valid(old(self)@.strategy),
        ensures
            S::valid(final(self)@.strategy),
            final(self)@ == Self::detached(old(self)@, peer, completed),
    {
        self.strategy.detach_peer(peer, completed);
    }

    /// Forward a peer's routing-update payload to the strategy and
    /// return the handles of in-flight sends now redundant.
    pub fn routing_update(&mut self, peer: PeerId, update: S::RoutingUpdate) -> (r: Vec<DispatchHandle>)
        requires
            S::valid(old(self)@.strategy),
        ensures
            S::valid(final(self)@.strategy),
            final(self)@ == (SessionView {
                strategy: S::routed(old(self)@.strategy, peer, update@).0,
                ..old(self)@
            }),
            r@ == S::routed(old(self)@.strategy, peer, update@).1,
    {
        self.strategy.routing_update(peer, update)
    }

    /// Verify, store, and progress on a single inbound chunk.
    ///
    /// Returns:
    ///
    /// - `Ok` with `Accepted` or `Redundant` in the `Consuming` state, for
    ///   valid or duplicate chunks.
    /// - `Ok` with `Invalid`, incomplete, when the strategy refuses the
    ///   chunk's bytes; state stays `Consuming`.
    /// - `Err(SessionError::PostConsuming(v))` outside `Consuming`,
    ///   where `v` indicates the boundary the chunk crossed.
    /// - `Err(SessionError::Take(e))` for strategy-side errors such as
    ///   out-of-range indices.
    pub fn take_chunk(&mut self, idx: S::ChunkId, data: Vec<u8>) -> (r: Result<TakeOutcome, SessionError>)
        requires
            S::valid(old(self)@.strategy),
        ensures
            S::valid(final(self)@.strategy),
            (final(self)@, r) == Self::taken(old(self)@, idx, data@),
    {
        match self.state {
            SessionState::Consuming => match self.strategy.take_chunk(idx, data) {
                Ok(outcome) => {
                    if outcome.complete && matches!(outcome.verdict, Verdict::Accepted) {
                        self.state = SessionState::Decoding;
                    }
                    Ok(outcome)
                },
                Err(e) => Err(SessionError::Take(e)),
            },
            SessionState::Decoding => Err(SessionError::PostConsuming(Verdict::Decoding)),
            SessionState::Reconstructed => Err(SessionError::PostConsuming(Verdict::Surplus)),
            SessionState::Origin | SessionState::Failed => {
                Err(SessionError::PostConsuming(Verdict::Invalid))
            },
        }
    }

    /// Run `decode` synchronously. Only valid in `Decoding`. A session that
    /// holds enough of a payload gives that payload.
    pub fn decode_and_finish(&mut self) -> (r: Result<Vec<u8>, SessionError>)
        requires
            S::valid(old(self)@.strategy),
        ensures
            final(self)@ == Self::finished(old(self)@).0,
            match r {
                Ok(p) => Self::finished(old(self)@).1 == Ok::<Seq<u8>, SessionError>(p@),
                Err(e) => Self::finished(old(self)@).1 == Err::<Seq<u8>, SessionError>(e),
            },
            forall|payload: Seq<u8>| #[trigger]
                S::bears(old(self)@.strategy, payload) && old(self)@.state == SessionState::Decoding
                    ==> (r matches Ok(p) && p@ == payload),
    {
        if !matches!(self.state, SessionState::Decoding) {
            return Err(SessionError::NotDecoding(self.state));
        }
        if let Ok(payload) = self.strategy.decode() {
            self.state = SessionState::Reconstructed;
            Ok(payload)
        } else {
            self.state = SessionState::Failed;
            Err(SessionError::NotDecoding(SessionState::Failed))
        }
    }

    /// Bundle the strategy's pending outbound work.
    pub fn poll(&mut self) -> (r: SessionWork<S>)
        requires
            S::valid(old(self)@.strategy),
        ensures
            S::valid(final(self)@.strategy),
            final(self)@ == Self::polled(old(self)@).0,
            match r.routing {
                Some(u) => Self::polled(old(self)@).1 == Some(u@),
                None => Self::polled(old(self)@).1 is None,
            },
            dispatch::dispatches(r.dispatches@) == Self::polled(old(self)@).2,
    {
        let routing = self.strategy.poll_routing(false);
        let dispatches = self.strategy.poll_chunks();
        SessionWork { routing, dispatches }
    }

    /// Acknowledge or cancel a previously emitted dispatch.
    pub fn chunk_sent(&mut self, peer: PeerId, handle: DispatchHandle, ok: bool)
        requires
            S::valid(old(self)@.strategy),
        ensures
            S::valid(final(self)@.strategy),
            final(self)@ == Self::reported(old(self)@, peer, handle, ok),
    {
        self.strategy.chunk_sent(peer, handle, ok);
    }

    /// Strategy progress: `(have, need)`.
    pub fn progress(&self) -> (r: (u32, u32))
        requires
            S::valid(self@.strategy),
        ensures
            r == S::counts(self@.strategy),
    {
        self.strategy.progress()
    }
}

/// How far a session has come; a state of no successors counts as final.
pub open spec fn stage(state: SessionState) -> nat {
    match state {
        SessionState::Consuming => 0,
        SessionState::Decoding => 1,
        SessionState::Reconstructed => 2,
        SessionState::Failed => 2,
        SessionState::Origin => 2,
    }
}

/// Sessions advance and never go back: a chunk takes a session at most from
/// `Consuming` to `Decoding`, and decoding ends `Decoding`.
pub proof fn law_states_advance<S: Strategy>(v: SessionView<S::Model>, idx: S::ChunkId, data: Seq<u8>)
    ensures
        ({
            let after = Session::<S>::taken(v, idx, data).0.state;
            after == v.state || (v.state == SessionState::Consuming && after == SessionState::Decoding)
        }),
        ({
            let after = Session::<S>::finished(v).0.state;
            after == v.state || (v.state == SessionState::Decoding && stage(after) == 2 && after
                != SessionState::Origin)
        }),
        stage(Session::<S>::taken(v, idx, data).0.state) >= stage(v.state),
        stage(Session::<S>::finished(v).0.state) >= stage(v.state),
{
}

/// An origin session stays as it is whatever arrives, and refuses every chunk
/// as invalid.
pub proof fn law_origin_is_terminal<S: Strategy>(v: SessionView<S::Model>, idx: S::ChunkId, data: Seq<u8>)
    requires
        v.state == SessionState::Origin,
    ensures
        Session::<S>::taken(v, idx, data) == (
            v,
            Err::<TakeOutcome, SessionError>(SessionError::PostConsuming(Verdict::Invalid)),
        ),
        Session::<S>::finished(v).0 == v,
        Session::<S>::polled(v).0.state == SessionState::Origin,
{
}

/// Outside of `Consuming` a chunk changes nothing.
pub proof fn law_late_chunk_changes_nothing<S: Strategy>(v: SessionView<S::Model>, idx: S::ChunkId, data: Seq<u8>)
    requires
        v.state != SessionState::Consuming,
    ensures
        Session::<S>::taken(v, idx, data) == (
            v,
            Err::<TakeOutcome, SessionError>(SessionError::PostConsuming(boundary(v.state))),
        ),
{
}

/// A chunk goes to the strategy of a consuming session, and the session turns
/// to decoding exactly when the strategy accepts it as the one that makes the
/// message complete.
pub proof fn law_completing_chunk_starts_decoding<S: Strategy>(
    v: SessionView<S::Model>,
    idx: S::ChunkId,
    data: Seq<u8>,
)
    requires
        v.state == SessionState::Consuming,
    ensures
        ({
            let (m, r) = S::taken(v.strategy, idx, data);
            let (after, answer) = Session::<S>::taken(v, idx, data);
            &&& after.strategy == m
            &&& after.state == SessionState::Decoding <==> (r matches Ok(o) && o.complete && o.verdict
                == Verdict::Accepted)
            &&& r matches Ok(o) ==> answer == Ok::<TakeOutcome, SessionError>(o)
            &&& r is Err ==> answer is Err
        }),
{
}

/// Decoding a session that is ready gives the message of its strategy, or
/// fails the session where there is none. A session that is not ready is
/// refused and stays as it is.
pub proof fn law_decoding_gives_message<S: Strategy>(v: SessionView<S::Model>)
    ensures
        ({
            let (after, r) = Session::<S>::finished(v);
            &&& v.state != SessionState::Decoding ==> after == v && r is Err
            &&& v.state == SessionState::Decoding ==> match S::message(v.strategy) {
                Some(p) => r == Ok::<Seq<u8>, SessionError>(p) && after.state
                    == SessionState::Reconstructed,
                None => r is Err && after.state == SessionState::Failed,
            }
            &&& after.strategy == v.strategy
        }),
{
}

/// What a chunk that comes too late is told: a session that decodes counts it
/// as left over, one that has the message as surplus, and one that failed or
/// is the origin as invalid.
pub proof fn law_late_chunk_is_told_why<S: Strategy>(v: SessionView<S::Model>, idx: S::ChunkId, data: Seq<u8>)
    ensures
        ({
            let r = Session::<S>::taken(v, idx, data).1;
            match v.state {
                SessionState::Consuming => !(r matches Err(SessionError::PostConsuming(_))),
                SessionState::Decoding => r == Err::<TakeOutcome, SessionError>(
                    SessionError::PostConsuming(Verdict::Decoding),
                ),
                SessionState::Reconstructed => r == Err::<TakeOutcome, SessionError>(
                    SessionError::PostConsuming(Verdict::Surplus),
                ),
                SessionState::Failed | SessionState::Origin => r == Err::<TakeOutcome, SessionError>(
                    SessionError::PostConsuming(Verdict::Invalid),
                ),
            }
        }),
{
}

} // verus!
