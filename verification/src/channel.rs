//! Per-topic channel container.
//!
//! Hosts the active sessions for a given channel ID, the set of
//! subscribed peers, and a strategy factory for constructing
//! relay sessions from inbound preambles.

use vstd::prelude::*;

use crate::order;
use crate::session::{Session, SessionError, SessionState, SessionView};
use crate::strategy::{PeerId, Strategy, TakeOutcome};
use crate::table::{Change, Key, KeySet, Table};

verus! {

/// Channel identifier.
pub type ChannelId = String;

/// Message identifier.
pub type MessageId = String;

/// Constructs relay strategies. Given a preamble, returns a relay
/// strategy ready to consume chunks.
pub trait StrategyFactory<S: Strategy>: Sized {
    /// State of the factory.
    type Model;

    spec fn model(&self) -> Self::Model;

    /// State after building from a preamble when the wall clock is `reading`
    /// nanoseconds into its second, and what was built.
    spec fn built(m: Self::Model, preamble: Seq<u8>, reading: u32) -> (
        Self::Model,
        Result<S::Model, Seq<char>>,
    );

    /// Builds a strategy, or says in words why the preamble is refused.
    fn build(&mut self, preamble: Vec<u8>, reading: u32) -> (r: Result<S, String>)
        ensures
            final(self).model() == Self::built(old(self).model(), preamble@, reading).0,
            match r {
                Ok(s) => S::valid(s.model()) && Self::built(old(self).model(), preamble@, reading).1 == Ok::<
                    S::Model,
                    Seq<char>,
                >(s.model()),
                Err(e) => Self::built(old(self).model(), preamble@, reading).1 == Err::<
                    S::Model,
                    Seq<char>,
                >(e@),
            },
    ;
}

/// Errors raised by [`Channel`] operations.
#[derive(Debug)]
pub enum ChannelError {
    /// The strategy factory rejected the inbound preamble (decode
    /// failure, validation failure, etc.).
    InvalidPreamble(String),
    /// `take_chunk` was invoked for an unknown `(channel, message_id)`
    /// pair.
    SessionNotFound(MessageId),
    /// The session's state machine rejected the operation.
    Session(SessionError),
    /// A session for this `(channel, message_id)` already exists.
    DuplicateSession(MessageId),
}

/// Contents of a [`ChannelError`].
pub ghost enum ChannelFault {
    InvalidPreamble(Seq<char>),
    SessionNotFound(Seq<char>),
    Session(SessionError),
    DuplicateSession(Seq<char>),
}

impl View for ChannelError {
    type V = ChannelFault;

    open spec fn view(&self) -> ChannelFault {
        match *self {
            ChannelError::InvalidPreamble(e) => ChannelFault::InvalidPreamble(e@),
            ChannelError::SessionNotFound(m) => ChannelFault::SessionNotFound(m@),
            ChannelError::Session(e) => ChannelFault::Session(e),
            ChannelError::DuplicateSession(m) => ChannelFault::DuplicateSession(m@),
        }
    }
}

/// A result whose error is given by its contents.
pub open spec fn faults<T>(r: Result<T, ChannelError>) -> Result<T, ChannelFault> {
    match r {
        Ok(t) => Ok(t),
        Err(e) => Err(e@),
    }
}

/// State of a [`Channel`].
#[verifier::ext_equal]
pub ghost struct ChannelView<M, F> {
    pub id: Seq<char>,
    pub subscribers: Set<PeerId>,
    pub sessions: Map<Seq<char>, SessionView<M>>,
    pub factory: F,
}

/// Per-channel container.
pub struct Channel<S: Strategy, F: StrategyFactory<S>> {
    channel_id: ChannelId,
    subscribers: KeySet<PeerId>,
    sessions: Table<MessageId, Session<S>>,
    factory: F,
}

impl<S: Strategy, F: StrategyFactory<S>> View for Channel<S, F> {
    type V = ChannelView<S::Model, F::Model>;

    closed spec fn view(&self) -> ChannelView<S::Model, F::Model> {
        ChannelView {
            id: self.channel_id@,
            subscribers: self.subscribers@,
            sessions: self.sessions@,
            factory: self.factory.model(),
        }
    }
}

/// Attaches a peer to a session.
struct Attach {
    peer: PeerId,
}

impl<S: Strategy> Change<Session<S>> for Attach {
    closed spec fn applies(&self, v: SessionView<S::Model>) -> bool {
        S::valid(v.strategy)
    }

    closed spec fn changed(&self, v: SessionView<S::Model>) -> SessionView<S::Model> {
        Session::<S>::attached(v, self.peer)
    }

    fn change(&self, v: &mut Session<S>) {
        v.attach_peer(self.peer);
    }
}

/// Detaches a peer, which has not completed, from a session.
struct Detach {
    peer: PeerId,
}

impl<S: Strategy> Change<Session<S>> for Detach {
    closed spec fn applies(&self, v: SessionView<S::Model>) -> bool {
        S::valid(v.strategy)
    }

    closed spec fn changed(&self, v: SessionView<S::Model>) -> SessionView<S::Model> {
        Session::<S>::detached(v, self.peer, false)
    }

    fn change(&self, v: &mut Session<S>) {
        v.detach_peer(self.peer, false);
    }
}

impl<S: Strategy, F: StrategyFactory<S>> Channel<S, F> {
    /// Invariant: the strategy of every session is valid.
    pub open spec fn valid(v: ChannelView<S::Model, F::Model>) -> bool {
        forall|k: Seq<char>| #[trigger]
            v.sessions.contains_key(k) ==> S::valid(v.sessions[k].strategy)
    }

    /// A channel without subscribers and sessions.
    pub open spec fn empty(id: Seq<char>, factory: F::Model) -> ChannelView<S::Model, F::Model> {
        ChannelView { id, subscribers: Set::empty(), sessions: Map::empty(), factory }
    }

    /// State after `peer` subscribed.
    pub open spec fn subscribed(v: ChannelView<S::Model, F::Model>, peer: PeerId) -> ChannelView<
        S::Model,
        F::Model,
    > {
        if v.subscribers.contains(peer) {
            v
        } else {
            ChannelView {
                subscribers: v.subscribers.insert(peer),
                sessions: v.sessions.map_values(
                    |s: SessionView<S::Model>| Session::<S>::attached(s, peer),
                ),
                ..v
            }
        }
    }

    /// State after `peer` unsubscribed.
    pub open spec fn unsubscribed(v: ChannelView<S::Model, F::Model>, peer: PeerId) -> ChannelView<
        S::Model,
        F::Model,
    > {
        if !v.subscribers.contains(peer) {
            v
        } else {
            ChannelView {
                subscribers: v.subscribers.remove(peer),
                sessions: v.sessions.map_values(
                    |s: SessionView<S::Model>| Session::<S>::detached(s, peer, false),
                ),
                ..v
            }
        }
    }

    /// State after a session with this strategy is added.
    pub open spec fn with_session(
        v: ChannelView<S::Model, F::Model>,
        message_id: Seq<char>,
        state: SessionState,
        strategy: S::Model,
    ) -> ChannelView<S::Model, F::Model> {
        ChannelView {
            sessions: v.sessions.insert(
                message_id,
                Session::<S>::attached_all(
                    SessionView { state, strategy },
                    order::ascending(v.subscribers),
                ),
            ),
            ..v
        }
    }

    /// State and result after opening a relay session.
    pub open spec fn opened(
        v: ChannelView<S::Model, F::Model>,
        message_id: Seq<char>,
        preamble: Seq<u8>,
        reading: u32,
    ) -> (
        ChannelView<S::Model, F::Model>,
        Result<(), ChannelFault>,
    ) {
        if v.sessions.contains_key(message_id) {
            (v, Err(ChannelFault::DuplicateSession(message_id)))
        } else {
            let (f, r) = F::built(v.factory, preamble, reading);
            let after = ChannelView { factory: f, ..v };
            match r {
                Ok(m) => (Self::with_session(after, message_id, SessionState::Consuming, m), Ok(())),
                Err(e) => (after, Err(ChannelFault::InvalidPreamble(e))),
            }
        }
    }

    /// State and result after starting an origin session.
    pub open spec fn started(v: ChannelView<S::Model, F::Model>, message_id: Seq<char>, strategy: S::Model) -> (
        ChannelView<S::Model, F::Model>,
        Result<(), ChannelFault>,
    ) {
        if v.sessions.contains_key(message_id) {
            (v, Err(ChannelFault::DuplicateSession(message_id)))
        } else {
            (Self::with_session(v, message_id, SessionState::Origin, strategy), Ok(()))
        }
    }

    /// State and result after a chunk is delivered to its session.
    pub open spec fn taken(
        v: ChannelView<S::Model, F::Model>,
        message_id: Seq<char>,
        chunk_id: S::ChunkId,
        data: Seq<u8>,
    ) -> (ChannelView<S::Model, F::Model>, Result<TakeOutcome, ChannelFault>) {
        if v.sessions.contains_key(message_id) {
            let (s, r) = Session::<S>::taken(v.sessions[message_id], chunk_id, data);
            (
                ChannelView { sessions: v.sessions.insert(message_id, s), ..v },
                match r {
                    Ok(o) => Ok(o),
                    Err(e) => Err(ChannelFault::Session(e)),
                },
            )
        } else {
            (v, Err(ChannelFault::SessionNotFound(message_id)))
        }
    }

    /// Construct a new channel with the given factory.
    pub fn new(channel_id: ChannelId, factory: F) -> (r: Self)
        ensures
            r@ == Self::empty(channel_id@, factory.model()),
            Self::valid(r@),
    {
        Channel { channel_id, subscribers: KeySet::new(), sessions: Table::new(), factory }
    }

    /// Channel identifier.
    #[must_use]
    pub fn id(&self) -> (r: &ChannelId)
        ensures
            r@ == self@.id,
    {
        &self.channel_id
    }

    /// Add `peer` to the subscriber set and retroactively attach it to
    /// every active session.
    pub fn subscribe_peer(&mut self, peer: PeerId)
        requires
            Self::valid(old(self)@),
        ensures
            Self::valid(final(self)@),
            final(self)@ == Self::subscribed(old(self)@, peer),
    {
        if self.subscribers.insert(peer) {
            self.sessions.update_all(&Attach { peer });
            assert(self@.sessions =~= Self::subscribed(old(self)@, peer).sessions);
        }
        assert(self@ =~= Self::subscribed(old(self)@, peer));
    }

    /// Remove `peer` from the subscriber set and detach it from active
    /// sessions.
    pub fn unsubscribe_peer(&mut self, peer: PeerId)
        requires
            Self::valid(old(self)@),
        ensures
            Self::valid(final(self)@),
            final(self)@ == Self::unsubscribed(old(self)@, peer),
    {
        if self.subscribers.remove(&peer) {
            self.sessions.update_all(&Detach { peer });
            assert(self@.sessions =~= Self::unsubscribed(old(self)@, peer).sessions);
        }
        assert(self@ =~= Self::unsubscribed(old(self)@, peer));
    }

    /// Attaches all current subscribers to `session`.
    fn attach_subscribers(&self, session: &mut Session<S>)
        requires
            S::valid(old(session)@.strategy),
        ensures
            S::valid(final(session)@.strategy),
            final(session)@ == Session::<S>::attached_all(
                old(session)@,
                order::ascending(self@.subscribers),
            ),
    {
        let peers: Vec<PeerId> = order::ascending_items(&self.subscribers);
        let mut i: usize = 0;
        assert(peers@.take(0) =~= Seq::<PeerId>::empty());
        while i < peers.len()
            invariant
                i <= peers@.len(),
                S::valid(session@.strategy),
                session@ == Session::<S>::attached_all(old(session)@, peers@.take(i as int)),
            decreases peers@.len() - i,
        {
            proof {
                assert(peers@.take(i + 1).drop_last() =~= peers@.take(i as int));
                assert(peers@.take(i + 1).last() == peers@[i as int]);
            }
            session.attach_peer(peers[i]);
            i = i + 1;
        }
        assert(peers@.take(peers@.len() as int) =~= peers@);
    }

    /// Open a relay session for `(channel_id, message_id)` from the
    /// inbound preamble bytes. Attaches all current subscribers.
    pub fn open_session(&mut self, message_id: MessageId, preamble_bytes: Vec<u8>, reading: u32) -> (r: Result<
        (),
        ChannelError,
    >)
        requires
            Self::valid(old(self)@),
        ensures
            Self::valid(final(self)@),
            (final(self)@, faults(r)) == Self::opened(old(self)@, message_id@, preamble_bytes@, reading),
    {
        if self.sessions.contains(&message_id) {
            return Err(ChannelError::DuplicateSession(message_id));
        }
        let strategy = match self.factory.build(preamble_bytes, reading) {
            Ok(s) => s,
            Err(e) => {
                return Err(ChannelError::InvalidPreamble(e));
            },
        };
        let mut session = Session::new_relay(strategy);
        self.attach_subscribers(&mut session);
        self.sessions.insert(message_id, session);
        Ok(())
    }

    /// Register a pre-built origin session. Attaches all current
    /// subscribers.
    pub fn start_origin_session(&mut self, message_id: MessageId, strategy: S) -> (r: Result<(), ChannelError>)
        requires
            Self::valid(old(self)@),
            S::valid(strategy.model()),
        ensures
            Self::valid(final(self)@),
            (final(self)@, faults(r)) == Self::started(old(self)@, message_id@, strategy.model()),
    {
        if self.sessions.contains(&message_id) {
            return Err(ChannelError::DuplicateSession(message_id));
        }
        let mut session = Session::new_origin(strategy);
        self.attach_subscribers(&mut session);
        self.sessions.insert(message_id, session);
        Ok(())
    }

    /// Forward an inbound chunk to its session.
    pub fn take_chunk(&mut self, message_id: &MessageId, chunk_id: S::ChunkId, data: Vec<u8>) -> (r: Result<
        TakeOutcome,
        ChannelError,
    >)
        requires
            Self::valid(old(self)@),
        ensures
            Self::valid(final(self)@),
            (final(self)@, faults(r)) == Self::taken(old(self)@, message_id@, chunk_id, data@),
    {
        match self.sessions.get_mut(message_id) {
            Some(session) => match session.take_chunk(chunk_id, data) {
                Ok(o) => Ok(o),
                Err(e) => Err(ChannelError::Session(e)),
            },
            None => Err(ChannelError::SessionNotFound(message_id.dup())),
        }
    }

    /// Message ids of the sessions, in increasing order.
    pub fn session_ids(&self) -> (r: Vec<MessageId>)
        ensures
            order::spelled(r@) == order::alphabetical(self@.sessions.dom()),
    {
        let ids = self.sessions.keys();
        proof {
            assert(order::spelled(ids@).to_set() =~= self@.sessions.dom()) by {
                assert forall|k: Seq<char>| self@.sessions.contains_key(k) implies order::spelled(
                    ids@,
                ).to_set().contains(k) by {
                    let j = choose|j: int| 0 <= j < ids@.len() && (#[trigger] ids@[j])@ == k;
                    assert(order::spelled(ids@)[j] == k);
                }
                assert forall|k: Seq<char>| order::spelled(ids@).to_set().contains(k) implies self@.sessions.contains_key(
                k) by {
                    let j = choose|j: int| 0 <= j < ids@.len() && order::spelled(ids@)[j] == k;
                    assert(ids@[j]@ == k);
                }
            }
        }
        order::sort_names(&ids)
    }

    /// Remove (dispose) a session. Used by the engine's cleanup sweep; the
    /// engine records a tombstone so late traffic for it is ignored.
    pub fn remove_session(&mut self, message_id: &MessageId)
        requires
            Self::valid(old(self)@),
        ensures
            Self::valid(final(self)@),
            final(self)@ == (ChannelView {
                sessions: old(self)@.sessions.remove(message_id@),
                ..old(self)@
            }),
    {
        let _ = self.sessions.remove(message_id);
    }

    /// Whether there is a session for `message_id`.
    pub fn has_session(&self, message_id: &MessageId) -> (r: bool)
        ensures
            r == self@.sessions.contains_key(message_id@),
    {
        self.sessions.contains(message_id)
    }

    /// Look up a session mutably by message id.
    pub fn session_mut(&mut self, message_id: &MessageId) -> (r: Option<&mut Session<S>>)
        ensures
            match r {
                Some(s) => {
                    &&& old(self)@.sessions.contains_key(message_id@)
                    &&& s@ == old(self)@.sessions[message_id@]
                    &&& final(self)@ == (ChannelView {
                        sessions: old(self)@.sessions.insert(message_id@, final(s)@),
                        ..old(self)@
                    })
                },
                None => !old(self)@.sessions.contains_key(message_id@) && final(self)@ == old(self)@,
            },
    {
        self.sessions.get_mut(message_id)
    }

    /// Current subscriber set.
    #[must_use]
    pub fn subscribers(&self) -> (r: &KeySet<PeerId>)
        ensures
            r@ == self@.subscribers,
    {
        &self.subscribers
    }
}

} // verus!
