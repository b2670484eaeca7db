//! Top-level broadcast engine.
//!
//! Hosts channels, processes inbound [`NetEvent`]s, drives sessions,
//! and collects reconstructed payloads for delivery.
//!
//! The engine is monomorphic over a single strategy `S`; every operation that
//! sends takes the transport to send through, and every operation that
//! depends on time takes the current time. The wall clock, from which
//! strategies are seeded, is read once per step.

use vstd::prelude::*;

use crate::channel::{Channel, ChannelError, ChannelId, ChannelView, MessageId, StrategyFactory};
use crate::names;
use crate::order;
use crate::pb;
use crate::runtime::{Net, NetError, NetEvent, NetEventView, NetSend};
use crate::session::{Session, SessionError, SessionWork};
use crate::strategy::bitmap;
use crate::strategy::bitmap::BitMap;
use crate::strategy::dispatch;
use crate::strategy::dispatch::{ChunkDispatch, DispatchView};
use crate::strategy::rs::state;
use crate::strategy::{PeerId, Strategy};
use crate::table::{Change, Keep, Key, KeySet, Table};

pub mod broadcast;
pub mod conduct;
pub mod factory;
pub mod flow;
pub mod laws;
pub mod members;
pub mod model;
pub mod opens;
pub mod outcomes;
pub mod watch;

use model::{DeliveredView, EngineFault, EngineView, FrameView, ParkedView, World};

verus! {

/// Time or time span, in nanoseconds.
pub type Nanos = u64;

/// Tunables for session lifecycle and cleanup.
#[derive(Debug, Clone, Copy, PartialEq, Eq, Structural)]
pub struct EngineConfig {
    /// Maximum age of a session before it is disposed regardless of state.
    pub active_session_ttl: Nanos,
    /// Grace period after a session reaches a terminal state (reconstructed
    /// or failed) before disposal, to absorb straggler chunks.
    pub reconstructed_linger: Nanos,
    /// How long a disposed session's tombstone is retained (inbound opens or
    /// chunks for it are ignored) before the tombstone itself is swept.
    pub tombstone_ttl: Nanos,
    /// Minimum interval between cleanup sweeps.
    pub cleanup_interval: Nanos,
}

impl Default for EngineConfig {
    fn default() -> (r: Self)
        ensures
            r == (EngineConfig {
                active_session_ttl: 300_000_000_000,
                reconstructed_linger: 10_000_000_000,
                tombstone_ttl: 300_000_000_000,
                cleanup_interval: 30_000_000_000,
            }),
    {
        EngineConfig {
            active_session_ttl: 300_000_000_000,
            reconstructed_linger: 10_000_000_000,
            tombstone_ttl: 300_000_000_000,
            cleanup_interval: 30_000_000_000,
        }
    }
}

/// Per-session lifecycle metadata used by cleanup.
#[derive(Debug, Clone, Copy, PartialEq, Eq, Structural)]
pub struct SessionMeta {
    pub created_at: Nanos,
    /// Set when the session reaches a terminal state (reconstructed/failed).
    pub terminal_at: Option<Nanos>,
}

impl View for SessionMeta {
    type V = SessionMeta;

    open spec fn view(&self) -> SessionMeta {
        *self
    }
}

/// Maximum chunks buffered for a session whose `SessionOpen` has not arrived
/// yet. Over QUIC the per-chunk streams and the SESS stream are independent,
/// so a chunk can be accepted before its `Open`; parked chunks are replayed
/// once the session opens. Bounds the buffer against a peer flooding chunks
/// for a session it never opens.
pub const MAX_PARKED_CHUNKS_PER_MESSAGE: usize = 32;

/// How long a parked chunk is retained before the cleanup sweep drops it.
pub const PARKED_CHUNK_TTL: Nanos = 10_000_000_000;

/// The protocol version this engine speaks.
pub const PROTOCOL_VERSION: u32 = 1;

/// A chunk received before its session's `SessionOpen`, held for replay.
pub struct ParkedChunk {
    chunk_id: u32,
    payload: Vec<u8>,
    parked_at: Nanos,
}

impl View for ParkedChunk {
    type V = ParkedView;

    closed spec fn view(&self) -> ParkedView {
        ParkedView { chunk_id: self.chunk_id, payload: self.payload@, parked_at: self.parked_at }
    }
}

/// Chunks parked for one session, oldest first.
pub struct ParkedBuffer {
    chunks: Vec<ParkedChunk>,
}

impl View for ParkedBuffer {
    type V = Seq<ParkedView>;

    closed spec fn view(&self) -> Seq<ParkedView> {
        self.chunks@.map_values(|c: ParkedChunk| c@)
    }
}

/// A control frame that belongs to no session.
pub enum Frame {
    Handshake { peer: PeerId },
    Subscribe { peer: PeerId, channel: ChannelId },
}

impl View for Frame {
    type V = FrameView;

    open spec fn view(&self) -> FrameView {
        match self {
            Frame::Handshake { peer } => FrameView::Handshake { peer: *peer },
            Frame::Subscribe { peer, channel } => FrameView::Subscribe {
                peer: *peer,
                channel: channel@,
            },
        }
    }
}

impl Frame {
    /// The peer it is for.
    fn peer(&self) -> (r: PeerId)
        ensures
            r == self@.peer(),
    {
        match self {
            Frame::Handshake { peer } => *peer,
            Frame::Subscribe { peer, .. } => *peer,
        }
    }
}

/// Contents of control frames.
pub open spec fn frames(v: Seq<Frame>) -> Seq<FrameView> {
    v.map_values(|f: Frame| f@)
}

/// Reconstructed payload delivered to the application.
#[derive(Debug, Clone, PartialEq, Eq)]
pub struct DeliveredMessage {
    pub channel_id: ChannelId,
    pub message_id: MessageId,
    pub payload: Vec<u8>,
}

impl View for DeliveredMessage {
    type V = DeliveredView;

    open spec fn view(&self) -> DeliveredView {
        DeliveredView {
            channel_id: self.channel_id@,
            message_id: self.message_id@,
            payload: self.payload@,
        }
    }
}

/// Contents of a list of deliveries.
pub open spec fn deliveries(v: Seq<DeliveredMessage>) -> Seq<DeliveredView> {
    v.map_values(|d: DeliveredMessage| d@)
}

/// Result of a single step of the event loop.
#[derive(Debug, Clone, Copy, PartialEq, Eq, Structural)]
pub enum StepResult {
    /// An event was processed.
    Processed,
    /// Net stream terminated.
    Closed,
}

/// Errors raised by engine operations.
#[derive(Debug)]
pub enum EngineError {
    Net(NetError),
    Channel(ChannelError),
    UnknownChannel(ChannelId),
    /// `publish` was called with an empty payload.
    EmptyPayload,
}

impl View for EngineError {
    type V = EngineFault;

    open spec fn view(&self) -> EngineFault {
        match *self {
            EngineError::Net(e) => EngineFault::Net(e),
            EngineError::Channel(e) => EngineFault::Channel(e@),
            EngineError::UnknownChannel(c) => EngineFault::UnknownChannel(c@),
            EngineError::EmptyPayload => EngineFault::EmptyPayload,
        }
    }
}

/// A result whose error is given by its contents.
pub open spec fn faults<T>(r: Result<T, EngineError>) -> Result<T, EngineFault> {
    match r {
        Ok(t) => Ok(t),
        Err(e) => Err(e@),
    }
}

/// Contents of an event, if there is one.
pub open spec fn contents(event: Option<NetEvent>) -> Option<NetEventView> {
    match event {
        Some(e) => Some(e@),
        None => None,
    }
}

/// Top-level engine.
pub struct Engine<S: Strategy<ChunkId = u32, RoutingUpdate = BitMap>, F: StrategyFactory<S>> {
    local_peer: PeerId,
    local_peer_str: String,
    channels: Table<ChannelId, Channel<S, F>>,
    connected: KeySet<PeerId>,
    delivered: Vec<DeliveredMessage>,
    /// Chunks dispatched to the wire and awaiting their honest outcome.
    /// Key `(channel, message_id, token)` where `token` is the session
    /// dispatch handle passed in [`NetSend::Chunk`]; value is the target
    /// peer. Resolved (and removed) by [`NetEvent::ChunkSendResult`].
    pending_sends: Table<(ChannelId, MessageId, u64), PeerId>,
    /// Handshakes and subscriptions for which the transport had no room.
    /// Retried on the next drain.
    owed_frames: Vec<Frame>,
    /// Routing updates for which the transport had no room, by session and
    /// peer.
    /// Retried when the session is drained next.
    due_routing: Table<(ChannelId, MessageId, u64), Vec<u8>>,
    /// Preamble bytes retained per active session so a `SessionOpen` can be
    /// (re-)sent to any subscriber, not only at origin-publish time. Required
    /// for relays, which must open a SESS to their own subscribers before
    /// forwarding routing/chunks. Cleared when the session is disposed.
    session_preambles: Table<(ChannelId, MessageId), Vec<u8>>,
    /// Peers we have already sent a `SessionOpen` for a given session, so it
    /// is emitted at most once per (session, peer).
    opened_to: Table<(ChannelId, MessageId), KeySet<PeerId>>,
    /// Cleanup tunables.
    config: EngineConfig,
    /// Per-session lifecycle metadata for GC.
    session_meta: Table<(ChannelId, MessageId), SessionMeta>,
    /// Disposed sessions; inbound opens/chunks for them are ignored until the
    /// tombstone is swept. Prevents a straggling relay from resurrecting a
    /// finished session.
    tombstones: Table<(ChannelId, MessageId), Nanos>,
    /// Chunks received before their session's `SessionOpen` (possible over
    /// QUIC, where a per-chunk stream can be accepted before the SESS stream).
    /// Replayed when the open arrives; swept by TTL otherwise.
    parked_chunks: Table<(ChannelId, MessageId), ParkedBuffer>,
    /// Time of the next cleanup sweep.
    next_cleanup: Nanos,
}

impl<S: Strategy<ChunkId = u32, RoutingUpdate = BitMap>, F: StrategyFactory<S>> View for Engine<S, F> {
    type V = EngineView<S::Model, F::Model>;

    closed spec fn view(&self) -> EngineView<S::Model, F::Model> {
        EngineView {
            local_peer: self.local_peer,
            name: self.local_peer_str@,
            channels: self.channels@,
            connected: self.connected@,
            delivered: deliveries(self.delivered@),
            pending: self.pending_sends@,
            owed: frames(self.owed_frames@),
            due: self.due_routing@,
            preambles: self.session_preambles@,
            opened: self.opened_to@,
            config: self.config,
            meta: self.session_meta@,
            tombstones: self.tombstones@,
            parked: self.parked_chunks@,
            next_cleanup: self.next_cleanup,
        }
    }
}

/// Key of a session.
fn key_of(channel: &ChannelId, message_id: &MessageId) -> (r: (ChannelId, MessageId))
    ensures
        r@ == (channel@, message_id@),
{
    (channel.dup(), message_id.dup())
}

impl<S: Strategy<ChunkId = u32, RoutingUpdate = BitMap>, F: StrategyFactory<S>> Engine<S, F> {
    /// Construct an engine with default cleanup config, started at `now`.
    pub fn new(local_peer: PeerId, now: Nanos) -> (r: Self)
        ensures
            Self::valid(r@),
            r@ == EngineView::<S::Model, F::Model>::idle(
                local_peer,
                EngineConfig {
                    active_session_ttl: 300_000_000_000,
                    reconstructed_linger: 10_000_000_000,
                    tombstone_ttl: 300_000_000_000,
                    cleanup_interval: 30_000_000_000,
                },
                now,
            ),
    {
        Self::with_config(local_peer, EngineConfig::default(), now)
    }

    /// Construct an engine with an explicit cleanup config, started at `now`.
    pub fn with_config(local_peer: PeerId, config: EngineConfig, now: Nanos) -> (r: Self)
        ensures
            Self::valid(r@),
            r@ == EngineView::<S::Model, F::Model>::idle(local_peer, config, now),
    {
        let r = Engine {
            local_peer,
            local_peer_str: names::name_of_peer(local_peer),
            channels: Table::new(),
            connected: KeySet::new(),
            delivered: Vec::new(),
            pending_sends: Table::new(),
            owed_frames: Vec::new(),
            due_routing: Table::new(),
            session_preambles: Table::new(),
            opened_to: Table::new(),
            config,
            session_meta: Table::new(),
            tombstones: Table::new(),
            parked_chunks: Table::new(),
            next_cleanup: now.saturating_add(config.cleanup_interval),
        };
        assert(r@.delivered =~= Seq::<DeliveredView>::empty());
        assert(r@.owed =~= Seq::<FrameView>::empty());
        r
    }

    /// The peer this engine runs as.
    pub fn local_peer(&self) -> (r: PeerId)
        ensures
            r == self@.local_peer,
    {
        self.local_peer
    }

    /// Number of live sessions across all channels. Plateaus once cleanup is
    /// keeping pace, so it doubles as a memory-health metric.
    #[must_use]
    pub fn active_session_count(&self) -> (r: usize)
        ensures
            r == self@.meta.dom().len(),
    {
        self.session_meta.len()
    }

    /// Hands out the payloads reconstructed since the last call, oldest first.
    pub fn take_delivered(&mut self) -> (r: Vec<DeliveredMessage>)
        requires
            Self::valid(old(self)@),
        ensures
            Self::valid(final(self)@),
            deliveries(r@) == old(self)@.delivered,
            final(self)@ == (EngineView { delivered: Seq::empty(), ..old(self)@ }),
    {
        let mut out: Vec<DeliveredMessage> = Vec::new();
        core::mem::swap(&mut out, &mut self.delivered);
        assert(self@.delivered =~= Seq::<DeliveredView>::empty());
        assert(self@.channels == old(self)@.channels);
        out
    }

    /// Register a local subscription to `channel_id`. The provided
    /// `factory` constructs relay strategies from inbound preambles; a
    /// channel that is hosted already keeps its own.
    /// All connected peers receive a `Subscribe` frame.
    pub fn subscribe<N: Net>(&mut self, net: &mut N, channel_id: ChannelId, factory: F) -> (r: Result<(), EngineError>)
        requires
            Self::valid(old(self)@),
        ensures
            Self::valid(final(self)@),
            ({
                let w = World {
                    engine: Self::hosting(old(self)@, channel_id@, factory.model()),
                    net: old(net).model(),
                };
                let (after, answer) = Self::announced::<N>(
                    w,
                    channel_id@,
                    order::ascending(old(self)@.connected),
                );
                &&& final(self).world(*final(net)) == after
                &&& match answer {
                    Ok(()) => r is Ok,
                    Err(e) => faults(r) == Err::<(), EngineFault>(EngineFault::Net(e)),
                }
            }),
    {
        if !self.channels.contains(&channel_id) {
            self.channels.insert(channel_id.dup(), Channel::new(channel_id.dup(), factory));
        }
        assert(self@ =~= Self::hosting(old(self)@, channel_id@, factory.model()));
        let ghost start = self.world(*net);
        let peers: Vec<PeerId> = order::ascending_items(&self.connected);
        let ghost goal = Self::announced::<N>(start, channel_id@, peers@);
        let mut full: Option<NetError> = None;
        let mut i: usize = 0;
        assert(peers@.skip(0) =~= peers@);
        while i < peers.len()
            invariant
                i <= peers@.len(),
                Self::valid(self@),
                peers@ == order::ascending(old(self)@.connected),
                start == (World {
                    engine: Self::hosting(old(self)@, channel_id@, factory.model()),
                    net: old(net).model(),
                }),
                goal == Self::announced::<N>(start, channel_id@, peers@),
                full matches Some(e) ==> e is Backpressure,
                ({
                    let (w, rest) = Self::announced::<N>(
                        self.world(*net),
                        channel_id@,
                        peers@.skip(i as int),
                    );
                    goal == (
                        w,
                        match full {
                            Some(e) => model::overall(Err(e), rest),
                            None => rest,
                        },
                    )
                }),
            decreases peers@.len() - i,
        {
            assert(peers@.skip(i as int).drop_first() =~= peers@.skip(i + 1));
            let frame = Frame::Subscribe { peer: peers[i], channel: channel_id.dup() };
            if let Err(e) = self.send_frame(net, frame) {
                if !matches!(e, NetError::Backpressure(_)) {
                    return Err(EngineError::Net(e));
                }
                if full.is_none() {
                    full = Some(e);
                }
            }
            i = i + 1;
        }
        match full {
            Some(e) => Err(EngineError::Net(e)),
            None => Ok(()),
        }
    }

    /// Register a peer connection and send the BCAST handshake. Called
    /// directly by the sim/tests; the transport instead reports
    /// [`NetEvent::PeerConnected`], which drives the same path.
    pub fn connect<N: Net>(&mut self, net: &mut N, peer: PeerId) -> (r: Result<(), EngineError>)
        requires
            Self::valid(old(self)@),
        ensures
            Self::valid(final(self)@),
            ({
                let (after, answer) = Self::introduced::<N>(old(self).world(*old(net)), peer);
                &&& final(self).world(*final(net)) == after
                &&& match answer {
                    Ok(()) => r is Ok,
                    Err(e) => faults(r) == Err::<(), EngineFault>(EngineFault::Net(e)),
                }
            }),
    {
        match self.register_peer_and_handshake(net, peer) {
            Ok(()) => Ok(()),
            Err(e) => Err(EngineError::Net(e)),
        }
    }

    /// Publish a payload as an origin on `channel_id`. Caller supplies
    /// a pre-built strategy plus the encoded preamble bytes.
    ///
    /// The engine registers the origin session, attaches connected
    /// subscribed peers, and emits `SessionOpen` followed by an
    /// initial drain of outbound work.
    pub fn publish<N: Net>(
        &mut self,
        net: &mut N,
        channel_id: &ChannelId,
        message_id: MessageId,
        strategy: S,
        preamble_bytes: Vec<u8>,
        now: Nanos,
    ) -> (r: Result<(), EngineError>)
        requires
            Self::valid(old(self)@),
            S::valid(strategy.model()),
        ensures
            Self::valid(final(self)@),
            (final(self).world(*final(net)), faults(r)) == Self::published::<N>(
                old(self).world(*old(net)),
                (channel_id@, message_id@),
                strategy.model(),
                preamble_bytes@,
                now,
            ),
    {
        let subscribers: Vec<PeerId> = match self.channels.get_mut(channel_id) {
            Some(channel) => {
                assert(old(self)@.channels.contains_key(channel_id@));
                if let Err(e) = channel.start_origin_session(message_id.dup(), strategy) {
                    assert(self@.channels =~= old(self)@.channels);
                    return Err(EngineError::Channel(e));
                }
                order::ascending_items(channel.subscribers())
            },
            None => {
                return Err(EngineError::UnknownChannel(channel_id.dup()));
            },
        };
        // Retain the preamble so relays (and late subscribers) can be sent a
        // SessionOpen on demand from `drain_session`.
        self.session_preambles.insert(key_of(channel_id, &message_id), preamble_bytes);
        self.record_session_created(channel_id, &message_id, now);
        // Open SESS streams to all currently-subscribed peers.
        if let Err(e) = self.ensure_all(net, channel_id, &message_id, &subscribers) {
            return Err(EngineError::Net(e));
        }
        // Drain outbound work for the new session.
        match self.drain_session(net, channel_id, &message_id) {
            Ok(()) => Ok(()),
            Err(e) => Err(EngineError::Net(e)),
        }
    }

    /// What a step does: it handles the event, if there is one, and then runs
    /// the sweep that is due.
    pub open spec fn stepped<N: Net>(
        w: World<S::Model, F::Model, N::Model>,
        event: Option<NetEventView>,
        now: Nanos,
        reading: u32,
    ) -> World<S::Model, F::Model, N::Model> {
        match event {
            Some(e) => {
                let after = Self::handled::<N>(w, e, now, reading);
                World { engine: after.engine.cleaned(now), ..after }
            },
            None => w,
        }
    }

    /// A step leads from `w` to `after`, and a session that it completes has
    /// its payload delivered.
    pub open spec fn steps<N: Net>(
        w: World<S::Model, F::Model, N::Model>,
        event: Option<NetEventView>,
        now: Nanos,
        reading: u32,
        after: World<S::Model, F::Model, N::Model>,
    ) -> bool {
        &&& after == Self::stepped::<N>(w, event, now, reading)
        &&& event matches Some(e) ==> (laws::completes::<S, F, N>(w, e, now, reading) matches Some(
            (id, done),
        ) ==> laws::delivers::<S, F::Model>(
            done,
            id,
            w.engine.delivered,
            after.engine.delivered,
        ))
    }

    /// Process the next inbound event, if there is one, and then run the
    /// cleanup sweep that is due, if one is: piggybacking the sweep on event
    /// processing leaves a single event loop and keeps simulations
    /// deterministic. Returns `Closed` if the events have terminated.
    ///
    /// Strategies constructed on the way are seeded from the wall clock, which
    /// is read for this step; [`Self::run_step_at`] takes the reading.
    pub fn run_one_step<N: Net>(&mut self, net: &mut N, event: Option<NetEvent>, now: Nanos) -> (r: Result<
        StepResult,
        EngineError,
    >)
        requires
            Self::valid(old(self)@),
        ensures
            Self::valid(final(self)@),
            r == Ok::<StepResult, EngineError>(
                match event {
                    Some(_) => StepResult::Processed,
                    None => StepResult::Closed,
                },
            ),
            exists|reading: u32|
                reading < 1_000_000_000 && #[trigger] Self::steps::<N>(
                    old(self).world(*old(net)),
                    contents(event),
                    now,
                    reading,
                    final(self).world(*final(net)),
                ),
    {
        let reading: u32 = state::clock_nanos();
        self.run_step_at(net, event, now, reading)
    }

    /// [`Self::run_one_step`] when the wall clock is `reading` nanoseconds
    /// into its second.
    pub fn run_step_at<N: Net>(
        &mut self,
        net: &mut N,
        event: Option<NetEvent>,
        now: Nanos,
        reading: u32,
    ) -> (r: Result<StepResult, EngineError>)
        requires
            Self::valid(old(self)@),
        ensures
            Self::valid(final(self)@),
            r == Ok::<StepResult, EngineError>(
                match event {
                    Some(_) => StepResult::Processed,
                    None => StepResult::Closed,
                },
            ),
            Self::steps::<N>(
                old(self).world(*old(net)),
                contents(event),
                now,
                reading,
                final(self).world(*final(net)),
            ),
    {
        match event {
            Some(e) => {
                self.handle_event(net, e, now, reading);
                self.maybe_run_cleanup(now);
                Ok(StepResult::Processed)
            },
            None => Ok(StepResult::Closed),
        }
    }
}

impl<S: Strategy<ChunkId = u32, RoutingUpdate = BitMap>, F: StrategyFactory<S>> Engine<S, F> {
    /// An engine and a transport together.
    pub open spec fn world<N: Net>(&self, net: N) -> World<S::Model, F::Model, N::Model> {
        World { engine: self@, net: net.model() }
    }

    /// Send `peer` a `SessionOpen` for this session if we have not already,
    /// using the retained preamble. Idempotent per (session, peer); a no-op
    /// when the peer was already opened or no preamble is retained.
    fn ensure_session_open<N: Net>(
        &mut self,
        net: &mut N,
        channel_id: &ChannelId,
        message_id: &MessageId,
        peer: PeerId,
    ) -> (r: Result<(), NetError>)
        ensures
            (final(self).world(*final(net)), r) == Self::ensured::<N>(
                old(self).world(*old(net)),
                (channel_id@, message_id@),
                peer,
            ),
    {
        let key = key_of(channel_id, message_id);
        if let Some(set) = self.opened_to.get(&key) {
            if set.contains(&peer) {
                return Ok(());
            }
        }
        let preamble: Vec<u8> = match self.session_preambles.get(&key) {
            Some(p) => pb::copy_bytes(p.as_slice()),
            None => {
                return Ok(());
            },
        };
        let msg = NetSend::SessionOpen {
            peer,
            channel: channel_id.dup(),
            message_id: message_id.dup(),
            preamble,
            initial_update: Vec::new(),
        };
        match net.send(msg) {
            Ok(()) => {
                let set = self.opened_to.entry(key, KeySet::new());
                set.insert(peer);
                Ok(())
            },
            Err(e) => Err(e),
        }
    }

    /// Opens the session to each of `peers`, up to the first failure.
    fn ensure_all<N: Net>(
        &mut self,
        net: &mut N,
        channel_id: &ChannelId,
        message_id: &MessageId,
        peers: &Vec<PeerId>,
    ) -> (r: Result<(), NetError>)
        requires
            Self::valid(old(self)@),
        ensures
            Self::valid(final(self)@),
            (final(self).world(*final(net)), r) == Self::ensured_all::<N>(
                old(self).world(*old(net)),
                (channel_id@, message_id@),
                peers@,
            ),
    {
        let ghost start = Self::ensured_all::<N>(self.world(*net), (channel_id@, message_id@), peers@);
        let mut i: usize = 0;
        assert(peers@.skip(0) =~= peers@);
        while i < peers.len()
            invariant
                i <= peers@.len(),
                Self::valid(self@),
                start == Self::ensured_all::<N>(
                    old(self).world(*old(net)),
                    (channel_id@, message_id@),
                    peers@,
                ),
                start == Self::ensured_all::<N>(
                    self.world(*net),
                    (channel_id@, message_id@),
                    peers@.skip(i as int),
                ),
            decreases peers@.len() - i,
        {
            assert(peers@.skip(i as int).drop_first() =~= peers@.skip(i + 1));
            if let Err(e) = self.ensure_session_open(net, channel_id, message_id, peers[i]) {
                return Err(e);
            }
            i = i + 1;
        }
        Ok(())
    }

    /// Sends a control frame. One for which the transport has no room is owed.
    fn send_frame<N: Net>(&mut self, net: &mut N, frame: Frame) -> (r: Result<(), NetError>)
        requires
            Self::valid(old(self)@),
        ensures
            Self::valid(final(self)@),
            (final(self).world(*final(net)), r) == Self::frame_sent::<N>(
                old(self).world(*old(net)),
                frame@,
            ),
    {
        let msg = match &frame {
            Frame::Handshake { peer } => NetSend::Handshake {
                peer: *peer,
                version: PROTOCOL_VERSION,
                channels: self.channel_ids(),
                peer_id: self.local_peer_str.dup(),
            },
            Frame::Subscribe { peer, channel } => NetSend::Subscribe {
                peer: *peer,
                channel: channel.dup(),
            },
        };
        assert(msg@ =~= Self::frame_message(old(self)@, frame@));
        let answer = net.send(msg);
        if let Err(NetError::Backpressure(_)) = answer {
            self.owed_frames.push(frame);
            assert(frames(self.owed_frames@) =~= frames(old(self).owed_frames@).push(frame@));
        }
        assert(self@.channels == old(self)@.channels);
        answer
    }

    /// Sends again the control frames that are owed.
    fn catch_up<N: Net>(&mut self, net: &mut N)
        requires
            Self::valid(old(self)@),
        ensures
            Self::valid(final(self)@),
            final(self)@.channels == old(self)@.channels,
            final(self).world(*final(net)) == Self::caught_up::<N>(old(self).world(*old(net))),
    {
        let ghost goal = Self::caught_up::<N>(self.world(*net));
        let mut rest: Vec<Frame> = Vec::new();
        core::mem::swap(&mut rest, &mut self.owed_frames);
        assert(frames(self.owed_frames@) =~= Seq::<FrameView>::empty());
        while rest.len() > 0
            invariant
                Self::valid(self@),
                self@.channels == old(self)@.channels,
                goal == Self::caught_up::<N>(old(self).world(*old(net))),
                goal == Self::frames_sent::<N>(self.world(*net), frames(rest@)),
            decreases rest@.len(),
        {
            let ghost before = rest@;
            let frame = rest.remove(0);
            assert(frames(before).drop_first() =~= frames(rest@));
            let _ = self.send_frame(net, frame);
        }
    }

    /// Sends a routing update to one peer. An update for which the transport
    /// has no room is due.
    fn send_update<N: Net>(
        &mut self,
        net: &mut N,
        channel_id: &ChannelId,
        message_id: &MessageId,
        peer: PeerId,
        payload: &Vec<u8>,
    ) -> (r: Result<(), NetError>)
        ensures
            (final(self).world(*final(net)), r) == Self::update_sent::<N>(
                old(self).world(*old(net)),
                (channel_id@, message_id@),
                peer,
                payload@,
            ),
    {
        let key = (channel_id.dup(), message_id.dup(), peer);
        // A routing update rides the SESS stream, which must be
        // opened first (crucial for relays, which have not yet
        // sent their subscribers a SessionOpen).
        let answer = match self.ensure_session_open(net, channel_id, message_id, peer) {
            Ok(()) => net.send(
                NetSend::RoutingUpdate {
                    peer,
                    channel: channel_id.dup(),
                    message_id: message_id.dup(),
                    payload: pb::copy_bytes(payload.as_slice()),
                },
            ),
            Err(e) => Err(e),
        };
        if let Err(NetError::Backpressure(_)) = answer {
            self.due_routing.insert(key, pb::copy_bytes(payload.as_slice()));
        } else {
            let _ = self.due_routing.remove(&key);
        }
        answer
    }

    /// Sends a routing update to each of `peers`, up to the first failure
    /// other than a lack of room; the result is the first lack of room, or
    /// that failure.
    fn send_routing<N: Net>(
        &mut self,
        net: &mut N,
        channel_id: &ChannelId,
        message_id: &MessageId,
        peers: &Vec<PeerId>,
        payload: &Vec<u8>,
    ) -> (r: Result<(), NetError>)
        ensures
            (final(self).world(*final(net)), r) == Self::routing_sent::<N>(
                old(self).world(*old(net)),
                (channel_id@, message_id@),
                peers@,
                payload@,
            ),
    {
        let ghost id = (channel_id@, message_id@);
        let ghost start = Self::routing_sent::<N>(self.world(*net), id, peers@, payload@);
        let mut full: Option<NetError> = None;
        let mut i: usize = 0;
        assert(peers@.skip(0) =~= peers@);
        while i < peers.len()
            invariant
                i <= peers@.len(),
                id == (channel_id@, message_id@),
                start == Self::routing_sent::<N>(old(self).world(*old(net)), id, peers@, payload@),
                full matches Some(e) ==> e is Backpressure,
                ({
                    let (w, rest) = Self::routing_sent::<N>(
                        self.world(*net),
                        id,
                        peers@.skip(i as int),
                        payload@,
                    );
                    start == (
                        w,
                        match full {
                            Some(e) => model::overall(Err(e), rest),
                            None => rest,
                        },
                    )
                }),
            decreases peers@.len() - i,
        {
            assert(peers@.skip(i as int).drop_first() =~= peers@.skip(i + 1));
            let answer = self.send_update(net, channel_id, message_id, peers[i], payload);
            if let Err(e) = answer {
                if !matches!(e, NetError::Backpressure(_)) {
                    return Err(e);
                }
                if full.is_none() {
                    full = Some(e);
                }
            }
            i = i + 1;
        }
        match full {
            Some(e) => Err(e),
            None => Ok(()),
        }
    }

    /// Sends again the routing updates of a session that are due, up to the
    /// first failure other than a lack of room.
    fn send_due<N: Net>(&mut self, net: &mut N, channel_id: &ChannelId, message_id: &MessageId) -> (r: Result<
        (),
        NetError,
    >)
        requires
            Self::valid(old(self)@),
            old(self)@.channels.contains_key(channel_id@),
        ensures
            Self::valid(final(self)@),
            final(self)@.channels == old(self)@.channels,
            (final(self).world(*final(net)), r) == Self::due_sent::<N>(
                old(self).world(*old(net)),
                (channel_id@, message_id@),
                order::ascending(old(self)@.channels[channel_id@].subscribers),
            ),
    {
        let ghost id = (channel_id@, message_id@);
        let peers: Vec<PeerId> = match self.channels.get(channel_id) {
            Some(c) => order::ascending_items(c.subscribers()),
            None => Vec::new(),
        };
        let ghost start = Self::due_sent::<N>(self.world(*net), id, peers@);
        let mut i: usize = 0;
        assert(peers@.skip(0) =~= peers@);
        while i < peers.len()
            invariant
                i <= peers@.len(),
                id == (channel_id@, message_id@),
                Self::valid(self@),
                self@.channels == old(self)@.channels,
                peers@ == order::ascending(old(self)@.channels[channel_id@].subscribers),
                start == Self::due_sent::<N>(old(self).world(*old(net)), id, peers@),
                start == Self::due_sent::<N>(self.world(*net), id, peers@.skip(i as int)),
            decreases peers@.len() - i,
        {
            assert(peers@.skip(i as int).drop_first() =~= peers@.skip(i + 1));
            let key = (channel_id.dup(), message_id.dup(), peers[i]);
            let update: Option<Vec<u8>> = match self.due_routing.get(&key) {
                Some(u) => Some(pb::copy_bytes(u.as_slice())),
                None => None,
            };
            if let Some(payload) = update {
                if let Err(e) = self.send_update(net, channel_id, message_id, peers[i], &payload) {
                    if !matches!(e, NetError::Backpressure(_)) {
                        return Err(e);
                    }
                }
            }
            i = i + 1;
        }
        Ok(())
    }

    /// Reports the outcome of a dispatch to its session.
    fn report(&mut self, channel_id: &ChannelId, message_id: &MessageId, peer: PeerId, handle: u64, ok: bool)
        requires
            Self::valid(old(self)@),
        ensures
            Self::valid(final(self)@),
            final(self)@ == Self::reported(
                old(self)@,
                (channel_id@, message_id@),
                peer,
                handle,
                ok,
            ),
    {
        if let Some(c) = self.channels.get_mut(channel_id) {
            if let Some(session) = c.session_mut(message_id) {
                session.chunk_sent(peer, handle, ok);
            }
        }
        assert(self@ =~= Self::reported(old(self)@, (channel_id@, message_id@), peer, handle, ok));
    }

    /// Reports dispatches that were not sent as failed.
    fn refund(&mut self, channel_id: &ChannelId, message_id: &MessageId, dispatches: &Vec<ChunkDispatch<u32>>)
        requires
            Self::valid(old(self)@),
        ensures
            Self::valid(final(self)@),
            final(self)@ == Self::refunded(
                old(self)@,
                (channel_id@, message_id@),
                dispatch::dispatches(dispatches@),
            ),
    {
        let ghost id = (channel_id@, message_id@);
        let ghost all = dispatch::dispatches(dispatches@);
        let mut i: usize = 0;
        assert(all.skip(0) =~= all);
        while i < dispatches.len()
            invariant
                i <= dispatches@.len(),
                id == (channel_id@, message_id@),
                all == dispatch::dispatches(dispatches@),
                Self::valid(self@),
                Self::refunded(old(self)@, id, all) == Self::refunded(self@, id, all.skip(i as int)),
            decreases dispatches@.len() - i,
        {
            assert(all.skip(i as int).drop_first() =~= all.skip(i + 1));
            assert(all.skip(i as int)[0] == dispatches@[i as int]@);
            self.report(channel_id, message_id, dispatches[i].peer, dispatches[i].handle, false);
            i = i + 1;
        }
    }

    /// Refunds the dispatches of a failed send where the transport had no
    /// room.
    fn abandon(
        &mut self,
        channel_id: &ChannelId,
        message_id: &MessageId,
        dispatches: &Vec<ChunkDispatch<u32>>,
        failure: NetError,
    )
        requires
            Self::valid(old(self)@),
        ensures
            Self::valid(final(self)@),
            final(self)@ == Self::abandoned(
                old(self)@,
                (channel_id@, message_id@),
                dispatch::dispatches(dispatches@),
                failure,
            ),
    {
        if let NetError::Backpressure(_) = failure {
            self.refund(channel_id, message_id, dispatches);
        }
    }

    /// Sends the chunk of a dispatch; the result tells whether it was
    /// refunded.
    fn send_chunk<N: Net>(
        &mut self,
        net: &mut N,
        channel_id: &ChannelId,
        message_id: &MessageId,
        d: ChunkDispatch<u32>,
    ) -> (r: bool)
        requires
            Self::valid(old(self)@),
        ensures
            Self::valid(final(self)@),
            (final(self).world(*final(net)), r) == Self::chunk_sent::<N>(
                old(self).world(*old(net)),
                (channel_id@, message_id@),
                d@,
            ),
    {
        let peer: PeerId = d.peer;
        let handle: u64 = d.handle;
        let msg = NetSend::Chunk {
            peer,
            channel: channel_id.dup(),
            message_id: message_id.dup(),
            chunk_id: d.chunk_id,
            payload: d.payload,
            token: handle,
        };
        match net.send(msg) {
            Ok(()) => {
                // The chunk entered the transport. Its honest outcome
                // arrives later as `ChunkSendResult` carrying the token.
                self.pending_sends.insert((channel_id.dup(), message_id.dup(), handle), peer);
                false
            },
            Err(_) => {
                // The send never reached the wire (peer's queue full, or
                // peer gone). Refund the in-flight allocation so the shard
                // is re-planned.
                self.report(channel_id, message_id, peer, handle, false);
                true
            },
        }
    }

    /// Sends dispatches, opening the session to their peers first. Where that
    /// fails for lack of room, the dispatches that are left are refunded. The
    /// result tells whether a chunk was refunded.
    fn send_chunks<N: Net>(
        &mut self,
        net: &mut N,
        channel_id: &ChannelId,
        message_id: &MessageId,
        dispatches: Vec<ChunkDispatch<u32>>,
    ) -> (r: Result<bool, NetError>)
        requires
            Self::valid(old(self)@),
        ensures
            Self::valid(final(self)@),
            (final(self).world(*final(net)), r) == Self::chunks_sent::<N>(
                old(self).world(*old(net)),
                (channel_id@, message_id@),
                dispatch::dispatches(dispatches@),
                false,
            ),
    {
        let ghost id = (channel_id@, message_id@);
        let ghost all = dispatch::dispatches(dispatches@);
        let ghost start = Self::chunks_sent::<N>(self.world(*net), id, all, false);
        let mut rest: Vec<ChunkDispatch<u32>> = dispatches;
        let mut stalled: bool = false;
        while rest.len() > 0
            invariant
                Self::valid(self@),
                id == (channel_id@, message_id@),
                all == dispatch::dispatches(dispatches@),
                start == Self::chunks_sent::<N>(old(self).world(*old(net)), id, all, false),
                start == Self::chunks_sent::<N>(
                    self.world(*net),
                    id,
                    dispatch::dispatches(rest@),
                    stalled,
                ),
            decreases rest@.len(),
        {
            let ghost before = rest@;
            let peer: PeerId = rest[0].peer;
            assert(dispatch::dispatches(before)[0] == before[0]@);
            if let Err(e) = self.ensure_session_open(net, channel_id, message_id, peer) {
                self.abandon(channel_id, message_id, &rest, e);
                return Err(e);
            }
            let d = rest.remove(0);
            assert(dispatch::dispatches(before).drop_first() =~= dispatch::dispatches(rest@));
            let refunded: bool = self.send_chunk(net, channel_id, message_id, d);
            stalled = stalled || refunded;
        }
        Ok(stalled)
    }

    /// Polls a session, if it exists.
    fn poll_session(&mut self, channel_id: &ChannelId, message_id: &MessageId) -> (r: Option<SessionWork<S>>)
        requires
            Self::valid(old(self)@),
        ensures
            Self::valid(final(self)@),
            match old(self)@.session((channel_id@, message_id@)) {
                Some(s) => {
                    let (s1, routing, ds) = Session::<S>::polled(s);
                    &&& final(self)@ == old(self)@.with_session((channel_id@, message_id@), s1)
                    &&& r is Some
                    &&& dispatch::dispatches(r->0.dispatches@) == ds
                    &&& match r->0.routing {
                        Some(u) => routing == Some(u@),
                        None => routing is None,
                    }
                },
                None => r is None && final(self)@ == old(self)@,
            },
    {
        let mut work: Option<SessionWork<S>> = None;
        if let Some(c) = self.channels.get_mut(channel_id) {
            if let Some(session) = c.session_mut(message_id) {
                work = Some(session.poll());
            }
        }
        proof {
            let id = (channel_id@, message_id@);
            match old(self)@.session(id) {
                Some(s) => {
                    assert(self@ =~= old(self)@.with_session(id, Session::<S>::polled(s).0));
                },
                None => {
                    assert(self@ =~= old(self)@);
                },
            }
        }
        work
    }

    /// Sends the work of one poll. The result tells whether a chunk was
    /// refunded.
    fn send_work<N: Net>(
        &mut self,
        net: &mut N,
        channel_id: &ChannelId,
        message_id: &MessageId,
        work: SessionWork<S>,
    ) -> (r: Result<bool, NetError>)
        requires
            Self::valid(old(self)@),
            old(self)@.channels.contains_key(channel_id@),
        ensures
            Self::valid(final(self)@),
            ({
                let routing = match work.routing {
                    Some(u) => Some(u@),
                    None => None,
                };
                (final(self).world(*final(net)), r) == Self::work_sent::<N>(
                    old(self).world(*old(net)),
                    (channel_id@, message_id@),
                    routing,
                    dispatch::dispatches(work.dispatches@),
                )
            }),
    {
        let SessionWork { routing, dispatches } = work;
        if let Some(update) = routing {
            let peers: Vec<PeerId> = match self.channels.get(channel_id) {
                Some(c) => order::ascending_items(c.subscribers()),
                None => Vec::new(),
            };
            let payload: Vec<u8> = update.as_bytes();
            if let Err(e) = self.send_routing(net, channel_id, message_id, &peers, &payload) {
                proof {
                    Self::lemma_routing_keeps_channels::<N>(
                        old(self).world(*old(net)),
                        (channel_id@, message_id@),
                        peers@,
                        payload@,
                    );
                }
                self.abandon(channel_id, message_id, &dispatches, e);
                return Err(e);
            }
            proof {
                Self::lemma_routing_keeps_channels::<N>(
                    old(self).world(*old(net)),
                    (channel_id@, message_id@),
                    peers@,
                    payload@,
                );
            }
        }
        self.send_chunks(net, channel_id, message_id, dispatches)
    }

    /// Sends again the control frames that are owed and what is due of a
    /// session's routing, then polls the session and sends its work until
    /// there is none.
    ///
    /// A synchronous send failure means the peer cannot take more right
    /// now. Re-polling would re-plan the just-refunded shard and re-send
    /// it to the same full queue in a tight loop. Draining stops
    /// instead; the refunded shard is retried on the next drain, which the
    /// pending chunks trigger as they are acknowledged.
    fn drain_session<N: Net>(&mut self, net: &mut N, channel_id: &ChannelId, message_id: &MessageId) -> (r: Result<
        (),
        NetError,
    >)
        requires
            Self::valid(old(self)@),
        ensures
            Self::valid(final(self)@),
            (final(self).world(*final(net)), r) == Self::drain::<N>(
                old(self).world(*old(net)),
                (channel_id@, message_id@),
            ),
    {
        let ghost id = (channel_id@, message_id@);
        let ghost start = Self::drain::<N>(self.world(*net), id);
        let ghost mut rounds: nat = match self@.session(id) {
            Some(s) => S::backlog(s.strategy) + 1,
            None => 0,
        };
        if !self.has_session(channel_id, message_id) {
            return Ok(());
        }
        self.catch_up(net);
        if let Err(e) = self.send_due(net, channel_id, message_id) {
            return Err(e);
        }
        assert(self@.session(id) == old(self)@.session(id));
        loop
            invariant
                Self::valid(self@),
                id == (channel_id@, message_id@),
                start == Self::drain::<N>(old(self).world(*old(net)), id),
                start == Self::drained::<N>(self.world(*net), id, rounds),
                self@.session(id) matches Some(s) ==> rounds > S::backlog(s.strategy),
            decreases rounds,
        {
            let ghost before = self.world(*net);
            let work = match self.poll_session(channel_id, message_id) {
                Some(w) => w,
                None => {
                    return Ok(());
                },
            };
            if work.routing.is_none() && work.dispatches.len() == 0 {
                return Ok(());
            }
            let ghost polled = self.world(*net);
            proof {
                let s = before.engine.session(id)->0;
                S::polling_ends(s.strategy);
                let (s1, routing, ds) = Session::<S>::polled(s);
                assert(polled.engine.session(id) == Some(s1));
                Self::lemma_work_keeps_channels::<N>(polled, id, routing, ds);
            }
            match self.send_work(net, channel_id, message_id, work) {
                Err(e) => {
                    return Err(e);
                },
                Ok(stalled) => {
                    if stalled {
                        return Ok(());
                    }
                },
            }
            proof {
                rounds = (rounds - 1) as nat;
            }
        }
    }

    proof fn lemma_routing_keeps_channels<N: Net>(
        w: World<S::Model, F::Model, N::Model>,
        id: model::SessionId,
        peers: Seq<PeerId>,
        payload: Seq<u8>,
    )
        ensures
            ({
                let e = Self::routing_sent::<N>(w, id, peers, payload).0.engine;
                &&& e.channels == w.engine.channels
                &&& e.preambles == w.engine.preambles
                &&& e.meta == w.engine.meta
            }),
        decreases peers.len(),
    {
        if peers.len() > 0 {
            let w1 = Self::update_sent::<N>(w, id, peers[0], payload).0;
            Self::lemma_routing_keeps_channels::<N>(w1, id, peers.drop_first(), payload);
        }
    }

    proof fn lemma_chunks_keep_channels<N: Net>(
        w: World<S::Model, F::Model, N::Model>,
        id: model::SessionId,
        ds: Seq<DispatchView<u32>>,
        stalled: bool,
    )
        ensures
            ({
                let (w1, r) = Self::chunks_sent::<N>(w, id, ds, stalled);
                &&& stalled ==> r != Ok::<bool, NetError>(false)
                &&& r == Ok::<bool, NetError>(false) ==> w1.engine.channels == w.engine.channels
            }),
        decreases ds.len(),
    {
        if ds.len() > 0 {
            let (w1, r) = Self::ensured::<N>(w, id, ds[0].peer);
            if r is Ok {
                let (w2, refunded) = Self::chunk_sent::<N>(w1, id, ds[0]);
                Self::lemma_chunks_keep_channels::<N>(w2, id, ds.drop_first(), stalled || refunded);
            }
        }
    }

    proof fn lemma_work_keeps_channels<N: Net>(
        w: World<S::Model, F::Model, N::Model>,
        id: model::SessionId,
        routing: Option<Seq<bool>>,
        ds: Seq<DispatchView<u32>>,
    )
        ensures
            ({
                let (w1, r) = Self::work_sent::<N>(w, id, routing, ds);
                r == Ok::<bool, NetError>(false) ==> w1.engine.channels == w.engine.channels
            }),
    {
        match routing {
            Some(bits) => {
                let peers = order::ascending(w.engine.channels[id.0].subscribers);
                let payload = bitmap::packed(bits);
                Self::lemma_routing_keeps_channels::<N>(w, id, peers, payload);
                let w1 = Self::routing_sent::<N>(w, id, peers, payload).0;
                Self::lemma_chunks_keep_channels::<N>(w1, id, ds, false);
            },
            None => {
                Self::lemma_chunks_keep_channels::<N>(w, id, ds, false);
            },
        }
    }

    /// Drains every session of a channel, in message order, up to the first
    /// failure.
    fn drain_channel<N: Net>(&mut self, net: &mut N, channel_id: &ChannelId) -> (r: Result<(), NetError>)
        requires
            Self::valid(old(self)@),
        ensures
            Self::valid(final(self)@),
            (final(self).world(*final(net)), r) == Self::drain_channel_of::<N>(
                old(self).world(*old(net)),
                channel_id@,
            ),
    {
        let ids: Vec<MessageId> = match self.channels.get(channel_id) {
            Some(c) => c.session_ids(),
            None => {
                return Ok(());
            },
        };
        let ghost names = order::spelled(ids@);
        let ghost start = Self::drain_channel_of::<N>(self.world(*net), channel_id@);
        self.catch_up(net);
        let mut i: usize = 0;
        assert(names.skip(0) =~= names);
        while i < ids.len()
            invariant
                i <= ids@.len(),
                names == order::spelled(ids@),
                Self::valid(self@),
                start == Self::drain_channel_of::<N>(old(self).world(*old(net)), channel_id@),
                start == Self::drained_all::<N>(self.world(*net), channel_id@, names.skip(i as int)),
            decreases ids@.len() - i,
        {
            assert(names.skip(i as int).drop_first() =~= names.skip(i + 1));
            assert(names.skip(i as int)[0] == ids@[i as int]@);
            if let Err(e) = self.drain_session(net, channel_id, &ids[i]) {
                return Err(e);
            }
            i = i + 1;
        }
        Ok(())
    }

    /// Subscribes `peer` to a channel the engine hosts.
    fn subscribe_remote(&mut self, channel_id: &ChannelId, peer: PeerId)
        requires
            Self::valid(old(self)@),
        ensures
            Self::valid(final(self)@),
            final(self)@ == Self::subscribed(old(self)@, channel_id@, peer),
    {
        if let Some(c) = self.channels.get_mut(channel_id) {
            assert(old(self)@.channels.contains_key(channel_id@));
            c.subscribe_peer(peer);
        }
        assert(self@ =~= Self::subscribed(old(self)@, channel_id@, peer));
    }

    /// Subscribes `peer` to each of `channels` and drains them.
    fn join_channels<N: Net>(&mut self, net: &mut N, peer: PeerId, channels: &Vec<String>)
        requires
            Self::valid(old(self)@),
        ensures
            Self::valid(final(self)@),
            final(self).world(*final(net)) == Self::joined::<N>(
                old(self).world(*old(net)),
                peer,
                order::spelled(channels@),
            ),
    {
        let ghost names = order::spelled(channels@);
        let ghost start = Self::joined::<N>(self.world(*net), peer, names);
        let mut i: usize = 0;
        assert(names.skip(0) =~= names);
        while i < channels.len()
            invariant
                i <= channels@.len(),
                names == order::spelled(channels@),
                Self::valid(self@),
                start == Self::joined::<N>(self.world(*net), peer, names.skip(i as int)),
            decreases channels@.len() - i,
        {
            assert(names.skip(i as int).drop_first() =~= names.skip(i + 1));
            assert(names.skip(i as int)[0] == channels@[i as int]@);
            self.subscribe_remote(&channels[i], peer);
            let _ = self.drain_channel(net, &channels[i]);
            i = i + 1;
        }
    }

    /// Mark `peer` connected and send it our handshake. Idempotent: a
    /// second call for an already-connected peer is a no-op.
    fn register_peer_and_handshake<N: Net>(&mut self, net: &mut N, peer: PeerId) -> (r: Result<(), NetError>)
        requires
            Self::valid(old(self)@),
        ensures
            Self::valid(final(self)@),
            (final(self).world(*final(net)), r) == Self::introduced::<N>(
                old(self).world(*old(net)),
                peer,
            ),
    {
        if !self.connected.insert(peer) {
            assert(self@.connected =~= old(self)@.connected);
            return Ok(());
        }
        assert(self@.channels == old(self)@.channels);
        self.send_frame(net, Frame::Handshake { peer })
    }

    /// Names of the channels the engine hosts, in increasing order.
    fn channel_ids(&self) -> (r: Vec<String>)
        ensures
            order::spelled(r@) == order::alphabetical(self@.channels.dom()),
    {
        let ids = self.channels.keys();
        proof {
            assert(order::spelled(ids@).to_set() =~= self@.channels.dom()) by {
                assert forall|k: Seq<char>| self@.channels.contains_key(k) implies order::spelled(
                    ids@,
                ).to_set().contains(k) by {
                    let j = choose|j: int| 0 <= j < ids@.len() && (#[trigger] ids@[j])@ == k;
                    assert(order::spelled(ids@)[j] == k);
                }
                assert forall|k: Seq<char>| order::spelled(ids@).to_set().contains(k) implies self@.channels.contains_key(
                k) by {
                    let j = choose|j: int| 0 <= j < ids@.len() && order::spelled(ids@)[j] == k;
                    assert(ids@[j]@ == k);
                }
            }
        }
        order::sort_names(&ids)
    }

    /// Marks a session terminal (reconstructed or failed), starting the
    /// disposal linger.
    fn mark_session_terminal(&mut self, channel: &ChannelId, message_id: &MessageId, now: Nanos)
        ensures
            final(self)@ == old(self)@.ended((channel@, message_id@), now),
    {
        let key = key_of(channel, message_id);
        if let Some(meta) = self.session_meta.get_mut(&key) {
            if meta.terminal_at.is_none() {
                meta.terminal_at = Some(now);
            }
        }
        assert(self@ =~= old(self)@.ended((channel@, message_id@), now));
    }

    /// Records the creation time of a session (first open/publish only).
    fn record_session_created(&mut self, channel: &ChannelId, message_id: &MessageId, now: Nanos)
        ensures
            final(self)@ == old(self)@.created((channel@, message_id@), now),
    {
        let key = key_of(channel, message_id);
        if !self.session_meta.contains(&key) {
            self.session_meta.insert(key, SessionMeta { created_at: now, terminal_at: None });
        }
    }

    /// Decodes a complete session; a payload is put up for delivery.
    fn maybe_decode_and_deliver<N: Net>(
        &mut self,
        net: &mut N,
        channel_id: &ChannelId,
        message_id: &MessageId,
        now: Nanos,
    )
        requires
            Self::valid(old(self)@),
        ensures
            Self::valid(final(self)@),
            final(self).world(*final(net)) == Self::decoded::<N>(
                old(self).world(*old(net)),
                (channel_id@, message_id@),
                now,
            ),
            laws::delivers::<S, F::Model>(
                old(self)@,
                (channel_id@, message_id@),
                old(self)@.delivered,
                final(self)@.delivered,
            ),
    {
        let ghost id = (channel_id@, message_id@);
        let mut decoded: Option<Result<Vec<u8>, SessionError>> = None;
        if let Some(c) = self.channels.get_mut(channel_id) {
            if let Some(session) = c.session_mut(message_id) {
                decoded = Some(session.decode_and_finish());
            }
        }
        let outcome = match decoded {
            Some(d) => d,
            None => {
                assert(self@ =~= old(self)@);
                return;
            },
        };
        assert(self@ =~= old(self)@.with_session(
            id,
            Session::<S>::finished(old(self)@.session(id)->0).0,
        ));
        // Either outcome is terminal; start the disposal clock.
        self.mark_session_terminal(channel_id, message_id, now);
        if let Ok(payload) = outcome {
            let ghost before = self.delivered@;
            let message = DeliveredMessage {
                channel_id: channel_id.dup(),
                message_id: message_id.dup(),
                payload,
            };
            self.delivered.push(message);
            assert(deliveries(self.delivered@) =~= deliveries(before).push(message@));
            // Signal upstream senders we are done: reset our inbound SESS
            // streams for this session. Each sender observes the reset as
            // `PeerReconstructed` and stops planning sends to us.
            let _ = net.send(
                NetSend::SessionReconstructed {
                    channel: channel_id.dup(),
                    message_id: message_id.dup(),
                },
            );
        }
    }

    /// Delivers a chunk to its session. The result tells whether the session
    /// is complete.
    fn take_chunk(
        &mut self,
        channel_id: &ChannelId,
        message_id: &MessageId,
        chunk_id: u32,
        payload: Vec<u8>,
    ) -> (r: bool)
        requires
            Self::valid(old(self)@),
        ensures
            Self::valid(final(self)@),
            (final(self)@, r) == Self::taken(
                old(self)@,
                (channel_id@, message_id@),
                chunk_id,
                payload@,
            ),
    {
        let mut complete: bool = false;
        if let Some(c) = self.channels.get_mut(channel_id) {
            if let Ok(o) = c.take_chunk(message_id, chunk_id, payload) {
                complete = o.complete;
            }
        }
        assert(self@ =~= Self::taken(old(self)@, (channel_id@, message_id@), chunk_id, payload@).0);
        complete
    }

    /// Drains a session that took chunks, and decodes it if it is complete.
    fn progress<N: Net>(
        &mut self,
        net: &mut N,
        channel_id: &ChannelId,
        message_id: &MessageId,
        complete: bool,
        now: Nanos,
    )
        requires
            Self::valid(old(self)@),
        ensures
            Self::valid(final(self)@),
            final(self).world(*final(net)) == Self::progressed::<N>(
                old(self).world(*old(net)),
                (channel_id@, message_id@),
                complete,
                now,
            ),
            complete ==> laws::delivers::<S, F::Model>(
                old(self)@,
                (channel_id@, message_id@),
                old(self)@.delivered,
                final(self)@.delivered,
            ),
    {
        proof {
            laws::lemma_drain::<S, F, N>(self.world(*net), (channel_id@, message_id@));
        }
        let _ = self.drain_session(net, channel_id, message_id);
        if complete {
            let ghost drained = self@;
            self.maybe_decode_and_deliver(net, channel_id, message_id, now);
            proof {
                let id = (channel_id@, message_id@);
                assert forall|payload: Seq<u8>| #[trigger]
                    laws::bears::<S, F::Model>(old(self)@, id, payload) implies laws::bears::<S, F::Model>(
                    drained,
                    id,
                    payload,
                ) by {}
            }
        }
    }

    /// Buffer a chunk whose session is not open yet, bounded per message.
    /// Drops the oldest when full so a peer flooding chunks for a never-opened
    /// session cannot grow this without limit.
    fn park_chunk(
        &mut self,
        channel: &ChannelId,
        message_id: &MessageId,
        chunk_id: u32,
        payload: Vec<u8>,
        now: Nanos,
    )
        ensures
            final(self)@ == old(self)@.with_parked(
                (channel@, message_id@),
                ParkedView { chunk_id, payload: payload@, parked_at: now },
            ),
    {
        let key = key_of(channel, message_id);
        let empty = ParkedBuffer { chunks: Vec::new() };
        assert(empty@ =~= Seq::<ParkedView>::empty());
        let buf = self.parked_chunks.entry(key, empty);
        let ghost before = buf@;
        if buf.chunks.len() >= MAX_PARKED_CHUNKS_PER_MESSAGE {
            let _ = buf.chunks.remove(0);
            assert(buf@ =~= before.remove(0));
        }
        let ghost room = buf@;
        let chunk = ParkedChunk { chunk_id, payload, parked_at: now };
        buf.chunks.push(chunk);
        assert(buf@ =~= room.push(chunk@));
    }

    /// Replay chunks parked before a session opened, then drain and deliver
    /// once. A no-op when nothing was parked for the session.
    fn replay_parked_chunks<N: Net>(
        &mut self,
        net: &mut N,
        channel: &ChannelId,
        message_id: &MessageId,
        now: Nanos,
    )
        requires
            Self::valid(old(self)@),
        ensures
            Self::valid(final(self)@),
            final(self).world(*final(net)) == Self::replayed::<N>(
                old(self).world(*old(net)),
                (channel@, message_id@),
                now,
            ),
            ({
                let id = (channel@, message_id@);
                let ready = old(self)@;
                let (e, complete) = Self::taken_all(
                    EngineView { parked: ready.parked.remove(id), ..ready },
                    id,
                    ready.parked[id],
                    false,
                );
                ready.parked.contains_key(id) && complete ==> laws::delivers::<S, F::Model>(
                    e,
                    id,
                    ready.delivered,
                    final(self)@.delivered,
                )
            }),
    {
        let ghost id = (channel@, message_id@);
        let parked = match self.parked_chunks.remove(&key_of(channel, message_id)) {
            Some(p) => p,
            None => {
                assert(self@ =~= old(self)@);
                return;
            },
        };
        assert(self@.channels == old(self)@.channels);
        let ghost all = parked@;
        let ghost start = Self::taken_all(self@, id, all, false);
        let mut rest: Vec<ParkedChunk> = parked.chunks;
        let mut complete: bool = false;
        let ghost n = *net;
        while rest.len() > 0
            invariant
                Self::valid(self@),
                id == (channel@, message_id@),
                start == Self::taken_all(
                    self@,
                    id,
                    rest@.map_values(|c: ParkedChunk| c@),
                    complete,
                ),
            decreases rest@.len(),
        {
            let ghost before = rest@.map_values(|c: ParkedChunk| c@);
            let chunk = rest.remove(0);
            assert(before.drop_first() =~= rest@.map_values(|c: ParkedChunk| c@));
            assert(before[0] == chunk@);
            let done: bool = self.take_chunk(channel, message_id, chunk.chunk_id, chunk.payload);
            complete = complete || done;
        }
        proof {
            laws::lemma_taken_all::<S, F>(
                EngineView { parked: old(self)@.parked.remove(id), ..old(self)@ },
                id,
                all,
                false,
            );
        }
        self.progress(net, channel, message_id, complete, now);
    }

    /// Resolve a deferred chunk send reported via [`NetEvent::ChunkSendResult`]:
    /// feed the honest outcome to the session's `chunk_sent` and re-drain so a
    /// freed (or refunded) allocation is re-planned. Results with no matching
    /// pending entry (a duplicate, or one purged by a disconnect) are ignored.
    fn resolve_chunk_send<N: Net>(
        &mut self,
        net: &mut N,
        peer: PeerId,
        channel: &ChannelId,
        message_id: &MessageId,
        token: u64,
        ok: bool,
    )
        requires
            Self::valid(old(self)@),
        ensures
            Self::valid(final(self)@),
            final(self).world(*final(net)) == Self::resolved::<N>(
                old(self).world(*old(net)),
                (channel@, message_id@),
                peer,
                token,
                ok,
            ),
    {
        let key = (channel.dup(), message_id.dup(), token);
        if self.pending_sends.remove(&key).is_some() {
            assert(self@.channels == old(self)@.channels);
            self.report(channel, message_id, peer, token, ok);
            let _ = self.drain_session(net, channel, message_id);
        } else {
            assert(self@ =~= old(self)@);
        }
    }

    /// Detach `peer` from one session, forwarding the reconstructed/departed
    /// distinction to the strategy. A no-op if the session is gone.
    fn detach_session_peer(&mut self, channel: &ChannelId, message_id: &MessageId, peer: PeerId, completed: bool)
        requires
            Self::valid(old(self)@),
        ensures
            Self::valid(final(self)@),
            final(self)@ == Self::detached(
                old(self)@,
                (channel@, message_id@),
                peer,
                completed,
            ),
    {
        if let Some(c) = self.channels.get_mut(channel) {
            if let Some(session) = c.session_mut(message_id) {
                session.detach_peer(peer, completed);
            }
        }
        assert(self@ =~= Self::detached(old(self)@, (channel@, message_id@), peer, completed));
    }

    /// Forgets the control frames owed to a peer.
    fn forget_frames(&mut self, peer: PeerId)
        ensures
            final(self)@ == (EngineView {
                owed: old(self)@.owed.filter(|f: FrameView| f.peer() != peer),
                ..old(self)@
            }),
    {
        let ghost other = |f: FrameView| f.peer() != peer;
        let mut rest: Vec<Frame> = Vec::new();
        core::mem::swap(&mut rest, &mut self.owed_frames);
        let mut kept: Vec<Frame> = Vec::new();
        let ghost all = frames(rest@);
        proof {
            reveal(Seq::filter);
            assert(frames(kept@) =~= Seq::<FrameView>::empty());
            assert(all.take(0) =~= Seq::<FrameView>::empty());
            assert(all.skip(0) =~= all);
        }
        let ghost mut n: int = 0;
        while rest.len() > 0
            invariant
                0 <= n <= all.len(),
                other == (|f: FrameView| f.peer() != peer),
                frames(rest@) == all.skip(n),
                frames(kept@) == all.take(n).filter(other),
            decreases rest@.len(),
        {
            let ghost before = rest@;
            let ghost done = kept@;
            let frame = rest.remove(0);
            proof {
                assert(frames(before)[0] == before[0]@);
                assert(frames(before) == all.skip(n));
                assert(all.skip(n).len() == before.len());
                assert(frames(rest@) =~= frames(before).drop_first());
                assert(frames(rest@) =~= all.skip(n + 1));
                assert(frame@ == all[n]);
                assert(all.take(n + 1).drop_last() =~= all.take(n));
                reveal(Seq::filter);
                n = n + 1;
            }
            if frame.peer() != peer {
                kept.push(frame);
                assert(frames(kept@) =~= frames(done).push(frame@));
            }
        }
        assert(all.take(n) =~= all);
        self.owed_frames = kept;
    }

    /// Forgets a peer that is gone.
    fn drop_peer(&mut self, peer: PeerId)
        requires
            Self::valid(old(self)@),
        ensures
            Self::valid(final(self)@),
            final(self)@ == Self::left(old(self)@, peer),
    {
        self.connected.remove(&peer);
        self.pending_sends.retain(&OtherPeer { peer });
        self.due_routing.retain(&OtherPeer { peer });
        self.forget_frames(peer);
        // Forget that we opened sessions to this peer, so a SESS is
        // re-opened if it reconnects.
        self.opened_to.update_all(&Forget { peer });
        assert(self@.channels == old(self)@.channels);
        self.channels.update_all(&Unsubscribe { peer });
        proof {
            let want = Self::left(old(self)@, peer);
            assert(self@.pending =~= want.pending);
            assert(self@.due =~= want.due);
            assert(self@.opened =~= want.opened);
            assert(self@.channels =~= want.channels);
            assert(self@ =~= want);
        }
    }

    /// Whether `(channel, message_id)` was recently disposed and its
    /// tombstone still stands.
    fn is_tombstoned(&self, channel: &ChannelId, message_id: &MessageId) -> (r: bool)
        ensures
            r == self@.tombstoned((channel@, message_id@)),
    {
        self.tombstones.contains(&key_of(channel, message_id))
    }

    /// Whether there is a session for `(channel, message_id)`.
    fn has_session(&self, channel: &ChannelId, message_id: &MessageId) -> (r: bool)
        ensures
            r == self@.session((channel@, message_id@)) is Some,
    {
        match self.channels.get(channel) {
            Some(c) => c.has_session(message_id),
            None => false,
        }
    }

    /// Handles an announced session.
    fn open_session<N: Net>(
        &mut self,
        net: &mut N,
        channel: &ChannelId,
        message_id: &MessageId,
        preamble: Vec<u8>,
        now: Nanos,
        reading: u32,
    )
        requires
            Self::valid(old(self)@),
        ensures
            Self::valid(final(self)@),
            final(self).world(*final(net)) == Self::opened::<N>(
                old(self).world(*old(net)),
                (channel@, message_id@),
                preamble@,
                now,
                reading,
            ),
            forall|peer: PeerId, update: Seq<u8>|
                (#[trigger] laws::completes::<S, F, N>(
                    old(self).world(*old(net)),
                    NetEventView::SessionOpen {
                        peer,
                        channel: channel@,
                        message_id: message_id@,
                        preamble: preamble@,
                        initial_update: update,
                    },
                    now,
                    reading,
                )) matches Some((id, e)) ==> laws::delivers::<S, F::Model>(
                    e,
                    id,
                    old(self)@.delivered,
                    final(self)@.delivered,
                ),
    {
        // Ignore a resurrecting open for a session we already disposed.
        if self.is_tombstoned(channel, message_id) {
            return;
        }
        let mut opened: bool = false;
        if let Some(c) = self.channels.get_mut(channel) {
            assert(old(self)@.channels.contains_key(channel@));
            opened = c.open_session(message_id.dup(), pb::copy_bytes(preamble.as_slice()), reading).is_ok();
        }
        if opened {
            // Retain the preamble so this node, acting as a relay, can
            // open a SESS to its own subscribers before forwarding.
            self.session_preambles.insert(key_of(channel, message_id), preamble);
            self.record_session_created(channel, message_id, now);
            proof {
                laws::lemma_drain::<S, F, N>(self.world(*net), (channel@, message_id@));
            }
            let _ = self.drain_session(net, channel, message_id);
            // Feed any chunks that arrived before this open.
            self.replay_parked_chunks(net, channel, message_id, now);
        }
    }

    /// Handles an inbound chunk.
    ///
    /// A chunk can arrive before its `SessionOpen` (over QUIC the
    /// per-chunk stream races the SESS stream). It is parked for replay
    /// rather than dropped: losing early chunks starves a
    /// relay's bounded forward budget and can stall reconstruction.
    fn receive_chunk<N: Net>(
        &mut self,
        net: &mut N,
        channel: &ChannelId,
        message_id: &MessageId,
        chunk_id: u32,
        payload: Vec<u8>,
        now: Nanos,
    )
        requires
            Self::valid(old(self)@),
        ensures
            Self::valid(final(self)@),
            final(self).world(*final(net)) == Self::received::<N>(
                old(self).world(*old(net)),
                (channel@, message_id@),
                chunk_id,
                payload@,
                now,
            ),
            ({
                let id = (channel@, message_id@);
                let (e, complete) = Self::taken(old(self)@, id, chunk_id, payload@);
                !old(self)@.tombstoned(id) && old(self)@.session(id) is Some && complete
                    ==> laws::delivers::<S, F::Model>(
                    e,
                    id,
                    old(self)@.delivered,
                    final(self)@.delivered,
                )
            }),
    {
        // Ignore chunks for a disposed session.
        if self.is_tombstoned(channel, message_id) {
            return;
        }
        if !self.has_session(channel, message_id) {
            self.park_chunk(channel, message_id, chunk_id, payload, now);
            assert(self@.channels == old(self)@.channels);
            return;
        }
        let complete: bool = self.take_chunk(channel, message_id, chunk_id, payload);
        self.progress(net, channel, message_id, complete, now);
    }

    /// Processes one inbound event at `now`, when the wall clock is `reading`
    /// nanoseconds into its second.
    pub fn handle_event<N: Net>(&mut self, net: &mut N, event: NetEvent, now: Nanos, reading: u32)
        requires
            Self::valid(old(self)@),
        ensures
            Self::valid(final(self)@),
            final(self).world(*final(net)) == Self::handled::<N>(
                old(self).world(*old(net)),
                event@,
                now,
                reading,
            ),
            laws::completes::<S, F, N>(old(self).world(*old(net)), event@, now, reading) matches Some((id, e))
                ==> laws::delivers::<S, F::Model>(
                e,
                id,
                old(self)@.delivered,
                final(self)@.delivered,
            ),
    {
        match event {
            NetEvent::Handshake { peer, version, channels, .. } => {
                if version == PROTOCOL_VERSION {
                    self.connected.insert(peer);
                    assert(self@.channels == old(self)@.channels);
                    // Retroactively subscribe the peer to channels we host
                    // that they advertise (the handshake carries
                    // the sender's subscribed channels).
                    self.join_channels(net, peer, &channels);
                } else {
                    self.connected.remove(&peer);
                    assert(self@.channels == old(self)@.channels);
                }
            },
            NetEvent::Subscribe { peer, channel } => {
                self.subscribe_remote(&channel, peer);
                // Drain all sessions on that channel: the newly-attached
                // peer is now eligible for dispatch.
                let _ = self.drain_channel(net, &channel);
            },
            NetEvent::Unsubscribe { peer, channel } => {
                if let Some(c) = self.channels.get_mut(&channel) {
                    assert(old(self)@.channels.contains_key(channel@));
                    c.unsubscribe_peer(peer);
                }
            },
            NetEvent::SessionOpen { channel, message_id, preamble, .. } => {
                self.open_session(net, &channel, &message_id, preamble, now, reading);
            },
            NetEvent::RoutingUpdate { .. } => {
                // Reed-Solomon sessions reconstruct without inbound
                // routing updates.
            },
            NetEvent::Chunk { channel, message_id, chunk_id, payload, .. } => {
                self.receive_chunk(net, &channel, &message_id, chunk_id, payload, now);
            },
            NetEvent::PeerDisconnected { peer } => {
                self.drop_peer(peer);
            },
            NetEvent::PeerConnected { peer } => {
                let _ = self.register_peer_and_handshake(net, peer);
            },
            NetEvent::ChunkSendResult { peer, channel, message_id, token, ok } => {
                self.resolve_chunk_send(net, peer, &channel, &message_id, token, ok);
            },
            NetEvent::PeerReconstructed { peer, channel, message_id } => {
                self.detach_session_peer(&channel, &message_id, peer, true);
            },
            NetEvent::SessionClosed { peer, channel, message_id } => {
                self.detach_session_peer(&channel, &message_id, peer, false);
            },
        }
    }
}

impl<S: Strategy<ChunkId = u32, RoutingUpdate = BitMap>, F: StrategyFactory<S>> Engine<S, F> {
    /// Drop all state for a session and leave a tombstone so late opens or
    /// chunks for it are ignored.
    fn dispose_session(&mut self, channel: &ChannelId, message_id: &MessageId, now: Nanos)
        requires
            Self::valid(old(self)@),
        ensures
            Self::valid(final(self)@),
            final(self)@ == old(self)@.disposed(set![(channel@, message_id@)], now),
    {
        let ghost gone = set![(channel@, message_id@)];
        let key = key_of(channel, message_id);
        if let Some(c) = self.channels.get_mut(channel) {
            assert(old(self)@.channels.contains_key(channel@));
            c.remove_session(message_id);
        }
        let _ = self.session_meta.remove(&key);
        let _ = self.session_preambles.remove(&key);
        let _ = self.opened_to.remove(&key);
        let _ = self.parked_chunks.remove(&key);
        let others = OtherSession { channel: channel.dup(), message_id: message_id.dup() };
        self.pending_sends.retain(&others);
        self.due_routing.retain(&others);
        self.tombstones.insert(key, now);
        proof {
            let want = old(self)@.disposed(gone, now);
            assert forall|c: Seq<char>| old(self)@.channels.contains_key(c) implies self@.channels[c]
                == want.channels[c] by {
                let out = Set::new(|m: Seq<char>| gone.contains((c, m)));
                if c == channel@ {
                    assert(old(self)@.channels[c].sessions.remove(message_id@)
                        =~= old(self)@.channels[c].sessions.remove_keys(out));
                } else {
                    assert(old(self)@.channels[c].sessions.remove_keys(out)
                        =~= old(self)@.channels[c].sessions);
                }
            }
            assert(self@.channels =~= want.channels);
            assert(self@.meta =~= want.meta);
            assert(self@.preambles =~= want.preambles);
            assert(self@.opened =~= want.opened);
            assert(self@.parked =~= want.parked);
            assert(self@.pending =~= want.pending);
            assert(self@.due =~= want.due);
            assert(self@.tombstones =~= want.tombstones);
            assert(self@ =~= want);
        }
    }

    /// Disposes the expired sessions.
    fn dispose_expired(&mut self, now: Nanos)
        requires
            Self::valid(old(self)@),
        ensures
            Self::valid(final(self)@),
            final(self)@ == old(self)@.disposed(
                Set::new(|id: model::SessionId| old(self)@.expired(id, now)),
                now,
            ),
    {
        let ghost e0 = self@;
        let keys = self.session_meta.keys();
        let mut i: usize = 0;
        let ghost mut gone: Set<model::SessionId> = Set::empty();
        proof {
            model::lemma_dispose_none(e0, now);
        }
        while i < keys.len()
            invariant
                i <= keys@.len(),
                Self::valid(self@),
                self@ == e0.disposed(gone, now),
                forall|k: model::SessionId|
                    e0.meta.contains_key(k) <==> (exists|j: int| 0 <= j < keys@.len() && (#[trigger] keys@[j])@ == k),
                forall|a: int, b: int|
                    0 <= a < b < keys@.len() ==> (#[trigger] keys@[a])@ != (#[trigger] keys@[b])@,
                forall|k: model::SessionId| #[trigger]
                    gone.contains(k) <==> e0.expired(k, now) && exists|j: int|
                        0 <= j < i && (#[trigger] keys@[j])@ == k,
            decreases keys@.len() - i,
        {
            let ghost id = keys@[i as int]@;
            assert(e0.meta.contains_key(id));
            assert(!gone.contains(id));
            assert(self@.meta.contains_key(id) && self@.meta[id] == e0.meta[id]);
            let mut old_enough: bool = false;
            if let Some(m) = self.session_meta.get(&keys[i]) {
                old_enough = now.saturating_sub(m.created_at) > self.config.active_session_ttl
                    || match m.terminal_at {
                    Some(t) => now.saturating_sub(t) > self.config.reconstructed_linger,
                    None => false,
                };
            }
            assert(old_enough == e0.expired(id, now));
            if old_enough {
                self.dispose_session(&keys[i].0, &keys[i].1, now);
                proof {
                    model::lemma_dispose_one_more(e0, gone, id, now);
                    gone = gone.insert(id);
                }
            }
            proof {
                assert forall|k: model::SessionId| #[trigger] gone.contains(k) implies e0.expired(k, now)
                    && exists|j: int| 0 <= j < i + 1 && (#[trigger] keys@[j])@ == k by {
                    if k == id {
                        assert(keys@[i as int]@ == k);
                    } else {
                        let j = choose|j: int| 0 <= j < i && (#[trigger] keys@[j])@ == k;
                        assert(keys@[j]@ == k);
                    }
                }
            }
            i = i + 1;
        }
        proof {
            let all = Set::new(|id: model::SessionId| e0.expired(id, now));
            assert(gone =~= all);
        }
    }

    /// Dispose sessions past their TTL or terminal linger, and expire old
    /// tombstones. Keeps engine memory bounded for a long-running node.
    fn run_cleanup(&mut self, now: Nanos)
        requires
            Self::valid(old(self)@),
        ensures
            Self::valid(final(self)@),
            final(self)@ == old(self)@.swept(now),
    {
        self.dispose_expired(now);
        let ghost e = self@;
        self.tombstones.retain(&Young { now, ttl: self.config.tombstone_ttl });
        // Drop parked chunks past their TTL (their session never opened) and
        // remove entries left empty.
        self.parked_chunks.update_all(&Expire { now });
        self.parked_chunks.retain(&NonEmpty);
        proof {
            let want = old(self)@.swept(now);
            assert(self@.tombstones =~= want.tombstones);
            assert(e.parked.map_values(
                |v: Seq<ParkedView>| (Expire { now }).changed(v),
            ) =~= e.parked.map_values(
                |buf: Seq<ParkedView>| EngineView::<S::Model, F::Model>::fresh(buf, now),
            ));
            assert(self@.parked =~= want.parked);
            assert(self@.channels == e.channels);
            assert(self@ =~= want);
        }
    }

    /// Run a cleanup sweep if the interval has elapsed.
    pub fn maybe_run_cleanup(&mut self, now: Nanos)
        requires
            Self::valid(old(self)@),
        ensures
            Self::valid(final(self)@),
            final(self)@ == old(self)@.cleaned(now),
    {
        if now < self.next_cleanup {
            return;
        }
        self.next_cleanup = now.saturating_add(self.config.cleanup_interval);
        assert(self@.channels == old(self)@.channels);
        self.run_cleanup(now);
    }
}

/// Entries of other sessions.
struct OtherSession {
    channel: ChannelId,
    message_id: MessageId,
}

impl Keep<(ChannelId, MessageId, u64), PeerId> for OtherSession {
    closed spec fn stays(&self, k: (Seq<char>, Seq<char>, u64), v: PeerId) -> bool {
        !(k.0 == self.channel@ && k.1 == self.message_id@)
    }

    fn keep(&self, k: &(ChannelId, MessageId, u64), v: &PeerId) -> (r: bool) {
        !(k.0.same(&self.channel) && k.1.same(&self.message_id))
    }
}

impl Keep<(ChannelId, MessageId, u64), Vec<u8>> for OtherSession {
    closed spec fn stays(&self, k: (Seq<char>, Seq<char>, u64), v: Seq<u8>) -> bool {
        !(k.0 == self.channel@ && k.1 == self.message_id@)
    }

    fn keep(&self, k: &(ChannelId, MessageId, u64), v: &Vec<u8>) -> (r: bool) {
        !(k.0.same(&self.channel) && k.1.same(&self.message_id))
    }
}

/// Tombstones that still stand.
struct Young {
    now: Nanos,
    ttl: Nanos,
}

impl Keep<(ChannelId, MessageId), Nanos> for Young {
    closed spec fn stays(&self, k: (Seq<char>, Seq<char>), v: Nanos) -> bool {
        model::elapsed(self.now, v) <= self.ttl
    }

    fn keep(&self, k: &(ChannelId, MessageId), v: &Nanos) -> (r: bool) {
        self.now.saturating_sub(*v) <= self.ttl
    }
}

/// Drops the chunks of a buffer that have outlived their time.
struct Expire {
    now: Nanos,
}

impl Change<ParkedBuffer> for Expire {
    closed spec fn applies(&self, v: Seq<ParkedView>) -> bool {
        true
    }

    closed spec fn changed(&self, v: Seq<ParkedView>) -> Seq<ParkedView> {
        v.filter(|c: ParkedView| model::elapsed(self.now, c.parked_at) <= PARKED_CHUNK_TTL)
    }

    fn change(&self, v: &mut ParkedBuffer) {
        let ghost all = v@;
        let ghost test = |c: ParkedView| model::elapsed(self.now, c.parked_at) <= PARKED_CHUNK_TTL;
        let mut rest: Vec<ParkedChunk> = Vec::new();
        core::mem::swap(&mut rest, &mut v.chunks);
        let mut kept: Vec<ParkedChunk> = Vec::new();
        let ghost mut done: int = 0;
        let ghost items = rest@;
        proof {
            reveal(Seq::filter);
            assert(all.take(0) =~= Seq::<ParkedView>::empty());
            assert(items.skip(0) =~= items);
        }
        while rest.len() > 0
            invariant
                all == items.map_values(|c: ParkedChunk| c@),
                test == (|c: ParkedView| model::elapsed(self.now, c.parked_at) <= PARKED_CHUNK_TTL),
                0 <= done <= items.len(),
                rest@ == items.skip(done),
                kept@.map_values(|c: ParkedChunk| c@) == all.take(done).filter(test),
            decreases rest@.len(),
        {
            let chunk = rest.remove(0);
            proof {
                reveal(Seq::filter);
                assert(rest@ =~= items.skip(done + 1));
                assert(chunk@ == all[done]);
                assert(all.take(done + 1).drop_last() =~= all.take(done));
                assert(all.take(done + 1).last() == all[done]);
                done = done + 1;
            }
            let ghost before = kept@.map_values(|c: ParkedChunk| c@);
            if self.now.saturating_sub(chunk.parked_at) <= PARKED_CHUNK_TTL {
                kept.push(chunk);
                assert(kept@.map_values(|c: ParkedChunk| c@) =~= before.push(chunk@));
            }
        }
        v.chunks = kept;
        assert(all.take(done) =~= all);
    }
}

/// Buffers that hold something.
struct NonEmpty;

impl Keep<(ChannelId, MessageId), ParkedBuffer> for NonEmpty {
    closed spec fn stays(&self, k: (Seq<char>, Seq<char>), v: Seq<ParkedView>) -> bool {
        v.len() > 0
    }

    fn keep(&self, k: &(ChannelId, MessageId), v: &ParkedBuffer) -> (r: bool) {
        v.chunks.len() > 0
    }
}

/// Entries for other peers.
struct OtherPeer {
    peer: PeerId,
}

impl Keep<(ChannelId, MessageId, u64), PeerId> for OtherPeer {
    closed spec fn stays(&self, k: (Seq<char>, Seq<char>, u64), v: PeerId) -> bool {
        v != self.peer
    }

    fn keep(&self, k: &(ChannelId, MessageId, u64), v: &PeerId) -> (r: bool) {
        *v != self.peer
    }
}

impl Keep<(ChannelId, MessageId, u64), Vec<u8>> for OtherPeer {
    closed spec fn stays(&self, k: (Seq<char>, Seq<char>, u64), v: Seq<u8>) -> bool {
        k.2 != self.peer
    }

    fn keep(&self, k: &(ChannelId, MessageId, u64), v: &Vec<u8>) -> (r: bool) {
        k.2 != self.peer
    }
}

/// Takes a peer out of a set.
struct Forget {
    peer: PeerId,
}

impl Change<KeySet<PeerId>> for Forget {
    closed spec fn applies(&self, v: Set<PeerId>) -> bool {
        true
    }

    closed spec fn changed(&self, v: Set<PeerId>) -> Set<PeerId> {
        v.remove(self.peer)
    }

    fn change(&self, v: &mut KeySet<PeerId>) {
        v.remove(&self.peer);
    }
}

/// Unsubscribes a peer from a channel.
struct Unsubscribe {
    peer: PeerId,
}

impl<S: Strategy, F: StrategyFactory<S>> Change<Channel<S, F>> for Unsubscribe {
    closed spec fn applies(&self, v: ChannelView<S::Model, F::Model>) -> bool {
        Channel::<S, F>::valid(v)
    }

    closed spec fn changed(&self, v: ChannelView<S::Model, F::Model>) -> ChannelView<S::Model, F::Model> {
        Channel::<S, F>::unsubscribed(v, self.peer)
    }

    fn change(&self, v: &mut Channel<S, F>) {
        v.unsubscribe_peer(self.peer);
    }
}

} // verus!
