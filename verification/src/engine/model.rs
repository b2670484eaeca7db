//! State of the engine and what each of its operations does to it.

use vstd::prelude::*;

use crate::channel::{Channel, ChannelFault, ChannelView, StrategyFactory};
use crate::engine;
use crate::engine::{Engine, EngineConfig, Nanos, SessionMeta};
use crate::names;
use crate::order;
use crate::runtime::{Net, NetError, NetEventView, NetSendView};
use crate::session::{Session, SessionView};
use crate::strategy::bitmap;
use crate::strategy::bitmap::BitMap;
use crate::strategy::dispatch::DispatchView;
use crate::strategy::{PeerId, Strategy};
use crate::table;

verus! {

/// A session is identified by its channel and its message.
pub type SessionId = (Seq<char>, Seq<char>);

/// A reconstructed payload.
#[verifier::ext_equal]
pub ghost struct DeliveredView {
    pub channel_id: Seq<char>,
    pub message_id: Seq<char>,
    pub payload: Seq<u8>,
}

/// A chunk held until its session opens.
#[verifier::ext_equal]
pub ghost struct ParkedView {
    pub chunk_id: u32,
    pub payload: Seq<u8>,
    pub parked_at: Nanos,
}

/// Contents of an [`crate::engine::EngineError`].
pub ghost enum EngineFault {
    Net(NetError),
    Channel(ChannelFault),
    UnknownChannel(Seq<char>),
    EmptyPayload,
}

/// A control frame that belongs to no session.
#[verifier::ext_equal]
pub ghost enum FrameView {
    Handshake { peer: PeerId },
    Subscribe { peer: PeerId, channel: Seq<char> },
}

impl FrameView {
    /// The peer it is for.
    pub open spec fn peer(self) -> PeerId {
        match self {
            FrameView::Handshake { peer } => peer,
            FrameView::Subscribe { peer, .. } => peer,
        }
    }
}

/// State of an [`Engine`].
#[verifier::ext_equal]
pub ghost struct EngineView<M, F> {
    pub local_peer: PeerId,
    /// Name under which the engine introduces itself.
    pub name: Seq<char>,
    pub channels: Map<Seq<char>, ChannelView<M, F>>,
    pub connected: Set<PeerId>,
    /// Payloads delivered and not yet taken by the application.
    pub delivered: Seq<DeliveredView>,
    /// Chunks in the transport: channel, message and token, with their peer.
    pub pending: Map<(Seq<char>, Seq<char>, u64), PeerId>,
    /// Handshakes and subscriptions for which the transport had no room,
    /// oldest first.
    pub owed: Seq<FrameView>,
    /// Routing updates for which the transport had no room: channel, message
    /// and peer, with the update.
    pub due: Map<(Seq<char>, Seq<char>, u64), Seq<u8>>,
    /// Preamble bytes of the live sessions.
    pub preambles: Map<SessionId, Seq<u8>>,
    /// Peers to which each session has been opened.
    pub opened: Map<SessionId, Set<PeerId>>,
    pub config: EngineConfig,
    pub meta: Map<SessionId, SessionMeta>,
    /// Disposed sessions, with the time of disposal.
    pub tombstones: Map<SessionId, Nanos>,
    /// Chunks whose session has not opened.
    pub parked: Map<SessionId, Seq<ParkedView>>,
    pub next_cleanup: Nanos,
}

/// An engine and its transport.
#[verifier::ext_equal]
pub ghost struct World<M, F, N> {
    pub engine: EngineView<M, F>,
    pub net: N,
}

/// `a + b`, or the largest time.
pub open spec fn later(a: Nanos, b: Nanos) -> Nanos {
    if a + b > u64::MAX {
        u64::MAX
    } else {
        (a + b) as u64
    }
}

/// Time from `since` to `now`; 0 when `since` is later.
pub open spec fn elapsed(now: Nanos, since: Nanos) -> int {
    if since > now {
        0
    } else {
        now - since
    }
}

impl<M, F> EngineView<M, F> {
    /// An engine that has done nothing yet.
    pub open spec fn idle(local_peer: PeerId, config: EngineConfig, now: Nanos) -> EngineView<M, F> {
        EngineView {
            local_peer,
            name: names::peer_name(local_peer as nat),
            channels: Map::empty(),
            connected: Set::empty(),
            delivered: Seq::empty(),
            pending: Map::empty(),
            owed: Seq::empty(),
            due: Map::empty(),
            preambles: Map::empty(),
            opened: Map::empty(),
            config,
            meta: Map::empty(),
            tombstones: Map::empty(),
            parked: Map::empty(),
            next_cleanup: later(now, config.cleanup_interval),
        }
    }

    /// The session, if it exists.
    pub open spec fn session(self, id: SessionId) -> Option<SessionView<M>> {
        if self.channels.contains_key(id.0) && self.channels[id.0].sessions.contains_key(id.1) {
            Some(self.channels[id.0].sessions[id.1])
        } else {
            None
        }
    }

    /// State in which the session, which exists, is `s`.
    pub open spec fn with_session(self, id: SessionId, s: SessionView<M>) -> EngineView<M, F> {
        let c = self.channels[id.0];
        EngineView {
            channels: self.channels.insert(
                id.0,
                ChannelView { sessions: c.sessions.insert(id.1, s), ..c },
            ),
            ..self
        }
    }

    /// Peers to which the session has been opened.
    pub open spec fn opened_to(self, id: SessionId) -> Set<PeerId> {
        if self.opened.contains_key(id) {
            self.opened[id]
        } else {
            Set::empty()
        }
    }

    /// Every session has its preamble retained and its creation time
    /// recorded.
    pub open spec fn recorded(self) -> bool {
        forall|c: Seq<char>, m: Seq<char>|
            self.channels.contains_key(c) && #[trigger] self.channels[c].sessions.contains_key(m)
                ==> self.preambles.contains_key((c, m)) && self.meta.contains_key((c, m))
    }

    /// The session is disposed and its tombstone stands.
    pub open spec fn tombstoned(self, id: SessionId) -> bool {
        self.tombstones.contains_key(id)
    }

    /// State after the creation time of a session is recorded, unless it is
    /// known already.
    pub open spec fn created(self, id: SessionId, now: Nanos) -> EngineView<M, F> {
        if self.meta.contains_key(id) {
            self
        } else {
            EngineView {
                meta: self.meta.insert(id, SessionMeta { created_at: now, terminal_at: None }),
                ..self
            }
        }
    }

    /// State after a session is marked terminal, unless it is so already.
    pub open spec fn ended(self, id: SessionId, now: Nanos) -> EngineView<M, F> {
        if self.meta.contains_key(id) && self.meta[id].terminal_at is None {
            EngineView {
                meta: self.meta.insert(
                    id,
                    SessionMeta { terminal_at: Some(now), ..self.meta[id] },
                ),
                ..self
            }
        } else {
            self
        }
    }

    /// Chunks parked for a session.
    pub open spec fn parked_for(self, id: SessionId) -> Seq<ParkedView> {
        if self.parked.contains_key(id) {
            self.parked[id]
        } else {
            Seq::empty()
        }
    }

    /// State after a chunk is parked; the oldest makes room when the buffer
    /// is full.
    pub open spec fn with_parked(self, id: SessionId, chunk: ParkedView) -> EngineView<M, F> {
        let buf = self.parked_for(id);
        let room = if buf.len() >= engine::MAX_PARKED_CHUNKS_PER_MESSAGE {
            buf.remove(0)
        } else {
            buf
        };
        EngineView { parked: self.parked.insert(id, room.push(chunk)), ..self }
    }

    /// A session past its lifetime, or past its linger once terminal.
    pub open spec fn expired(self, id: SessionId, now: Nanos) -> bool {
        &&& self.meta.contains_key(id)
        &&& {
            ||| elapsed(now, self.meta[id].created_at) > self.config.active_session_ttl
            ||| (self.meta[id].terminal_at matches Some(t) && elapsed(now, t)
                > self.config.reconstructed_linger)
        }
    }

    /// State after the sessions in `gone` are disposed.
    pub open spec fn disposed(self, gone: Set<SessionId>, now: Nanos) -> EngineView<M, F> {
        EngineView {
            channels: Map::new(
                |c: Seq<char>| self.channels.contains_key(c),
                |c: Seq<char>|
                    ChannelView {
                        sessions: self.channels[c].sessions.remove_keys(
                            Set::new(|m: Seq<char>| gone.contains((c, m))),
                        ),
                        ..self.channels[c]
                    },
            ),
            meta: self.meta.remove_keys(gone),
            preambles: self.preambles.remove_keys(gone),
            opened: self.opened.remove_keys(gone),
            parked: self.parked.remove_keys(gone),
            pending: table::kept(
                self.pending,
                |k: (Seq<char>, Seq<char>, u64), p: PeerId| !gone.contains((k.0, k.1)),
            ),
            due: table::kept(
                self.due,
                |k: (Seq<char>, Seq<char>, u64), u: Seq<u8>| !gone.contains((k.0, k.1)),
            ),
            tombstones: Map::new(
                |id: SessionId| self.tombstones.contains_key(id) || gone.contains(id),
                |id: SessionId|
                    if gone.contains(id) {
                        now
                    } else {
                        self.tombstones[id]
                    },
            ),
            ..self
        }
    }

    /// The chunks of a buffer that have not outlived their time.
    pub open spec fn fresh(buf: Seq<ParkedView>, now: Nanos) -> Seq<ParkedView> {
        buf.filter(|c: ParkedView| elapsed(now, c.parked_at) <= engine::PARKED_CHUNK_TTL)
    }

    /// State after a cleanup sweep: expired sessions are disposed, old
    /// tombstones and old parked chunks are dropped.
    pub open spec fn swept(self, now: Nanos) -> EngineView<M, F> {
        let e = self.disposed(Set::new(|id: SessionId| self.expired(id, now)), now);
        EngineView {
            tombstones: table::kept(
                e.tombstones,
                |id: SessionId, at: Nanos| elapsed(now, at) <= e.config.tombstone_ttl,
            ),
            parked: table::kept(
                e.parked.map_values(|buf: Seq<ParkedView>| Self::fresh(buf, now)),
                |id: SessionId, buf: Seq<ParkedView>| buf.len() > 0,
            ),
            ..e
        }
    }

    /// State after the sweep that is due at `now`, if one is.
    pub open spec fn cleaned(self, now: Nanos) -> EngineView<M, F> {
        if now < self.next_cleanup {
            self
        } else {
            EngineView { next_cleanup: later(now, self.config.cleanup_interval), ..self }.swept(now)
        }
    }
}

/// Disposing no session changes nothing.
pub(crate) proof fn lemma_dispose_none<M, F>(e: EngineView<M, F>, now: Nanos)
    ensures
        e.disposed(Set::empty(), now) == e,
{
    let d = e.disposed(Set::empty(), now);
    assert forall|c: Seq<char>| e.channels.contains_key(c) implies d.channels[c] == e.channels[c] by {
        let out = Set::new(|m: Seq<char>| Set::<SessionId>::empty().contains((c, m)));
        assert(e.channels[c].sessions.remove_keys(out) =~= e.channels[c].sessions);
    }
    assert(d.channels =~= e.channels);
    assert(d.meta =~= e.meta);
    assert(d.preambles =~= e.preambles);
    assert(d.opened =~= e.opened);
    assert(d.parked =~= e.parked);
    assert(d.pending =~= e.pending);
    assert(d.due =~= e.due);
    assert(d.tombstones =~= e.tombstones);
    assert(d =~= e);
}

/// Disposing sessions and then one more is disposing them together.
pub(crate) proof fn lemma_dispose_one_more<M, F>(
    e: EngineView<M, F>,
    gone: Set<SessionId>,
    id: SessionId,
    now: Nanos,
)
    ensures
        e.disposed(gone, now).disposed(set![id], now) == e.disposed(gone.insert(id), now),
{
    let one: Set<SessionId> = set![id];
    let both = gone.insert(id);
    let a = e.disposed(gone, now).disposed(one, now);
    let b = e.disposed(both, now);
    assert forall|c: Seq<char>| e.channels.contains_key(c) implies a.channels[c] == b.channels[c] by {
        let o1 = Set::new(|m: Seq<char>| gone.contains((c, m)));
        let o2 = Set::new(|m: Seq<char>| one.contains((c, m)));
        let o3 = Set::new(|m: Seq<char>| both.contains((c, m)));
        assert(e.channels[c].sessions.remove_keys(o1).remove_keys(o2)
            =~= e.channels[c].sessions.remove_keys(o3));
    }
    assert(a.channels =~= b.channels);
    assert(a.meta =~= b.meta);
    assert(a.preambles =~= b.preambles);
    assert(a.opened =~= b.opened);
    assert(a.parked =~= b.parked);
    assert(a.pending =~= b.pending);
    assert(a.due =~= b.due);
    assert(a.tombstones =~= b.tombstones);
    assert(a =~= b);
}

/// The transport had no room for a message.
pub open spec fn refused(r: Result<(), NetError>) -> bool {
    r matches Err(x) && x is Backpressure
}

/// The result of sends that go on after a lack of room: the failure that
/// ended them, or else the first lack of room.
pub open spec fn overall(a: Result<(), NetError>, b: Result<(), NetError>) -> Result<(), NetError> {
    if a is Ok || (b is Err && !refused(b)) {
        b
    } else {
        a
    }
}

/// The state and the transport after one more message.
pub open spec fn submitted<M, F, N: Net>(w: World<M, F, N::Model>, msg: NetSendView) -> (
    World<M, F, N::Model>,
    Result<(), NetError>,
) {
    let (n, r) = N::sent(w.net, msg);
    (World { net: n, ..w }, r)
}

impl<
    S: Strategy<ChunkId = u32, RoutingUpdate = BitMap>,
    F: StrategyFactory<S>,
> Engine<S, F> {
    /// Invariant: the strategy of every session is valid, and every session
    /// has its preamble retained and its creation time recorded.
    pub open spec fn valid(e: EngineView<S::Model, F::Model>) -> bool {
        &&& forall|c: Seq<char>| #[trigger]
            e.channels.contains_key(c) ==> Channel::<S, F>::valid(e.channels[c])
        &&& e.recorded()
    }

    /// The message that a control frame is sent as.
    pub open spec fn frame_message(e: EngineView<S::Model, F::Model>, f: FrameView) -> NetSendView {
        match f {
            FrameView::Handshake { peer } => NetSendView::Handshake {
                peer,
                version: engine::PROTOCOL_VERSION,
                channels: order::alphabetical(e.channels.dom()),
                peer_id: e.name,
            },
            FrameView::Subscribe { peer, channel } => NetSendView::Subscribe { peer, channel },
        }
    }

    /// Sends a control frame. One for which the transport has no room is owed.
    pub open spec fn frame_sent<N: Net>(w: World<S::Model, F::Model, N::Model>, f: FrameView) -> (
        World<S::Model, F::Model, N::Model>,
        Result<(), NetError>,
    ) {
        let (w1, r) = submitted::<S::Model, F::Model, N>(w, Self::frame_message(w.engine, f));
        if refused(r) {
            (
                World {
                    engine: EngineView { owed: w1.engine.owed.push(f), ..w1.engine },
                    ..w1
                },
                r,
            )
        } else {
            (w1, r)
        }
    }

    /// Sends control frames in turn.
    pub open spec fn frames_sent<N: Net>(
        w: World<S::Model, F::Model, N::Model>,
        frames: Seq<FrameView>,
    ) -> World<S::Model, F::Model, N::Model>
        decreases frames.len(),
    {
        if frames.len() == 0 {
            w
        } else {
            Self::frames_sent::<N>(Self::frame_sent::<N>(w, frames[0]).0, frames.drop_first())
        }
    }

    /// Sends again the control frames that are owed.
    pub open spec fn caught_up<N: Net>(w: World<S::Model, F::Model, N::Model>) -> World<
        S::Model,
        F::Model,
        N::Model,
    > {
        Self::frames_sent::<N>(
            World { engine: EngineView { owed: Seq::empty(), ..w.engine }, ..w },
            w.engine.owed,
        )
    }

    /// Opens the session to `peer` unless that was done before, or no
    /// preamble is retained.
    pub open spec fn ensured<N: Net>(
        w: World<S::Model, F::Model, N::Model>,
        id: SessionId,
        peer: PeerId,
    ) -> (World<S::Model, F::Model, N::Model>, Result<(), NetError>) {
        let e = w.engine;
        if e.opened_to(id).contains(peer) || !e.preambles.contains_key(id) {
            (w, Ok(()))
        } else {
            let (w1, r) = submitted::<S::Model, F::Model, N>(
                w,
                NetSendView::SessionOpen {
                    peer,
                    channel: id.0,
                    message_id: id.1,
                    preamble: e.preambles[id],
                    initial_update: Seq::empty(),
                },
            );
            match r {
                Ok(()) => (
                    World {
                        engine: EngineView {
                            opened: e.opened.insert(id, e.opened_to(id).insert(peer)),
                            ..e
                        },
                        ..w1
                    },
                    Ok(()),
                ),
                Err(x) => (w1, Err(x)),
            }
        }
    }

    /// Opens the session to each of `peers`, up to the first failure.
    pub open spec fn ensured_all<N: Net>(
        w: World<S::Model, F::Model, N::Model>,
        id: SessionId,
        peers: Seq<PeerId>,
    ) -> (World<S::Model, F::Model, N::Model>, Result<(), NetError>)
        decreases peers.len(),
    {
        if peers.len() == 0 {
            (w, Ok(()))
        } else {
            let (w1, r) = Self::ensured::<N>(w, id, peers[0]);
            match r {
                Ok(()) => Self::ensured_all::<N>(w1, id, peers.drop_first()),
                Err(x) => (w1, Err(x)),
            }
        }
    }

    /// Sends a routing update to one peer, opening the session to it first.
    /// An update for which the transport has no room is due.
    pub open spec fn update_sent<N: Net>(
        w: World<S::Model, F::Model, N::Model>,
        id: SessionId,
        peer: PeerId,
        payload: Seq<u8>,
    ) -> (World<S::Model, F::Model, N::Model>, Result<(), NetError>) {
        let key = (id.0, id.1, peer);
        let (w1, r1) = Self::ensured::<N>(w, id, peer);
        let (w2, r2) = match r1 {
            Err(x) => (w1, Err(x)),
            Ok(()) => submitted::<S::Model, F::Model, N>(
                w1,
                NetSendView::RoutingUpdate { peer, channel: id.0, message_id: id.1, payload },
            ),
        };
        let due = if refused(r2) {
            w2.engine.due.insert(key, payload)
        } else {
            w2.engine.due.remove(key)
        };
        (World { engine: EngineView { due, ..w2.engine }, ..w2 }, r2)
    }

    /// Sends a routing update to each of `peers`, up to the first failure
    /// other than a lack of room. The result is the first lack of room, or
    /// that failure.
    pub open spec fn routing_sent<N: Net>(
        w: World<S::Model, F::Model, N::Model>,
        id: SessionId,
        peers: Seq<PeerId>,
        payload: Seq<u8>,
    ) -> (World<S::Model, F::Model, N::Model>, Result<(), NetError>)
        decreases peers.len(),
    {
        if peers.len() == 0 {
            (w, Ok(()))
        } else {
            let (w1, r) = Self::update_sent::<N>(w, id, peers[0], payload);
            if r is Ok || refused(r) {
                let (w2, rest) = Self::routing_sent::<N>(w1, id, peers.drop_first(), payload);
                (w2, overall(r, rest))
            } else {
                (w1, r)
            }
        }
    }

    /// Sends again the routing updates that are due to `peers`, up to the
    /// first failure other than a lack of room.
    pub open spec fn due_sent<N: Net>(
        w: World<S::Model, F::Model, N::Model>,
        id: SessionId,
        peers: Seq<PeerId>,
    ) -> (World<S::Model, F::Model, N::Model>, Result<(), NetError>)
        decreases peers.len(),
    {
        if peers.len() == 0 {
            (w, Ok(()))
        } else {
            let key = (id.0, id.1, peers[0]);
            let (w1, r) = if w.engine.due.contains_key(key) {
                Self::update_sent::<N>(w, id, peers[0], w.engine.due[key])
            } else {
                (w, Ok(()))
            };
            if r is Ok || refused(r) {
                Self::due_sent::<N>(w1, id, peers.drop_first())
            } else {
                (w1, r)
            }
        }
    }

    /// State after the outcome of a dispatch is reported to its session.
    pub open spec fn reported(
        e: EngineView<S::Model, F::Model>,
        id: SessionId,
        peer: PeerId,
        handle: u64,
        ok: bool,
    ) -> EngineView<S::Model, F::Model> {
        match e.session(id) {
            Some(s) => e.with_session(id, Session::<S>::reported(s, peer, handle, ok)),
            None => e,
        }
    }

    /// State after dispatches that were not sent are reported as failed.
    pub open spec fn refunded(
        e: EngineView<S::Model, F::Model>,
        id: SessionId,
        ds: Seq<DispatchView<u32>>,
    ) -> EngineView<S::Model, F::Model>
        decreases ds.len(),
    {
        if ds.len() == 0 {
            e
        } else {
            Self::refunded(
                Self::reported(e, id, ds[0].peer, ds[0].handle, false),
                id,
                ds.drop_first(),
            )
        }
    }

    /// Sends the chunk of a dispatch to a peer whose session is open. A chunk
    /// that enters the transport is pending; one that does not is refunded.
    /// The result tells whether it was refunded.
    pub open spec fn chunk_sent<N: Net>(
        w: World<S::Model, F::Model, N::Model>,
        id: SessionId,
        d: DispatchView<u32>,
    ) -> (World<S::Model, F::Model, N::Model>, bool) {
        let (w1, r) = submitted::<S::Model, F::Model, N>(
            w,
            NetSendView::Chunk {
                peer: d.peer,
                channel: id.0,
                message_id: id.1,
                chunk_id: d.chunk_id,
                payload: d.payload,
                token: d.handle,
            },
        );
        match r {
            Ok(()) => (
                World {
                    engine: EngineView {
                        pending: w1.engine.pending.insert((id.0, id.1, d.handle), d.peer),
                        ..w1.engine
                    },
                    ..w1
                },
                false,
            ),
            Err(_) => (
                World { engine: Self::reported(w1.engine, id, d.peer, d.handle, false), ..w1 },
                true,
            ),
        }
    }

    /// State after the dispatches of a failed send: refunded where the
    /// transport had no room, left as they are otherwise.
    pub open spec fn abandoned(
        e: EngineView<S::Model, F::Model>,
        id: SessionId,
        ds: Seq<DispatchView<u32>>,
        failure: NetError,
    ) -> EngineView<S::Model, F::Model> {
        if failure is Backpressure {
            Self::refunded(e, id, ds)
        } else {
            e
        }
    }

    /// Sends dispatches, opening the session to their peers first, up to the
    /// first failure to open; where that is a lack of room, those that are
    /// left are refunded. The result tells whether a chunk was refunded.
    pub open spec fn chunks_sent<N: Net>(
        w: World<S::Model, F::Model, N::Model>,
        id: SessionId,
        ds: Seq<DispatchView<u32>>,
        stalled: bool,
    ) -> (World<S::Model, F::Model, N::Model>, Result<bool, NetError>)
        decreases ds.len(),
    {
        if ds.len() == 0 {
            (w, Ok(stalled))
        } else {
            let (w1, r) = Self::ensured::<N>(w, id, ds[0].peer);
            match r {
                Err(x) => (World { engine: Self::abandoned(w1.engine, id, ds, x), ..w1 }, Err(x)),
                Ok(()) => {
                    let (w2, refunded) = Self::chunk_sent::<N>(w1, id, ds[0]);
                    Self::chunks_sent::<N>(w2, id, ds.drop_first(), stalled || refunded)
                },
            }
        }
    }

    /// Sends the work of one poll: routing to the subscribers, then chunks.
    /// Where routing lacks room, the chunks are refunded.
    pub open spec fn work_sent<N: Net>(
        w: World<S::Model, F::Model, N::Model>,
        id: SessionId,
        routing: Option<Seq<bool>>,
        ds: Seq<DispatchView<u32>>,
    ) -> (World<S::Model, F::Model, N::Model>, Result<bool, NetError>) {
        let (w1, r) = match routing {
            Some(bits) => Self::routing_sent::<N>(
                w,
                id,
                order::ascending(w.engine.channels[id.0].subscribers),
                bitmap::packed(bits),
            ),
            None => (w, Ok(())),
        };
        match r {
            Err(x) => (World { engine: Self::abandoned(w1.engine, id, ds, x), ..w1 }, Err(x)),
            Ok(()) => Self::chunks_sent::<N>(w1, id, ds, false),
        }
    }

    /// Polls the session and sends its work until there is none, a chunk was
    /// refunded, or a send failed; at most `rounds` times.
    pub open spec fn drained<N: Net>(
        w: World<S::Model, F::Model, N::Model>,
        id: SessionId,
        rounds: nat,
    ) -> (World<S::Model, F::Model, N::Model>, Result<(), NetError>)
        decreases rounds,
    {
        match w.engine.session(id) {
            None => (w, Ok(())),
            Some(s) => if rounds == 0 {
                (w, Ok(()))
            } else {
                let (s1, routing, ds) = Session::<S>::polled(s);
                let w1 = World { engine: w.engine.with_session(id, s1), ..w };
                if routing is None && ds.len() == 0 {
                    (w1, Ok(()))
                } else {
                    let (w2, r) = Self::work_sent::<N>(w1, id, routing, ds);
                    match r {
                        Err(x) => (w2, Err(x)),
                        Ok(true) => (w2, Ok(())),
                        Ok(false) => Self::drained::<N>(w2, id, (rounds - 1) as nat),
                    }
                }
            },
        }
    }

    /// Sends again the control frames that are owed and what is due of the
    /// session's routing, then drains the session completely. A session polls
    /// fewer times than its backlog says, so that many rounds and one are
    /// enough.
    pub open spec fn drain<N: Net>(w: World<S::Model, F::Model, N::Model>, id: SessionId) -> (
        World<S::Model, F::Model, N::Model>,
        Result<(), NetError>,
    ) {
        match w.engine.session(id) {
            Some(s) => {
                let (w1, r) = Self::due_sent::<N>(
                    Self::caught_up::<N>(w),
                    id,
                    order::ascending(w.engine.channels[id.0].subscribers),
                );
                match r {
                    Ok(()) => Self::drained::<N>(w1, id, S::backlog(s.strategy) + 1),
                    Err(x) => (w1, Err(x)),
                }
            },
            None => (w, Ok(())),
        }
    }

    /// Drains the sessions of a channel in turn, up to the first failure.
    pub open spec fn drained_all<N: Net>(
        w: World<S::Model, F::Model, N::Model>,
        channel: Seq<char>,
        messages: Seq<Seq<char>>,
    ) -> (World<S::Model, F::Model, N::Model>, Result<(), NetError>)
        decreases messages.len(),
    {
        if messages.len() == 0 {
            (w, Ok(()))
        } else {
            let (w1, r) = Self::drain::<N>(w, (channel, messages[0]));
            match r {
                Ok(()) => Self::drained_all::<N>(w1, channel, messages.drop_first()),
                Err(x) => (w1, Err(x)),
            }
        }
    }

    /// Sends again the control frames that are owed and drains every session
    /// of a channel.
    pub open spec fn drain_channel_of<N: Net>(
        w: World<S::Model, F::Model, N::Model>,
        channel: Seq<char>,
    ) -> (World<S::Model, F::Model, N::Model>, Result<(), NetError>) {
        if w.engine.channels.contains_key(channel) {
            Self::drained_all::<N>(
                Self::caught_up::<N>(w),
                channel,
                order::alphabetical(w.engine.channels[channel].sessions.dom()),
            )
        } else {
            (w, Ok(()))
        }
    }

    /// State after `peer` subscribed to a channel, if the engine hosts it.
    pub open spec fn subscribed(e: EngineView<S::Model, F::Model>, channel: Seq<char>, peer: PeerId) -> EngineView<
        S::Model,
        F::Model,
    > {
        if e.channels.contains_key(channel) {
            EngineView {
                channels: e.channels.insert(
                    channel,
                    Channel::<S, F>::subscribed(e.channels[channel], peer),
                ),
                ..e
            }
        } else {
            e
        }
    }

    /// Subscribes `peer` to each of `channels` and drains them.
    pub open spec fn joined<N: Net>(
        w: World<S::Model, F::Model, N::Model>,
        peer: PeerId,
        channels: Seq<Seq<char>>,
    ) -> World<S::Model, F::Model, N::Model>
        decreases channels.len(),
    {
        if channels.len() == 0 {
            w
        } else {
            let w1 = World { engine: Self::subscribed(w.engine, channels[0], peer), ..w };
            Self::joined::<N>(
                Self::drain_channel_of::<N>(w1, channels[0]).0,
                peer,
                channels.drop_first(),
            )
        }
    }

    /// Introduces the engine to `peer`, once.
    pub open spec fn introduced<N: Net>(w: World<S::Model, F::Model, N::Model>, peer: PeerId) -> (
        World<S::Model, F::Model, N::Model>,
        Result<(), NetError>,
    ) {
        if w.engine.connected.contains(peer) {
            (w, Ok(()))
        } else {
            let w1 = World {
                engine: EngineView { connected: w.engine.connected.insert(peer), ..w.engine },
                ..w
            };
            Self::frame_sent::<N>(w1, FrameView::Handshake { peer })
        }
    }

    /// Decodes a complete session. Either outcome ends it; a payload is
    /// delivered and the transport is told.
    pub open spec fn decoded<N: Net>(w: World<S::Model, F::Model, N::Model>, id: SessionId, now: Nanos) -> World<
        S::Model,
        F::Model,
        N::Model,
    > {
        match w.engine.session(id) {
            None => w,
            Some(s) => {
                let (s1, r) = Session::<S>::finished(s);
                let e = w.engine.with_session(id, s1).ended(id, now);
                match r {
                    Ok(payload) => submitted::<S::Model, F::Model, N>(
                        World {
                            engine: EngineView {
                                delivered: e.delivered.push(
                                    DeliveredView { channel_id: id.0, message_id: id.1, payload },
                                ),
                                ..e
                            },
                            ..w
                        },
                        NetSendView::SessionReconstructed { channel: id.0, message_id: id.1 },
                    ).0,
                    Err(_) => World { engine: e, ..w },
                }
            },
        }
    }

    /// State after a chunk is delivered to a session, and whether the session
    /// is complete.
    pub open spec fn taken(
        e: EngineView<S::Model, F::Model>,
        id: SessionId,
        chunk_id: u32,
        payload: Seq<u8>,
    ) -> (EngineView<S::Model, F::Model>, bool) {
        match e.session(id) {
            Some(s) => {
                let (s1, r) = Session::<S>::taken(s, chunk_id, payload);
                (
                    e.with_session(id, s1),
                    match r {
                        Ok(o) => o.complete,
                        Err(_) => false,
                    },
                )
            },
            None => (e, false),
        }
    }

    /// Delivers parked chunks in turn; the result tells whether one of them
    /// found or made the session complete.
    pub open spec fn taken_all(
        e: EngineView<S::Model, F::Model>,
        id: SessionId,
        chunks: Seq<ParkedView>,
        complete: bool,
    ) -> (EngineView<S::Model, F::Model>, bool)
        decreases chunks.len(),
    {
        if chunks.len() == 0 {
            (e, complete)
        } else {
            let (e1, c) = Self::taken(e, id, chunks[0].chunk_id, chunks[0].payload);
            Self::taken_all(e1, id, chunks.drop_first(), complete || c)
        }
    }

    /// Drains a session that took chunks, and decodes it if it is complete.
    pub open spec fn progressed<N: Net>(
        w: World<S::Model, F::Model, N::Model>,
        id: SessionId,
        complete: bool,
        now: Nanos,
    ) -> World<S::Model, F::Model, N::Model> {
        let w1 = Self::drain::<N>(w, id).0;
        if complete {
            Self::decoded::<N>(w1, id, now)
        } else {
            w1
        }
    }

    /// Delivers the chunks parked for a session.
    pub open spec fn replayed<N: Net>(w: World<S::Model, F::Model, N::Model>, id: SessionId, now: Nanos) -> World<
        S::Model,
        F::Model,
        N::Model,
    > {
        if w.engine.parked.contains_key(id) {
            let e = EngineView { parked: w.engine.parked.remove(id), ..w.engine };
            let (e1, complete) = Self::taken_all(e, id, w.engine.parked[id], false);
            Self::progressed::<N>(World { engine: e1, ..w }, id, complete, now)
        } else {
            w
        }
    }

    /// Opens a session announced by a peer, unless it is disposed, the
    /// channel is unknown, or the channel refuses it.
    pub open spec fn opened<N: Net>(
        w: World<S::Model, F::Model, N::Model>,
        id: SessionId,
        preamble: Seq<u8>,
        now: Nanos,
        reading: u32,
    ) -> World<S::Model, F::Model, N::Model> {
        let e = w.engine;
        if e.tombstoned(id) || !e.channels.contains_key(id.0) {
            w
        } else {
            let (c, r) = Channel::<S, F>::opened(e.channels[id.0], id.1, preamble, reading);
            let e1 = EngineView { channels: e.channels.insert(id.0, c), ..e };
            match r {
                Err(_) => World { engine: e1, ..w },
                Ok(()) => {
                    let e2 = EngineView { preambles: e1.preambles.insert(id, preamble), ..e1 };
                    let w3 = World { engine: e2.created(id, now), ..w };
                    Self::replayed::<N>(Self::drain::<N>(w3, id).0, id, now)
                },
            }
        }
    }

    /// Handles an inbound chunk: ignored for a disposed session, parked for
    /// one that has not opened.
    pub open spec fn received<N: Net>(
        w: World<S::Model, F::Model, N::Model>,
        id: SessionId,
        chunk_id: u32,
        payload: Seq<u8>,
        now: Nanos,
    ) -> World<S::Model, F::Model, N::Model> {
        let e = w.engine;
        if e.tombstoned(id) {
            w
        } else if e.session(id) is None {
            World {
                engine: e.with_parked(id, ParkedView { chunk_id, payload, parked_at: now }),
                ..w
            }
        } else {
            let (e1, complete) = Self::taken(e, id, chunk_id, payload);
            Self::progressed::<N>(World { engine: e1, ..w }, id, complete, now)
        }
    }

    /// State after a peer is gone.
    pub open spec fn left(e: EngineView<S::Model, F::Model>, peer: PeerId) -> EngineView<S::Model, F::Model> {
        EngineView {
            connected: e.connected.remove(peer),
            pending: table::kept(
                e.pending,
                |k: (Seq<char>, Seq<char>, u64), p: PeerId| p != peer,
            ),
            owed: e.owed.filter(|f: FrameView| f.peer() != peer),
            due: table::kept(
                e.due,
                |k: (Seq<char>, Seq<char>, u64), u: Seq<u8>| k.2 != peer,
            ),
            opened: e.opened.map_values(|s: Set<PeerId>| s.remove(peer)),
            channels: e.channels.map_values(
                |c: ChannelView<S::Model, F::Model>| Channel::<S, F>::unsubscribed(c, peer),
            ),
            ..e
        }
    }

    /// Resolves a pending chunk; an outcome that nothing waits for is ignored.
    pub open spec fn resolved<N: Net>(
        w: World<S::Model, F::Model, N::Model>,
        id: SessionId,
        peer: PeerId,
        token: u64,
        ok: bool,
    ) -> World<S::Model, F::Model, N::Model> {
        let key = (id.0, id.1, token);
        if w.engine.pending.contains_key(key) {
            let e = EngineView { pending: w.engine.pending.remove(key), ..w.engine };
            Self::drain::<N>(
                World { engine: Self::reported(e, id, peer, token, ok), ..w },
                id,
            ).0
        } else {
            w
        }
    }

    /// State after a peer is detached from one session.
    pub open spec fn detached(
        e: EngineView<S::Model, F::Model>,
        id: SessionId,
        peer: PeerId,
        completed: bool,
    ) -> EngineView<S::Model, F::Model> {
        match e.session(id) {
            Some(s) => e.with_session(id, Session::<S>::detached(s, peer, completed)),
            None => e,
        }
    }

    /// What an inbound event does at `now`, when the wall clock is `reading`
    /// nanoseconds into its second.
    pub open spec fn handled<N: Net>(
        w: World<S::Model, F::Model, N::Model>,
        event: NetEventView,
        now: Nanos,
        reading: u32,
    ) -> World<S::Model, F::Model, N::Model> {
        let e = w.engine;
        match event {
            NetEventView::Handshake { peer, version, channels, .. } => if version
                == engine::PROTOCOL_VERSION {
                Self::joined::<N>(
                    World { engine: EngineView { connected: e.connected.insert(peer), ..e }, ..w },
                    peer,
                    channels,
                )
            } else {
                World { engine: EngineView { connected: e.connected.remove(peer), ..e }, ..w }
            },
            NetEventView::Subscribe { peer, channel } => Self::drain_channel_of::<N>(
                World { engine: Self::subscribed(e, channel, peer), ..w },
                channel,
            ).0,
            NetEventView::Unsubscribe { peer, channel } => if e.channels.contains_key(channel) {
                World {
                    engine: EngineView {
                        channels: e.channels.insert(
                            channel,
                            Channel::<S, F>::unsubscribed(e.channels[channel], peer),
                        ),
                        ..e
                    },
                    ..w
                }
            } else {
                w
            },
            NetEventView::SessionOpen { channel, message_id, preamble, .. } => Self::opened::<N>(
                w,
                (channel, message_id),
                preamble,
                now,
                reading,
            ),
            NetEventView::RoutingUpdate { .. } => w,
            NetEventView::Chunk { channel, message_id, chunk_id, payload, .. } => {
                Self::received::<N>(w, (channel, message_id), chunk_id, payload, now)
            },
            NetEventView::PeerDisconnected { peer } => World { engine: Self::left(e, peer), ..w },
            NetEventView::PeerConnected { peer } => Self::introduced::<N>(w, peer).0,
            NetEventView::ChunkSendResult { peer, channel, message_id, token, ok } => {
                Self::resolved::<N>(w, (channel, message_id), peer, token, ok)
            },
            NetEventView::PeerReconstructed { peer, channel, message_id } => World {
                engine: Self::detached(e, (channel, message_id), peer, true),
                ..w
            },
            NetEventView::SessionClosed { peer, channel, message_id } => World {
                engine: Self::detached(e, (channel, message_id), peer, false),
                ..w
            },
        }
    }

    /// Announces a local subscription to each of `peers`, up to the first
    /// failure other than a lack of room. The result is the first lack of
    /// room, or that failure.
    pub open spec fn announced<N: Net>(
        w: World<S::Model, F::Model, N::Model>,
        channel: Seq<char>,
        peers: Seq<PeerId>,
    ) -> (World<S::Model, F::Model, N::Model>, Result<(), NetError>)
        decreases peers.len(),
    {
        if peers.len() == 0 {
            (w, Ok(()))
        } else {
            let (w1, r) = Self::frame_sent::<N>(w, FrameView::Subscribe { peer: peers[0], channel });
            if r is Ok || refused(r) {
                let (w2, rest) = Self::announced::<N>(w1, channel, peers.drop_first());
                (w2, overall(r, rest))
            } else {
                (w1, r)
            }
        }
    }

    /// State after the engine hosts a channel; one it hosts already stays.
    pub open spec fn hosting(e: EngineView<S::Model, F::Model>, channel: Seq<char>, factory: F::Model) -> EngineView<
        S::Model,
        F::Model,
    > {
        if e.channels.contains_key(channel) {
            e
        } else {
            EngineView {
                channels: e.channels.insert(channel, Channel::<S, F>::empty(channel, factory)),
                ..e
            }
        }
    }

    /// Publishes a payload as an origin.
    pub open spec fn published<N: Net>(
        w: World<S::Model, F::Model, N::Model>,
        id: SessionId,
        strategy: S::Model,
        preamble: Seq<u8>,
        now: Nanos,
    ) -> (World<S::Model, F::Model, N::Model>, Result<(), EngineFault>) {
        let e = w.engine;
        if !e.channels.contains_key(id.0) {
            (w, Err(EngineFault::UnknownChannel(id.0)))
        } else {
            let (c, r) = Channel::<S, F>::started(e.channels[id.0], id.1, strategy);
            match r {
                Err(x) => (w, Err(EngineFault::Channel(x))),
                Ok(()) => {
                    let e1 = EngineView {
                        channels: e.channels.insert(id.0, c),
                        preambles: e.preambles.insert(id, preamble),
                        ..e
                    };
                    let w1 = World { engine: e1.created(id, now), ..w };
                    let (w2, r2) = Self::ensured_all::<N>(
                        w1,
                        id,
                        order::ascending(c.subscribers),
                    );
                    match r2 {
                        Err(x) => (w2, Err(EngineFault::Net(x))),
                        Ok(()) => {
                            let (w3, r3) = Self::drain::<N>(w2, id);
                            match r3 {
                                Err(x) => (w3, Err(EngineFault::Net(x))),
                                Ok(()) => (w3, Ok(())),
                            }
                        },
                    }
                },
            }
        }
    }
}

} // verus!
