//! Scenario runner: N engines on a shared `SimNet`, driven
//! deterministically.
//!
//! The runner owns the only loop: pop the earliest pending entry from
//! the event queue, route it, and, for deliveries, step the
//! destination engine before touching later
//! entries. Engines never run concurrently, so the trace is a total
//! order decided entirely by the queue.

use vstd::prelude::*;

use crate::engine;
use crate::engine::factory;
use crate::engine::factory::{RsRelayFactory, RsRelayFactoryView, Seeds};
use crate::engine::model::{DeliveredView, EngineFault, EngineView, FrameView, SessionId, World};
use crate::engine::watch;
use crate::engine::watch::Watch;
use crate::engine::{DeliveredMessage, Engine, EngineConfig, EngineError, Nanos};
use crate::order;
use crate::pb::rs::Preamble;
use crate::pb::wire::Message;
use crate::runtime::{Net, NetError, NetSendView};
use crate::session::{SessionState, SessionView};
use crate::sim::net::{FaultPlan, PlanView, SendPredicate, SimNetEndpoint, SimNetHub};
use crate::sim::state;
use crate::sim::state::{PumpStep, SimView};
use crate::sim::trace::{TraceEntry, TraceKind};
use crate::strategy::config::RsConfig;
use crate::strategy::rs::encode;
use crate::strategy::rs::encode::EncodeError;
use crate::strategy::rs::state::{RsStrategy, RsView};
use crate::strategy::PeerId;
use crate::table::{Key, KeySet, Table};

verus! {

/// The engine type the runner hosts: Reed-Solomon strategy over the
/// sim transport.
pub type SimEngine = Engine<RsStrategy, RsRelayFactory>;

/// Capacity of each engine's delivery sink. Scenarios drain between runs, so
/// a small buffer is plenty; what does not fit is lost.
pub const DELIVERY_SINK_CAPACITY: usize = 16;

/// Multiplier that spreads peer IDs over the seeds.
pub const SPREAD: u64 = 0x9E37_79B9_7F4A_7C15;

/// Errors surfaced while driving a scenario.
#[derive(Debug)]
pub enum SimError {
    /// An engine returned an error from a step or a setup call.
    Engine { peer: PeerId, error: EngineError },
    /// An engine's event stream terminated unexpectedly.
    EngineClosed(PeerId),
    /// `run_to_quiescence` exceeded its step budget: a stall or a
    /// runaway message storm.
    MaxStepsExceeded { max: usize },
    /// A scenario call referenced a peer the runner does not host.
    UnknownPeer(PeerId),
    /// Origin-side encoding failed during `publish`.
    Encode(EncodeError),
}

/// Contents of a [`SimError`].
pub ghost enum SimFault {
    Engine { peer: PeerId, error: EngineFault },
    EngineClosed(PeerId),
    MaxStepsExceeded { max: usize },
    UnknownPeer(PeerId),
    Encode(EncodeError),
}

impl View for SimError {
    type V = SimFault;

    open spec fn view(&self) -> SimFault {
        match *self {
            SimError::Engine { peer, error } => SimFault::Engine { peer, error: error@ },
            SimError::EngineClosed(p) => SimFault::EngineClosed(p),
            SimError::MaxStepsExceeded { max } => SimFault::MaxStepsExceeded { max },
            SimError::UnknownPeer(p) => SimFault::UnknownPeer(p),
            SimError::Encode(e) => SimFault::Encode(e),
        }
    }
}

/// Contents of an answer.
pub open spec fn sim_faults<T>(r: Result<T, SimError>) -> Result<T, SimFault> {
    match r {
        Ok(t) => Ok(t),
        Err(e) => Err(e@),
    }
}

/// Seed of a peer's strategies under a scenario seed.
pub open spec fn derived(seed: u64, peer: PeerId) -> u64 {
    seed ^ peer.wrapping_mul(SPREAD)
}

/// Mix a peer ID into the scenario seed so each peer's strategies get
/// distinct but reproducible planner seeds.
pub fn derive_seed(seed: u64, peer: PeerId) -> (r: u64)
    ensures
        r == derived(seed, peer),
{
    seed ^ peer.wrapping_mul(SPREAD)
}

/// Payloads that wait for the application.
struct Sink {
    messages: Vec<DeliveredMessage>,
}

impl View for Sink {
    type V = Seq<DeliveredView>;

    closed spec fn view(&self) -> Seq<DeliveredView> {
        engine::deliveries(self.messages@)
    }
}

/// A sink after more payloads came.
pub open spec fn sunk(sink: Seq<DeliveredView>, more: Seq<DeliveredView>) -> Seq<DeliveredView> {
    let all = sink + more;
    if all.len() <= DELIVERY_SINK_CAPACITY {
        all
    } else {
        all.take(DELIVERY_SINK_CAPACITY as int)
    }
}

impl Sink {
    fn accept(&mut self, more: Vec<DeliveredMessage>)
        requires
            old(self)@.len() <= DELIVERY_SINK_CAPACITY,
        ensures
            final(self)@ == sunk(old(self)@, engine::deliveries(more@)),
    {
        let ghost all = old(self)@ + engine::deliveries(more@);
        let ghost had = old(self)@.len() as int;
        let mut rest = more;
        let ghost new = rest@;
        let mut i: usize = 0;
        assert(self@ =~= all.take(had));
        while rest.len() > 0 && self.messages.len() < DELIVERY_SINK_CAPACITY
            invariant
                all == old(self)@ + engine::deliveries(new),
                had == old(self)@.len(),
                i <= new.len(),
                rest@ == new.skip(i as int),
                self.messages@.len() == had + i,
                self.messages@.len() <= DELIVERY_SINK_CAPACITY,
                self@ == all.take(had + i),
            decreases rest@.len(),
        {
            let m = rest.remove(0);
            assert(m == new[i as int]);
            assert(rest@ =~= new.skip(i + 1));
            self.messages.push(m);
            assert(self@ =~= all.take(had + i + 1));
            i = i + 1;
        }
        assert(self@ =~= sunk(old(self)@, engine::deliveries(new)));
    }
}

/// State of a [`SimRunner`].
#[verifier::ext_equal]
pub ghost struct RunnerView<M> {
    pub seed: u64,
    pub hub: SimView<M>,
    pub engines: Map<PeerId, EngineView<RsView, RsRelayFactoryView>>,
    /// Per engine, the payloads it delivered and nobody took.
    pub delivered: Map<PeerId, Seq<DeliveredView>>,
}

impl<M> RunnerView<M> {
    /// A hosted engine and the transport as it sees it.
    pub open spec fn world(self, peer: PeerId) -> World<
        RsView,
        RsRelayFactoryView,
        (PeerId, SimView<M>),
    > {
        World { engine: self.engines[peer], net: (peer, self.hub) }
    }

    /// State in which a hosted engine and the transport are these.
    pub open spec fn with_world(
        self,
        peer: PeerId,
        w: World<RsView, RsRelayFactoryView, (PeerId, SimView<M>)>,
    ) -> RunnerView<M> {
        RunnerView { hub: w.net.1, engines: self.engines.insert(peer, w.engine), ..self }
    }

    /// State with one more engine.
    pub open spec fn hosting(self, peer: PeerId) -> RunnerView<M> {
        RunnerView {
            hub: self.hub.registered(peer),
            engines: self.engines.insert(
                peer,
                EngineView::idle(
                    peer,
                    EngineConfig {
                        active_session_ttl: 300_000_000_000,
                        reconstructed_linger: 10_000_000_000,
                        tombstone_ttl: 300_000_000_000,
                        cleanup_interval: 30_000_000_000,
                    },
                    0,
                ),
            ),
            delivered: self.delivered.insert(peer, Seq::empty()),
            ..self
        }
    }

    /// One engine per peer, on a transport governed by `plan`.
    pub open spec fn starting(peers: Seq<PeerId>, plan: PlanView<M>) -> RunnerView<M> {
        (RunnerView {
            seed: plan.seed,
            hub: SimView::start(plan),
            engines: Map::empty(),
            delivered: Map::empty(),
        }).hosting_all(peers)
    }

    /// State with one more engine for each of `peers`.
    pub open spec fn hosting_all(self, peers: Seq<PeerId>) -> RunnerView<M>
        decreases peers.len(),
    {
        if peers.len() == 0 {
            self
        } else {
            self.hosting(peers[0]).hosting_all(peers.drop_first())
        }
    }
}

/// Deterministic multi-engine scenario driver.
pub struct SimRunner<P: SendPredicate> {
    /// The transport; it speaks for the engine that runs.
    net: SimNetEndpoint<P>,
    seed: u64,
    engines: Table<PeerId, SimEngine>,
    delivered: Table<PeerId, Sink>,
}

impl<P: SendPredicate> View for SimRunner<P> {
    type V = RunnerView<P::Model>;

    closed spec fn view(&self) -> RunnerView<P::Model> {
        RunnerView {
            seed: self.seed,
            hub: self.net.model().1,
            engines: self.engines@,
            delivered: self.delivered@,
        }
    }
}

impl<P: SendPredicate> SimRunner<P> {
    /// The hosted engines are valid and have their sinks.
    pub open spec fn valid(m: RunnerView<P::Model>) -> bool {
        &&& m.engines.dom().finite()
        &&& forall|p: PeerId| #[trigger]
            m.engines.contains_key(p) ==> {
                &&& SimEngine::valid(m.engines[p])
                &&& m.delivered.contains_key(p)
                &&& m.delivered[p].len() <= DELIVERY_SINK_CAPACITY
            }
    }

    /// One engine subscribes to a channel.
    pub open spec fn subscribed(
        m: RunnerView<P::Model>,
        peer: PeerId,
        channel: Seq<char>,
        config: RsConfig,
    ) -> (RunnerView<P::Model>, Result<(), NetError>) {
        let w = m.world(peer);
        let factory = RsRelayFactoryView { config, seeds: Seeds::Counted { next: derived(m.seed, peer) } };
        let (after, r) = SimEngine::announced::<SimNetEndpoint<P>>(
            World { engine: SimEngine::hosting(w.engine, channel, factory), ..w },
            channel,
            order::ascending(w.engine.connected),
        );
        (m.with_world(peer, after), r)
    }

    /// The engines of `peers` subscribe to a channel, until one fails.
    pub open spec fn subscribed_all(
        m: RunnerView<P::Model>,
        peers: Seq<PeerId>,
        channel: Seq<char>,
        config: RsConfig,
    ) -> (RunnerView<P::Model>, Result<(), SimFault>)
        decreases peers.len(),
    {
        if peers.len() == 0 {
            (m, Ok(()))
        } else {
            let (next, r) = Self::subscribed(m, peers[0], channel, config);
            match r {
                Ok(()) => Self::subscribed_all(next, peers.drop_first(), channel, config),
                Err(e) => (
                    next,
                    Err(SimFault::Engine { peer: peers[0], error: EngineFault::Net(e) }),
                ),
            }
        }
    }

    /// The engine of `peer` connects to `others` but itself, until one fails.
    pub open spec fn connected_to(m: RunnerView<P::Model>, peer: PeerId, others: Seq<PeerId>) -> (
        RunnerView<P::Model>,
        Result<(), SimFault>,
    )
        decreases others.len(),
    {
        if others.len() == 0 {
            (m, Ok(()))
        } else if others[0] == peer {
            Self::connected_to(m, peer, others.drop_first())
        } else {
            let (after, r) = SimEngine::introduced::<SimNetEndpoint<P>>(m.world(peer), others[0]);
            let next = m.with_world(peer, after);
            match r {
                Ok(()) => Self::connected_to(next, peer, others.drop_first()),
                Err(e) => (next, Err(SimFault::Engine { peer, error: EngineFault::Net(e) })),
            }
        }
    }

    /// The engines of `from` connect to `peers`, until one fails.
    pub open spec fn connected_all(
        m: RunnerView<P::Model>,
        from: Seq<PeerId>,
        peers: Seq<PeerId>,
    ) -> (RunnerView<P::Model>, Result<(), SimFault>)
        decreases from.len(),
    {
        if from.len() == 0 {
            (m, Ok(()))
        } else {
            let (next, r) = Self::connected_to(m, from[0], peers);
            match r {
                Ok(()) => Self::connected_all(next, from.drop_first(), peers),
                Err(e) => (next, Err(e)),
            }
        }
    }

    /// A payload is published from `origin`.
    pub open spec fn published(
        m: RunnerView<P::Model>,
        origin: PeerId,
        channel: Seq<char>,
        message_id: Seq<char>,
        payload: Seq<u8>,
        config: RsConfig,
    ) -> (RunnerView<P::Model>, Result<(), SimFault>) {
        match encode::encode_fault(payload, config) {
            Some(e) => (m, Err(SimFault::Encode(e))),
            None => if !m.engines.contains_key(origin) {
                (m, Err(SimFault::UnknownPeer(origin)))
            } else {
                let (after, r) = SimEngine::published::<SimNetEndpoint<P>>(
                    m.world(origin),
                    (channel, message_id),
                    RsView::origin(payload, config, derived(m.seed, origin)),
                    Preamble::encoding(encode::preamble_of(payload, config)),
                    m.hub.now,
                );
                (
                    m.with_world(origin, after),
                    match r {
                        Ok(()) => Ok(()),
                        Err(error) => Err(SimFault::Engine { peer: origin, error }),
                    },
                )
            },
        }
    }

    /// The engine of `peer` is stepped with the next event that waits for it.
    pub open spec fn stepped(m: RunnerView<P::Model>, peer: PeerId) -> (
        RunnerView<P::Model>,
        Result<(), SimFault>,
    ) {
        let (hub, event) = m.hub.stepped(peer).taken(peer);
        let ready = RunnerView { hub, ..m };
        match event {
            None => (ready, Err(SimFault::EngineClosed(peer))),
            Some(e) => {
                let w = SimEngine::handled::<SimNetEndpoint<P>>(ready.world(peer), e, hub.now, 0);
                let done = w.engine.cleaned(hub.now);
                let after = m.with_world(
                    peer,
                    World { engine: EngineView { delivered: Seq::empty(), ..done }, ..w },
                );
                (
                    RunnerView {
                        delivered: m.delivered.insert(
                            peer,
                            sunk(m.delivered[peer], done.delivered),
                        ),
                        ..after
                    },
                    Ok(()),
                )
            },
        }
    }

    /// The simulation runs until nothing is queued; it may process `max`
    /// entries, and has processed `steps` of them.
    pub open spec fn ran(m: RunnerView<P::Model>, steps: nat, max: usize) -> (
        RunnerView<P::Model>,
        Result<nat, SimFault>,
    )
        decreases max - steps,
    {
        let (hub, step) = m.hub.popped();
        let next = RunnerView { hub, ..m };
        match step {
            None => (next, Ok(steps)),
            Some(s) => if steps >= max {
                (next, Err(SimFault::MaxStepsExceeded { max }))
            } else {
                match s {
                    PumpStep::Woke => Self::ran(next, steps + 1, max),
                    PumpStep::DeliveredTo(peer) => if !m.engines.contains_key(peer) {
                        Self::ran(next, steps + 1, max)
                    } else {
                        let (after, r) = Self::stepped(next, peer);
                        match r {
                            Ok(()) => Self::ran(after, steps + 1, max),
                            Err(e) => (after, Err(e)),
                        }
                    },
                }
            },
        }
    }

    /// Construct one engine per peer on a shared `SimNet` governed by
    /// `plan`.
    pub fn new(peers: &[PeerId], plan: FaultPlan<P>) -> (r: Self)
        ensures
            Self::valid(r@),
            r@ == RunnerView::starting(peers@, plan@),
    {
        let seed: u64 = plan.seed();
        let ghost start: RunnerView<P::Model> = RunnerView {
            seed: plan@.seed,
            hub: SimView::start(plan@),
            engines: Map::empty(),
            delivered: Map::empty(),
        };
        let net = SimNetEndpoint::new(0, SimNetHub::new(plan));
        let mut r = SimRunner { net, seed, engines: Table::new(), delivered: Table::new() };
        assert(r@ =~= start);
        let mut i: usize = 0;
        assert(peers@.skip(0) =~= peers@);
        while i < peers.len()
            invariant
                i <= peers@.len(),
                Self::valid(r@),
                r@.hosting_all(peers@.skip(i as int)) == start.hosting_all(peers@),
            decreases peers@.len() - i,
        {
            let ghost before = r@;
            let peer: PeerId = peers[i];
            assert(peers@.skip(i as int).drop_first() =~= peers@.skip(i + 1));
            r.net.hub_mut().register(peer);
            r.engines.insert(peer, Engine::new(peer, 0));
            let sink = Sink { messages: Vec::new() };
            assert(sink@ =~= Seq::<DeliveredView>::empty());
            r.delivered.insert(peer, sink);
            assert(r@ =~= before.hosting(peer));
            i = i + 1;
        }
        r
    }

    /// The shared hub, for trace access and virtual-time control.
    pub fn hub(&self) -> (r: &SimNetHub<P>)
        ensures
            r@ == self@.hub,
    {
        self.net.hub()
    }

    /// The shared hub.
    pub fn hub_mut(&mut self) -> (r: &mut SimNetHub<P>)
        ensures
            (*r)@ == old(self)@.hub,
            final(self)@ == (RunnerView { hub: (*final(r))@, ..old(self)@ }),
    {
        self.net.hub_mut()
    }

    /// The scenario seed; print this when reporting failures.
    pub fn seed(&self) -> (r: u64)
        ensures
            r == self@.seed,
    {
        self.seed
    }

    /// The hosted peers in the order of their IDs.
    fn peers(&self) -> (r: Vec<PeerId>)
        ensures
            r@ == order::ascending(self@.engines.dom()),
            forall|i: int| 0 <= i < r@.len() ==> self@.engines.contains_key(#[trigger] r@[i]),
    {
        let keys = self.engines.keys();
        let mut set: KeySet<PeerId> = KeySet::new();
        let mut i: usize = 0;
        while i < keys.len()
            invariant
                i <= keys@.len(),
                forall|p: PeerId|
                    set@.contains(p) <==> exists|j: int| 0 <= j < i && (#[trigger] keys@[j])@ == p,
            decreases keys@.len() - i,
        {
            let ghost before = set@;
            set.insert(keys[i]);
            proof {
                assert forall|p: PeerId| set@.contains(p) <==> exists|j: int|
                    0 <= j < i + 1 && (#[trigger] keys@[j])@ == p by {
                    if set@.contains(p) {
                        if p == keys@[i as int]@ {
                            assert(keys@[i as int]@ == p);
                        } else {
                            assert(before.contains(p));
                        }
                    }
                    if exists|j: int| 0 <= j < i + 1 && (#[trigger] keys@[j])@ == p {
                        let j = choose|j: int| 0 <= j < i + 1 && (#[trigger] keys@[j])@ == p;
                        if j < i {
                            assert(before.contains(p));
                        }
                    }
                }
            }
            i = i + 1;
        }
        assert(set@ =~= self@.engines.dom());
        let r = order::ascending_items(&set);
        assert forall|i: int| 0 <= i < r@.len() implies self@.engines.contains_key(
            #[trigger] r@[i],
        ) by {
            assert(r@.to_set().contains(r@[i]));
        }
        r
    }

    /// Subscribe every engine to `channel` with a deterministically
    /// seeded RS relay factory (per-peer seed derived from the
    /// scenario seed).
    pub fn subscribe_all(&mut self, channel: &String, config: RsConfig) -> (r: Result<(), SimError>)
        requires
            Self::valid(old(self)@),
        ensures
            Self::valid(final(self)@),
            (final(self)@, sim_faults(r)) == Self::subscribed_all(
                old(self)@,
                order::ascending(old(self)@.engines.dom()),
                channel@,
                config,
            ),
    {
        let peers = self.peers();
        let mut i: usize = 0;
        assert(peers@.skip(0) =~= peers@);
        while i < peers.len()
            invariant
                i <= peers@.len(),
                Self::valid(self@),
                forall|k: int| 0 <= k < peers@.len() ==> self@.engines.contains_key(#[trigger] peers@[k]),
                Self::subscribed_all(self@, peers@.skip(i as int), channel@, config)
                    == Self::subscribed_all(old(self)@, peers@, channel@, config),
                peers@ == order::ascending(old(self)@.engines.dom()),
            decreases peers@.len() - i,
        {
            let ghost before = self@;
            let peer: PeerId = peers[i];
            assert(peers@.skip(i as int).drop_first() =~= peers@.skip(i + 1));
            assert(before.engines.contains_key(peer));
            let made = factory::rs_relay_factory_seeded(config, derive_seed(self.seed, peer));
            self.net.switch_to(peer);
            if let Some(engine) = self.engines.get_mut(&peer) {
                let answer = engine.subscribe(&mut self.net, channel.dup(), made);
                assert(self@ =~= Self::subscribed(before, peer, channel@, config).0);
                if let Err(error) = answer {
                    return Err(SimError::Engine { peer, error });
                }
            }
            i = i + 1;
        }
        Ok(())
    }

    /// Connects the engine of `peer` to all peers.
    fn connect_one(&mut self, peer: PeerId, peers: &Vec<PeerId>) -> (r: Result<(), SimError>)
        requires
            Self::valid(old(self)@),
            old(self)@.engines.contains_key(peer),
        ensures
            Self::valid(final(self)@),
            final(self)@.engines.dom() == old(self)@.engines.dom(),
            (final(self)@, sim_faults(r)) == Self::connected_to(old(self)@, peer, peers@),
    {
        let mut i: usize = 0;
        assert(peers@.skip(0) =~= peers@);
        while i < peers.len()
            invariant
                i <= peers@.len(),
                Self::valid(self@),
                self@.engines.contains_key(peer),
                self@.engines.dom() == old(self)@.engines.dom(),
                Self::connected_to(self@, peer, peers@.skip(i as int)) == Self::connected_to(
                    old(self)@,
                    peer,
                    peers@,
                ),
            decreases peers@.len() - i,
        {
            let ghost before = self@;
            let other: PeerId = peers[i];
            assert(peers@.skip(i as int).drop_first() =~= peers@.skip(i + 1));
            if other != peer {
                self.net.switch_to(peer);
                if let Some(engine) = self.engines.get_mut(&peer) {
                    let answer = engine.connect(&mut self.net, other);
                    proof {
                        let (after, _) = SimEngine::introduced::<SimNetEndpoint<P>>(
                            before.world(peer),
                            other,
                        );
                        assert(self@ =~= before.with_world(peer, after));
                        assert(self@.engines.dom() =~= before.engines.dom());
                    }
                    if let Err(error) = answer {
                        return Err(SimError::Engine { peer, error });
                    }
                }
            }
            i = i + 1;
        }
        Ok(())
    }

    /// Connect every ordered pair of peers (full mesh). Handshakes are
    /// queued; call [`Self::run_to_quiescence`] to process
    /// them.
    pub fn connect_full_mesh(&mut self) -> (r: Result<(), SimError>)
        requires
            Self::valid(old(self)@),
        ensures
            Self::valid(final(self)@),
            ({
                let peers = order::ascending(old(self)@.engines.dom());
                (final(self)@, sim_faults(r)) == Self::connected_all(old(self)@, peers, peers)
            }),
    {
        let peers = self.peers();
        let mut i: usize = 0;
        assert(peers@.skip(0) =~= peers@);
        while i < peers.len()
            invariant
                i <= peers@.len(),
                Self::valid(self@),
                forall|k: int| 0 <= k < peers@.len() ==> self@.engines.contains_key(#[trigger] peers@[k]),
                Self::connected_all(self@, peers@.skip(i as int), peers@) == Self::connected_all(
                    old(self)@,
                    peers@,
                    peers@,
                ),
                peers@ == order::ascending(old(self)@.engines.dom()),
            decreases peers@.len() - i,
        {
            let ghost before = self@;
            assert(peers@.skip(i as int).drop_first() =~= peers@.skip(i + 1));
            assert(self@.engines.contains_key(peers@[i as int]));
            if let Err(e) = self.connect_one(peers[i], &peers) {
                return Err(e);
            }
            assert forall|k: int| 0 <= k < peers@.len() implies self@.engines.contains_key(
                #[trigger] peers@[k],
            ) by {
                assert(before.engines.dom().contains(peers@[k]));
            }
            i = i + 1;
        }
        Ok(())
    }

    /// Publish `payload` from `origin` on `channel`: Reed-Solomon
    /// encode, build the origin strategy, and open sessions to
    /// subscribed peers.
    pub fn publish(
        &mut self,
        origin: PeerId,
        channel: &String,
        message_id: &String,
        payload: &[u8],
        config: RsConfig,
    ) -> (r: Result<(), SimError>)
        requires
            Self::valid(old(self)@),
            payload@.len() > 0 ==> encode::has_shape(config),
        ensures
            Self::valid(final(self)@),
            (final(self)@, sim_faults(r)) == Self::published(
                old(self)@,
                origin,
                channel@,
                message_id@,
                payload@,
                config,
            ),
    {
        let preamble = match encode::encode(payload, &config) {
            Ok((p, _)) => p,
            Err(e) => {
                return Err(SimError::Encode(e));
            },
        };
        let preamble_bytes = preamble.encode_to_vec();
        let strategy = match RsStrategy::new_origin_with_seed(
            payload,
            config,
            derive_seed(self.seed, origin),
        ) {
            Ok(s) => s,
            Err(e) => {
                return Err(SimError::Encode(e));
            },
        };
        let now: Nanos = self.net.hub().virtual_now();
        if !self.engines.contains(&origin) {
            return Err(SimError::UnknownPeer(origin));
        }
        let ghost before = self@;
        self.net.switch_to(origin);
        if let Some(engine) = self.engines.get_mut(&origin) {
            let answer = engine.publish(
                &mut self.net,
                channel,
                message_id.dup(),
                strategy,
                preamble_bytes,
                now,
            );
            proof {
                let (after, _) = SimEngine::published::<SimNetEndpoint<P>>(
                    before.world(origin),
                    (channel@, message_id@),
                    strategy.state(),
                    preamble_bytes@,
                    now,
                );
                assert(self@ =~= before.with_world(origin, after));
            }
            if let Err(error) = answer {
                return Err(SimError::Engine { peer: origin, error });
            }
        }
        Ok(())
    }

    /// Steps the engine of `peer`.
    fn step(&mut self, peer: PeerId) -> (r: Result<(), SimError>)
        requires
            Self::valid(old(self)@),
            old(self)@.engines.contains_key(peer),
        ensures
            Self::valid(final(self)@),
            (final(self)@, sim_faults(r)) == Self::stepped(old(self)@, peer),
    {
        let ghost before = self@;
        self.net.hub_mut().record_engine_step(peer);
        self.net.switch_to(peer);
        let event = self.net.hub_mut().next_event(peer);
        if event.is_none() {
            assert(self@ =~= Self::stepped(before, peer).0);
            return Err(SimError::EngineClosed(peer));
        }
        let now: Nanos = self.net.hub().virtual_now();
        let ghost ready = self@;
        let ghost e = event->Some_0@;
        if let Some(engine) = self.engines.get_mut(&peer) {
            let _ = engine.run_step_at(&mut self.net, event, now, 0);
            let more = engine.take_delivered();
            if let Some(sink) = self.delivered.get_mut(&peer) {
                sink.accept(more);
            }
        }
        assert(self@ =~= Self::stepped(before, peer).0);
        Ok(())
    }

    /// Drive the simulation until the event queue is empty, stepping
    /// each destination engine as its deliveries arrive. Returns the
    /// number of entries processed.
    pub fn run_to_quiescence(&mut self, max_steps: usize) -> (r: Result<usize, SimError>)
        requires
            Self::valid(old(self)@),
        ensures
            Self::valid(final(self)@),
            match r {
                Ok(n) => Self::ran(old(self)@, 0, max_steps) == (
                    final(self)@,
                    Ok::<nat, SimFault>(n as nat),
                ),
                Err(e) => Self::ran(old(self)@, 0, max_steps) == (
                    final(self)@,
                    Err::<nat, SimFault>(e@),
                ),
            },
    {
        let mut steps: usize = 0;
        loop
            invariant
                Self::valid(self@),
                steps <= max_steps,
                Self::ran(self@, steps as nat, max_steps) == Self::ran(old(self)@, 0, max_steps),
            decreases max_steps - steps,
        {
            let ghost before = self@;
            let step = match self.net.hub_mut().pump() {
                None => {
                    assert(self@ =~= RunnerView { hub: before.hub.popped().0, ..before });
                    return Ok(steps);
                },
                Some(s) => s,
            };
            let ghost next = RunnerView { hub: before.hub.popped().0, ..before };
            assert(self@ =~= next);
            if steps >= max_steps {
                return Err(SimError::MaxStepsExceeded { max: max_steps });
            }
            steps = steps + 1;
            if let PumpStep::DeliveredTo(peer) = step {
                // A delivery to a peer without an engine stays in its inbox.
                if self.engines.contains(&peer) {
                    if let Err(e) = self.step(peer) {
                        return Err(e);
                    }
                }
            }
        }
    }

    /// Drain everything the given peer's engine has delivered so far.
    pub fn take_deliveries(&mut self, peer: PeerId) -> (r: Vec<DeliveredMessage>)
        requires
            Self::valid(old(self)@),
        ensures
            Self::valid(final(self)@),
            engine::deliveries(r@) == (if old(self)@.delivered.contains_key(peer) {
                old(self)@.delivered[peer]
            } else {
                Seq::empty()
            }),
            final(self)@ == (RunnerView {
                delivered: if old(self)@.delivered.contains_key(peer) {
                    old(self)@.delivered.insert(peer, Seq::empty())
                } else {
                    old(self)@.delivered
                },
                ..old(self)@
            }),
    {
        let mut out: Vec<DeliveredMessage> = Vec::new();
        if let Some(sink) = self.delivered.get_mut(&peer) {
            core::mem::swap(&mut out, &mut sink.messages);
            assert(sink@ =~= Seq::<DeliveredView>::empty());
        } else {
            assert(engine::deliveries(out@) =~= Seq::<DeliveredView>::empty());
        }
        out
    }

    /// Snapshot of the recorded trace.
    pub fn trace(&self) -> (r: Vec<TraceEntry>)
        ensures
            r@ == self@.hub.trace,
    {
        self.net.hub().trace()
    }

    /// Current virtual time since simulation start.
    pub fn virtual_now(&self) -> (r: Nanos)
        ensures
            r == self@.hub.now,
    {
        self.net.hub().virtual_now()
    }
}

/// One call of a scenario.
pub ghost enum Act {
    SubscribeAll { channel: Seq<char>, config: RsConfig },
    ConnectFullMesh,
    Publish {
        origin: PeerId,
        channel: Seq<char>,
        message_id: Seq<char>,
        payload: Seq<u8>,
        config: RsConfig,
    },
    RunToQuiescence { max: usize },
}

/// State after a call, whatever it returns.
pub open spec fn acted<P: SendPredicate>(m: RunnerView<P::Model>, act: Act) -> RunnerView<P::Model> {
    let peers = order::ascending(m.engines.dom());
    match act {
        Act::SubscribeAll { channel, config } => {
            SimRunner::<P>::subscribed_all(m, peers, channel, config).0
        },
        Act::ConnectFullMesh => SimRunner::<P>::connected_all(m, peers, peers).0,
        Act::Publish { origin, channel, message_id, payload, config } => {
            SimRunner::<P>::published(m, origin, channel, message_id, payload, config).0
        },
        Act::RunToQuiescence { max } => SimRunner::<P>::ran(m, 0, max).0,
    }
}

/// State after the calls of a scenario.
pub open spec fn played<P: SendPredicate>(m: RunnerView<P::Model>, acts: Seq<Act>) -> RunnerView<P::Model>
    decreases acts.len(),
{
    if acts.len() == 0 {
        m
    } else {
        acted::<P>(played::<P>(m, acts.drop_last()), acts.last())
    }
}

/// The same scenario under the same seed and rules leaves the same trace and
/// the same deliveries: nothing else decides what happens.
pub proof fn law_runs_are_reproducible<P: SendPredicate>(
    peers: Seq<PeerId>,
    a: PlanView<P::Model>,
    b: PlanView<P::Model>,
    acts: Seq<Act>,
)
    requires
        a.seed == b.seed,
        a.rules == b.rules,
        a.pos == 0,
        b.pos == 0,
    ensures
        ({
            let x = played::<P>(RunnerView::starting(peers, a), acts);
            let y = played::<P>(RunnerView::starting(peers, b), acts);
            &&& x.hub.trace == y.hub.trace
            &&& x.delivered == y.delivered
        }),
{
}

/// The simulation behind an engine's transport is valid.
pub ghost struct SimIsValid {}

impl<P: SendPredicate> Watch<RsStrategy, RsRelayFactory, SimNetEndpoint<P>> for SimIsValid {
    open spec fn holds(
        self,
        w: World<RsView, RsRelayFactoryView, (PeerId, SimView<P::Model>)>,
    ) -> bool {
        w.net.1.valid()
    }

    open spec fn subject(self) -> SessionId {
        (Seq::empty(), Seq::empty())
    }

    open spec fn loose(self) -> bool {
        true
    }

    proof fn keeps_engine(
        self,
        w: World<RsView, RsRelayFactoryView, (PeerId, SimView<P::Model>)>,
        e: EngineView<RsView, RsRelayFactoryView>,
    ) {
    }

    proof fn keeps_open(
        self,
        w: World<RsView, RsRelayFactoryView, (PeerId, SimView<P::Model>)>,
        id: SessionId,
        peer: PeerId,
    ) {
        state::law_send_keeps_time::<P>(
            w.net.1,
            w.net.0,
            NetSendView::SessionOpen {
                peer,
                channel: id.0,
                message_id: id.1,
                preamble: w.engine.preambles[id],
                initial_update: Seq::empty(),
            },
        );
    }

    proof fn keeps_use(
        self,
        w: World<RsView, RsRelayFactoryView, (PeerId, SimView<P::Model>)>,
        id: SessionId,
        peer: PeerId,
        msg: NetSendView,
    ) {
        state::law_send_keeps_time::<P>(w.net.1, w.net.0, msg);
    }

    proof fn keeps_aside(
        self,
        w: World<RsView, RsRelayFactoryView, (PeerId, SimView<P::Model>)>,
        msg: NetSendView,
    ) {
        state::law_send_keeps_time::<P>(w.net.1, w.net.0, msg);
    }
}

proof fn lemma_subscribed_all<P: SendPredicate>(
    m: RunnerView<P::Model>,
    peers: Seq<PeerId>,
    channel: Seq<char>,
    config: RsConfig,
)
    requires
        m.hub.valid(),
    ensures
        SimRunner::<P>::subscribed_all(m, peers, channel, config).0.hub.valid(),
    decreases peers.len(),
{
    if peers.len() > 0 {
        let w = m.world(peers[0]);
        let factory = RsRelayFactoryView { config, seeds: Seeds::Counted { next: derived(m.seed, peers[0]) } };
        watch::lemma_announced::<RsStrategy, RsRelayFactory, SimNetEndpoint<P>, SimIsValid>(
            SimIsValid {},
            World { engine: SimEngine::hosting(w.engine, channel, factory), ..w },
            channel,
            order::ascending(w.engine.connected),
        );
        let next = SimRunner::<P>::subscribed(m, peers[0], channel, config).0;
        lemma_subscribed_all::<P>(next, peers.drop_first(), channel, config);
    }
}

proof fn lemma_connected_to<P: SendPredicate>(
    m: RunnerView<P::Model>,
    peer: PeerId,
    others: Seq<PeerId>,
)
    requires
        m.hub.valid(),
    ensures
        SimRunner::<P>::connected_to(m, peer, others).0.hub.valid(),
    decreases others.len(),
{
    if others.len() > 0 {
        if others[0] == peer {
            lemma_connected_to::<P>(m, peer, others.drop_first());
        } else {
            watch::lemma_introduced::<RsStrategy, RsRelayFactory, SimNetEndpoint<P>, SimIsValid>(
                SimIsValid {},
                m.world(peer),
                others[0],
            );
            let after = SimEngine::introduced::<SimNetEndpoint<P>>(m.world(peer), others[0]).0;
            lemma_connected_to::<P>(m.with_world(peer, after), peer, others.drop_first());
        }
    }
}

proof fn lemma_connected_all<P: SendPredicate>(
    m: RunnerView<P::Model>,
    from: Seq<PeerId>,
    peers: Seq<PeerId>,
)
    requires
        m.hub.valid(),
    ensures
        SimRunner::<P>::connected_all(m, from, peers).0.hub.valid(),
    decreases from.len(),
{
    if from.len() > 0 {
        lemma_connected_to::<P>(m, from[0], peers);
        let next = SimRunner::<P>::connected_to(m, from[0], peers).0;
        lemma_connected_all::<P>(next, from.drop_first(), peers);
    }
}

proof fn lemma_stepped<P: SendPredicate>(m: RunnerView<P::Model>, peer: PeerId)
    requires
        m.hub.valid(),
    ensures
        SimRunner::<P>::stepped(m, peer).0.hub.valid(),
{
    let (hub, event) = m.hub.stepped(peer).taken(peer);
    assert(hub.valid());
    let ready = RunnerView { hub, ..m };
    if let Some(e) = event {
        if !(e is PeerDisconnected) {
            watch::lemma_handled::<RsStrategy, RsRelayFactory, SimNetEndpoint<P>, SimIsValid>(
                SimIsValid {},
                ready.world(peer),
                e,
                hub.now,
                0,
            );
        }
    }
}

proof fn lemma_ran<P: SendPredicate>(m: RunnerView<P::Model>, steps: nat, max: usize)
    requires
        m.hub.valid(),
    ensures
        SimRunner::<P>::ran(m, steps, max).0.hub.valid(),
    decreases max - steps,
{
    let (hub, step) = m.hub.popped();
    let next = RunnerView { hub, ..m };
    state::law_pop_keeps_time(m.hub);
    if step is Some && steps < max {
        match step->Some_0 {
            PumpStep::Woke => {
                lemma_ran::<P>(next, steps + 1, max);
            },
            PumpStep::DeliveredTo(peer) => {
                if !m.engines.contains_key(peer) {
                    lemma_ran::<P>(next, steps + 1, max);
                } else {
                    lemma_stepped::<P>(next, peer);
                    lemma_ran::<P>(SimRunner::<P>::stepped(next, peer).0, steps + 1, max);
                }
            },
        }
    }
}

proof fn lemma_hosting_all<M>(m: RunnerView<M>, peers: Seq<PeerId>)
    requires
        m.hub.valid(),
    ensures
        m.hosting_all(peers).hub.valid(),
    decreases peers.len(),
{
    if peers.len() > 0 {
        lemma_hosting_all(m.hosting(peers[0]), peers.drop_first());
    }
}

proof fn lemma_played<P: SendPredicate>(m: RunnerView<P::Model>, acts: Seq<Act>)
    requires
        m.hub.valid(),
    ensures
        played::<P>(m, acts).hub.valid(),
    decreases acts.len(),
{
    if acts.len() > 0 {
        lemma_played::<P>(m, acts.drop_last());
        let before = played::<P>(m, acts.drop_last());
        let peers = order::ascending(before.engines.dom());
        match acts.last() {
            Act::SubscribeAll { channel, config } => {
                lemma_subscribed_all::<P>(before, peers, channel, config);
            },
            Act::ConnectFullMesh => {
                lemma_connected_all::<P>(before, peers, peers);
            },
            Act::Publish { origin, channel, message_id, payload, config } => {
                watch::lemma_published::<RsStrategy, RsRelayFactory, SimNetEndpoint<P>, SimIsValid>(
                    SimIsValid {},
                    before.world(origin),
                    (channel, message_id),
                    RsView::origin(payload, config, derived(before.seed, origin)),
                    Preamble::encoding(encode::preamble_of(payload, config)),
                    before.hub.now,
                );
            },
            Act::RunToQuiescence { max } => {
                lemma_ran::<P>(before, 0, max);
            },
        }
    }
}

/// Whatever a scenario does, its trace is in order: times never go back, and
/// sequence numbers strictly increase, as long as there are numbers left.
pub proof fn law_trace_is_in_order<P: SendPredicate>(
    peers: Seq<PeerId>,
    plan: PlanView<P::Model>,
    acts: Seq<Act>,
    i: int,
    j: int,
)
    requires
        0 <= i < j < played::<P>(RunnerView::starting(peers, plan), acts).hub.trace.len(),
    ensures
        ({
            let hub = played::<P>(RunnerView::starting(peers, plan), acts).hub;
            &&& hub.trace[i].at <= hub.trace[j].at
            &&& hub.next_seq < u64::MAX ==> hub.trace[i].seq < hub.trace[j].seq
        }),
{
    let start = RunnerView {
        seed: plan.seed,
        hub: SimView::start(plan),
        engines: Map::empty(),
        delivered: Map::empty(),
    };
    state::law_start_is_valid(plan);
    lemma_hosting_all(start, peers);
    lemma_played::<P>(RunnerView::starting(peers, plan), acts);
}

/// A run that ends well leaves nothing queued, and took no more steps than it
/// may.
pub proof fn law_quiescence_empties_queue<P: SendPredicate>(
    m: RunnerView<P::Model>,
    steps: nat,
    max: usize,
)
    requires
        steps <= max,
    ensures
        SimRunner::<P>::ran(m, steps, max).1 matches Ok(n) ==> {
            &&& SimRunner::<P>::ran(m, steps, max).0.hub.queue.len() == 0
            &&& steps <= n <= max
        },
    decreases max - steps,
{
    let (hub, step) = m.hub.popped();
    let next = RunnerView { hub, ..m };
    if step is Some && steps < max {
        match step->Some_0 {
            PumpStep::Woke => {
                law_quiescence_empties_queue::<P>(next, steps + 1, max);
            },
            PumpStep::DeliveredTo(peer) => {
                if !m.engines.contains_key(peer) {
                    law_quiescence_empties_queue::<P>(next, steps + 1, max);
                } else {
                    let after = SimRunner::<P>::stepped(next, peer).0;
                    law_quiescence_empties_queue::<P>(after, steps + 1, max);
                }
            },
        }
    }
}

/// What an application has not taken waits in the order in which it came, up
/// to 16 payloads; those beyond are lost, and none that waits already.
pub proof fn law_sink_keeps_the_first(sink: Seq<DeliveredView>, more: Seq<DeliveredView>, i: int)
    requires
        sink.len() <= 16,
    ensures
        ({
            let after = sunk(sink, more);
            &&& after.len() == if sink.len() + more.len() <= 16 {
                sink.len() + more.len()
            } else {
                16
            }
            &&& 0 <= i < sink.len() ==> after[i] == sink[i]
            &&& 0 <= i && sink.len() + i < after.len() ==> after[sink.len() + i] == more[i]
        }),
{
}

/// A step of a hosted engine takes the event that waits first for it, at the
/// time of the simulation: what the engine delivers goes to its sink and
/// leaves the engine, the trace records the step, and a sweep that is due is
/// done. Other engines and sinks stay.
pub proof fn law_step_hands_over_deliveries<P: SendPredicate>(
    m: RunnerView<P::Model>,
    peer: PeerId,
    other: PeerId,
)
    requires
        m.engines.contains_key(peer),
        m.hub.inboxes.contains_key(peer),
        other != peer,
    ensures
        ({
            let waits = m.hub.inboxes[peer].events;
            let (after, r) = SimRunner::<P>::stepped(m, peer);
            let hub = m.hub.stepped(peer).taken(peer).0;
            let e = after.engines[peer];
            &&& r is Ok <==> waits.len() > 0
            &&& r is Err ==> r == Err::<(), SimFault>(SimFault::EngineClosed(peer)) && after.engines
                == m.engines && after.delivered == m.delivered
            &&& r is Ok ==> {
                let w = World { engine: m.engines[peer], net: (peer, hub) };
                let handled = SimEngine::handled::<SimNetEndpoint<P>>(w, waits[0], m.hub.now, 0);
                &&& e.delivered.len() == 0
                &&& after.delivered[peer] == sunk(m.delivered[peer], handled.engine.delivered)
                &&& after.hub == handled.net.1
                &&& m.hub.now + e.config.cleanup_interval <= u64::MAX && e.config.cleanup_interval > 0
                    ==> e.next_cleanup > m.hub.now
            }
            &&& hub.trace.len() == m.hub.trace.len() + 1
            &&& hub.trace.last().kind == (TraceKind::EngineStep { peer })
            &&& hub.now == m.hub.now
            &&& m.engines.contains_key(other) ==> after.engines[other] == m.engines[other]
            &&& m.delivered.contains_key(other) ==> after.delivered[other] == m.delivered[other]
        }),
{
}

/// A run counts a step for everything that it takes from the queue: it counts
/// none exactly when nothing is queued.
pub proof fn law_steps_are_counted<P: SendPredicate>(m: RunnerView<P::Model>, steps: nat, max: usize)
    requires
        steps <= max,
    ensures
        SimRunner::<P>::ran(m, steps, max).1 matches Ok(n) ==> (n == steps <==> m.hub.queue.len() == 0),
        m.hub.queue.len() > 0 && steps == max ==> SimRunner::<P>::ran(m, steps, max).1 == Err::<
            nat,
            SimFault,
        >(SimFault::MaxStepsExceeded { max }),
{
    let (hub, step) = m.hub.popped();
    let next = RunnerView { hub, ..m };
    if step is Some && steps < max {
        law_quiescence_empties_queue::<P>(next, steps + 1, max);
        if let PumpStep::DeliveredTo(peer) = step->Some_0 {
            law_quiescence_empties_queue::<P>(
                SimRunner::<P>::stepped(next, peer).0,
                steps + 1,
                max,
            );
        }
    }
}

/// An engine that joins a simulation is idle, listens, and has nothing
/// delivered; the others stay.
pub proof fn law_hosted_engine_is_idle<M>(m: RunnerView<M>, peer: PeerId, other: PeerId)
    requires
        other != peer,
    ensures
        ({
            let after = m.hosting(peer);
            &&& after.engines.contains_key(peer)
            &&& after.engines[peer].local_peer == peer
            &&& after.engines[peer].channels.dom() == Set::<Seq<char>>::empty()
            &&& after.engines[peer].connected == Set::<PeerId>::empty()
            &&& after.delivered[peer].len() == 0
            &&& after.hub.inboxes.contains_key(peer) && after.hub.inboxes[peer].open
            &&& m.engines.contains_key(other) ==> after.engines[other] == m.engines[other]
            &&& m.delivered.contains_key(other) ==> after.delivered[other] == m.delivered[other]
            &&& after.seed == m.seed
        }),
{
    assert(m.hosting(peer).engines[peer].channels.dom() =~= Set::<Seq<char>>::empty());
}

/// Publishing an encodable payload from a hosted engine is what the engine
/// does with the strategy of the payload, seeded for that peer; an unknown
/// peer or a payload that cannot be encoded changes nothing.
pub proof fn law_publishing_needs_peer_and_encoding<P: SendPredicate>(
    m: RunnerView<P::Model>,
    origin: PeerId,
    channel: Seq<char>,
    message_id: Seq<char>,
    payload: Seq<u8>,
    config: RsConfig,
)
    ensures
        ({
            let (after, r) = SimRunner::<P>::published(
                m,
                origin,
                channel,
                message_id,
                payload,
                config,
            );
            &&& encode::encode_fault(payload, config) matches Some(e) ==> after == m && r == Err::<
                (),
                SimFault,
            >(SimFault::Encode(e))
            &&& encode::encode_fault(payload, config) is None && !m.engines.contains_key(origin)
                ==> after == m && r == Err::<(), SimFault>(SimFault::UnknownPeer(origin))
            &&& encode::encode_fault(payload, config) is None && m.engines.contains_key(origin)
                && m.engines[origin].channels.contains_key(channel) && m.engines[origin].session(
                (channel, message_id),
            ) is None ==> {
                &&& after.engines[origin].session((channel, message_id)) matches Some(s) && s.state
                    == SessionState::Origin && s.strategy.preamble == encode::preamble_of(payload, config)
                &&& after.engines[origin].preambles[(channel, message_id)] == Preamble::encoding(
                    encode::preamble_of(payload, config),
                )
            }
        }),
{
    if encode::encode_fault(payload, config) is None && m.engines.contains_key(origin)
        && m.engines[origin].channels.contains_key(channel) && m.engines[origin].session(
        (channel, message_id),
    ) is None {
        let id = (channel, message_id);
        let strategy = RsView::origin(payload, config, derived(m.seed, origin));
        let bytes = Preamble::encoding(encode::preamble_of(payload, config));
        engine::conduct::law_publishing_needs_channel_and_new_message::<
            RsStrategy,
            RsRelayFactory,
            SimNetEndpoint<P>,
        >(m.world(origin), id, strategy, bytes, m.hub.now);
        engine::conduct::lemma_published_holding::<RsStrategy, RsRelayFactory, SimNetEndpoint<P>>(
            m.world(origin),
            id,
            strategy,
            bytes,
            m.hub.now,
        );
        engine::conduct::lemma_attaching(
            SessionView { state: SessionState::Origin, strategy },
            order::ascending(m.engines[origin].channels[channel].subscribers),
        );
    }
}

/// Peers get different seeds under the same scenario seed, and a peer gets
/// different seeds under different ones.
pub proof fn law_seeds_differ(seed: u64, a: PeerId, b: PeerId)
    ensures
        a != b ==> derived(seed, a) != derived(seed, b),
        a != b ==> derived(a, seed) != derived(b, seed),
{
    let (x, y) = (a.wrapping_mul(SPREAD), b.wrapping_mul(SPREAD));
    assert((seed ^ x) == (seed ^ y) ==> x == y) by (bit_vector);
    let z = seed.wrapping_mul(SPREAD);
    assert((a ^ z) == (b ^ z) ==> a == b) by (bit_vector);
    if x == y {
        lemma_spread(a as int);
        lemma_spread(b as int);
    }
}

/// A product with [`SPREAD`] tells its other factor.
proof fn lemma_spread(x: int)
    requires
        0 <= x < 0x1_0000_0000_0000_0000,
    ensures
        ((x * SPREAD) % 0x1_0000_0000_0000_0000 * 0xF1DE_83E1_9937_733D) % 0x1_0000_0000_0000_0000 == x,
{
    let m: int = 0x1_0000_0000_0000_0000;
    let inverse: int = 0xF1DE_83E1_9937_733D;
    vstd::arithmetic::div_mod::lemma_mul_mod_noop_left(x * SPREAD, inverse, m);
    assert((x * SPREAD) * inverse == x * (SPREAD * inverse)) by (nonlinear_arith);
    vstd::arithmetic::div_mod::lemma_mul_mod_noop_right(x, SPREAD * inverse, m);
    assert((SPREAD * inverse) % m == 1);
    assert(x * 1 == x);
    vstd::arithmetic::div_mod::lemma_small_mod(x as nat, m as nat);
}

/// An engine that has connected to others without failure is connected to
/// each of them, itself left out, and to whom it was before.
pub proof fn law_connecting_reaches_all<P: SendPredicate>(
    m: RunnerView<P::Model>,
    peer: PeerId,
    others: Seq<PeerId>,
    p: PeerId,
)
    requires
        m.engines.contains_key(peer),
    ensures
        ({
            let (after, r) = SimRunner::<P>::connected_to(m, peer, others);
            &&& after.engines.contains_key(peer)
            &&& m.engines[peer].connected.contains(p) ==> after.engines[peer].connected.contains(p)
            &&& r is Ok && others.contains(p) && p != peer ==> after.engines[peer].connected.contains(p)
            &&& r is Ok && !others.contains(p) && !m.engines[peer].connected.contains(p)
                ==> !after.engines[peer].connected.contains(p)
        }),
    decreases others.len(),
{
    if others.len() > 0 {
        let rest = others.drop_first();
        if others.contains(p) && p != others[0] {
            let i = choose|i: int| 0 <= i < others.len() && others[i] == p;
            assert(rest[i - 1] == p);
        }
        if rest.contains(p) {
            let i = choose|i: int| 0 <= i < rest.len() && rest[i] == p;
            assert(others[i + 1] == p);
        }
        assert(others.contains(others[0]));
        if others[0] == peer {
            law_connecting_reaches_all::<P>(m, peer, rest, p);
        } else {
            let (after, r) = SimEngine::introduced::<SimNetEndpoint<P>>(m.world(peer), others[0]);
            law_connecting_reaches_all::<P>(m.with_world(peer, after), peer, rest, p);
        }
    }
}

proof fn lemma_announcing<P: SendPredicate>(
    w: World<RsView, RsRelayFactoryView, (PeerId, SimView<P::Model>)>,
    channel: Seq<char>,
    peers: Seq<PeerId>,
)
    ensures
        SimEngine::announced::<SimNetEndpoint<P>>(w, channel, peers).0.engine.channels
            == w.engine.channels,
    decreases peers.len(),
{
    if peers.len() > 0 {
        let frame = FrameView::Subscribe { peer: peers[0], channel };
        let w1 = SimEngine::frame_sent::<SimNetEndpoint<P>>(w, frame).0;
        lemma_announcing::<P>(w1, channel, peers.drop_first());
    }
}

/// Engines that have subscribed to a channel without failure all host it, with
/// the configuration they were given and seeds of their own, as far as they
/// did not host it before.
pub proof fn law_subscribing_hosts_everywhere<P: SendPredicate>(
    m: RunnerView<P::Model>,
    peers: Seq<PeerId>,
    channel: Seq<char>,
    config: RsConfig,
    p: PeerId,
)
    requires
        peers.no_duplicates(),
        forall|i: int| 0 <= i < peers.len() ==> m.engines.contains_key(#[trigger] peers[i]),
        m.engines.contains_key(p),
    ensures
        ({
            let (after, r) = SimRunner::<P>::subscribed_all(m, peers, channel, config);
            let c = after.engines[p].channels[channel];
            &&& after.engines.contains_key(p)
            &&& after.seed == m.seed
            &&& m.engines[p].channels.contains_key(channel) || !peers.contains(p)
                ==> after.engines[p].channels == m.engines[p].channels
            &&& r is Ok && peers.contains(p) ==> {
                &&& after.engines[p].channels.contains_key(channel)
                &&& !m.engines[p].channels.contains_key(channel) ==> c.factory == (RsRelayFactoryView {
                    config,
                    seeds: Seeds::Counted { next: derived(m.seed, p) },
                })
            }
        }),
    decreases peers.len(),
{
    if peers.len() > 0 {
        let first = peers[0];
        let rest = peers.drop_first();
        let (next, r) = SimRunner::<P>::subscribed(m, first, channel, config);
        let w = m.world(first);
        let factory = RsRelayFactoryView {
            config,
            seeds: Seeds::Counted { next: derived(m.seed, first) },
        };
        lemma_announcing::<P>(
            World { engine: SimEngine::hosting(w.engine, channel, factory), ..w },
            channel,
            order::ascending(w.engine.connected),
        );
        assert forall|i: int| 0 <= i < rest.len() implies next.engines.contains_key(#[trigger] rest[i]) by {
            assert(rest[i] == peers[i + 1]);
        }
        if r is Ok {
            law_subscribing_hosts_everywhere::<P>(next, rest, channel, config, p);
        }
        assert(rest.contains(p) ==> peers.contains(p) && p != first) by {
            if rest.contains(p) {
                let i = choose|i: int| 0 <= i < rest.len() && rest[i] == p;
                assert(peers[i + 1] == p);
            }
        }
        assert(peers.contains(p) && p != first ==> rest.contains(p)) by {
            if peers.contains(p) && p != first {
                let i = choose|i: int| 0 <= i < peers.len() && peers[i] == p;
                assert(rest[i - 1] == p);
            }
        }
        assert(peers.contains(first));
    }
}

} // verus!
