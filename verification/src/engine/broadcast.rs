//! A published payload reaches every subscriber.

use vstd::prelude::*;

use crate::channel::Channel;
use crate::engine::factory::{RsRelayFactory, RsRelayFactoryView};
use crate::engine::laws;
use crate::engine::model;
use crate::engine::model::{DeliveredView, EngineView, SessionId, World};
use crate::engine::watch;
use crate::engine::watch::Watch;
use crate::engine::{Engine, Nanos};
use crate::order;
use crate::pb::rs;
use crate::pb::rs::{Preamble, PreambleView};
use crate::pb::wire::Message;
use crate::runtime;
use crate::runtime::memory_laws;
use crate::runtime::memory_laws::HubAct;
use crate::runtime::memory_net;
use crate::runtime::memory_net::{HubView, InboxView, MemoryNetEndpoint};
use crate::runtime::{Net, NetError, NetEventView, NetSendView};
use crate::session::{Session, SessionState, SessionView};
use crate::strategy::bitmap;
use crate::strategy::config::RsConfig;
use crate::strategy::dispatch::DispatchView;
use crate::strategy::rs::code;
use crate::strategy::rs::encode;
use crate::strategy::rs::laws as rs_laws;
use crate::strategy::rs::planner;
use crate::strategy::rs::planner::PlannerMode;
use crate::strategy::rs::state;
use crate::strategy::rs::state::{RsStrategy, RsView};
use crate::strategy::rs::verify;
use crate::strategy::{PeerId, Strategy};

verus! {

/// An engine that codes with Reed-Solomon.
pub type Node = Engine<RsStrategy, RsRelayFactory>;

/// State of a [`Node`].
pub type NodeView = EngineView<RsView, RsRelayFactoryView>;

/// A [`Node`] and the hub through which it speaks.
pub type NodeWorld = World<RsView, RsRelayFactoryView, (PeerId, HubView)>;

/// A payload that a peer publishes.
pub ghost struct Cast {
    pub origin: PeerId,
    pub id: SessionId,
    pub payload: Seq<u8>,
    pub config: RsConfig,
}

/// What waits for a peer, from a place in its queue on.
spec fn fresh(w: NodeWorld, b: PeerId, from: int) -> Seq<NetEventView> {
    w.net.1.inboxes[b].events.skip(from)
}

impl Cast {
    /// The shards of the payload.
    pub open spec fn word(self) -> Seq<Seq<u8>> {
        encode::shards_of(self.payload, self.config)
    }

    pub open spec fn preamble(self) -> PreambleView {
        encode::preamble_of(self.payload, self.config)
    }

    /// The preamble as it is sent.
    pub open spec fn bytes(self) -> Seq<u8> {
        Preamble::encoding(self.preamble())
    }

    /// The event that opens the session.
    pub open spec fn opening(self) -> NetEventView {
        NetEventView::SessionOpen {
            peer: self.origin,
            channel: self.id.0,
            message_id: self.id.1,
            preamble: self.bytes(),
            initial_update: Seq::empty(),
        }
    }

    /// The event brings shard `i` of the payload.
    pub open spec fn carries(self, e: NetEventView, i: u32) -> bool {
        e matches NetEventView::Chunk { channel, message_id, chunk_id, payload, .. } && (
        channel,
        message_id,
    ) == self.id && chunk_id == i && i < self.word().len() && payload == self.word()[i as int]
    }

    /// The event is a routing update of the session or brings a shard.
    pub open spec fn part(self, e: NetEventView) -> bool {
        e is RoutingUpdate || (e is Chunk && self.carries(e, e->Chunk_chunk_id))
    }

    /// The session is opened, and nothing follows but what belongs to it.
    pub open spec fn streams(self, events: Seq<NetEventView>) -> bool {
        &&& events.len() > 0
        &&& events[0] == self.opening()
        &&& forall|k: int| 1 <= k < events.len() ==> self.part(#[trigger] events[k])
    }

    /// Shard `i` is among the events.
    pub open spec fn brought(self, events: Seq<NetEventView>, i: u32) -> bool {
        exists|k: int| 0 <= k < events.len() && self.carries(#[trigger] events[k], i)
    }

    /// What the origin hands out goes through: it retains the preamble and
    /// every subscriber listens.
    pub open spec fn unhindered(self, w: NodeWorld, peers: Set<PeerId>) -> bool {
        &&& w.net.0 == self.origin
        &&& forall|p: PeerId| #[trigger]
            peers.contains(p) ==> w.net.1.inboxes.contains_key(p) && w.net.1.inboxes[p].open
        &&& w.engine.preambles.contains_key(self.id)
        &&& w.engine.preambles[self.id] == self.bytes()
    }

    /// The session has been opened to `b`; in its queue, nothing but what
    /// belongs to the session waits from a place on.
    spec fn ready(self, w: NodeWorld, peers: Set<PeerId>, b: PeerId, from: int) -> bool {
        &&& self.unhindered(w, peers)
        &&& w.engine.opened_to(self.id).contains(b)
        &&& 0 <= from <= w.net.1.inboxes[b].events.len()
        &&& self.streams(fresh(w, b, from))
    }

    /// The session has not been opened to `b`, for which nothing waits from a
    /// place in its queue on.
    spec fn early(self, w: NodeWorld, peers: Set<PeerId>, b: PeerId, from: int) -> bool {
        &&& self.unhindered(w, peers)
        &&& !w.engine.opened_to(self.id).contains(b)
        &&& w.net.1.inboxes[b].events.len() == from
    }

    /// The session was opened to `b` before; from a place in its queue on,
    /// nothing but parts of it waits.
    spec fn resumed(self, w: NodeWorld, peers: Set<PeerId>, b: PeerId, from: int) -> bool {
        let q = fresh(w, b, from);
        &&& self.unhindered(w, peers)
        &&& w.engine.opened_to(self.id).contains(b)
        &&& 0 <= from <= w.net.1.inboxes[b].events.len()
        &&& forall|k: int| 0 <= k < q.len() ==> self.part(#[trigger] q[k])
    }

    /// From a place in its queue on, nothing waits for `b` but what belongs to
    /// the session: where the session is opened to it `anew`, nothing before
    /// that and all after.
    spec fn tidy(self, w: NodeWorld, peers: Set<PeerId>, b: PeerId, from: int, anew: bool) -> bool {
        if anew {
            self.ready(w, peers, b, from) || self.early(w, peers, b, from)
        } else {
            self.resumed(w, peers, b, from)
        }
    }

    /// What the origin sends to subscriber `p` is taken; `b` sees it exactly
    /// if it is `p`.
    proof fn lemma_send(
        self,
        w: NodeWorld,
        peers: Set<PeerId>,
        b: PeerId,
        from: int,
        p: PeerId,
        msg: NetSendView,
    )
        requires
            self.unhindered(w, peers),
            peers.contains(p),
            peers.contains(b),
            b != self.origin,
            runtime::destination_of(msg) == Some(p),
            !(msg is SessionReconstructed),
            0 <= from <= w.net.1.inboxes[b].events.len(),
        ensures
            ({
                let (n, r) = MemoryNetEndpoint::sent(w.net, msg);
                &&& r == Ok::<(), NetError>(())
                &&& self.unhindered(World { net: n, ..w }, peers)
                &&& from <= n.1.inboxes[b].events.len()
                &&& fresh(World { net: n, ..w }, b, from) == (if p == b {
                    fresh(w, b, from).push(runtime::event_of(self.origin, msg))
                } else {
                    fresh(w, b, from)
                })
                &&& p != b ==> n.1.inboxes[b].events == w.net.1.inboxes[b].events
            }),
    {
        let n = MemoryNetEndpoint::sent(w.net, msg).0;
        if p == b {
            assert(fresh(World { net: n, ..w }, b, from) =~= fresh(w, b, from).push(
                runtime::event_of(self.origin, msg),
            ));
        }
    }

    proof fn lemma_ensured(
        self,
        w: NodeWorld,
        peers: Set<PeerId>,
        b: PeerId,
        from: int,
        anew: bool,
        p: PeerId,
    )
        requires
            self.tidy(w, peers, b, from, anew),
            peers.contains(p),
            peers.contains(b),
            b != self.origin,
        ensures
            ({
                let (w1, r) = Node::ensured::<MemoryNetEndpoint>(w, self.id, p);
                &&& r == Ok::<(), NetError>(())
                &&& w1.engine == (EngineView { opened: w1.engine.opened, ..w.engine })
                &&& self.furthered(w, w1, peers, b, from, anew)
                &&& w1.engine.opened_to(self.id).contains(p)
                &&& w.engine.opened_to(self.id).contains(b) ==> w1.engine.opened_to(self.id).contains(b)
            }),
    {
        if !w.engine.opened_to(self.id).contains(p) {
            let msg = NetSendView::SessionOpen {
                peer: p,
                channel: self.id.0,
                message_id: self.id.1,
                preamble: self.bytes(),
                initial_update: Seq::empty(),
            };
            self.lemma_send(w, peers, b, from, p, msg);
        }
    }

    proof fn lemma_ensured_all(
        self,
        w: NodeWorld,
        peers: Set<PeerId>,
        b: PeerId,
        from: int,
        anew: bool,
        list: Seq<PeerId>,
    )
        requires
            self.tidy(w, peers, b, from, anew),
            forall|i: int| 0 <= i < list.len() ==> peers.contains(#[trigger] list[i]),
            peers.contains(b),
            b != self.origin,
        ensures
            ({
                let (w1, r) = Node::ensured_all::<MemoryNetEndpoint>(w, self.id, list);
                &&& r == Ok::<(), NetError>(())
                &&& w1.engine == (EngineView { opened: w1.engine.opened, ..w.engine })
                &&& self.tidy(w1, peers, b, from, anew)
            }),
        decreases list.len(),
    {
        if list.len() > 0 {
            let rest = list.drop_first();
            self.lemma_ensured(w, peers, b, from, anew, list[0]);
            let w1 = Node::ensured::<MemoryNetEndpoint>(w, self.id, list[0]).0;
            assert forall|i: int| 0 <= i < rest.len() implies peers.contains(#[trigger] rest[i]) by {
                assert(rest[i] == list[i + 1]);
            }
            self.lemma_ensured_all(w1, peers, b, from, anew, rest);
        }
    }

    /// The messages of the session leave the sessions of the origin alone and
    /// only add to what waits for `b`.
    spec fn furthered(
        self,
        w: NodeWorld,
        w1: NodeWorld,
        peers: Set<PeerId>,
        b: PeerId,
        from: int,
        anew: bool,
    ) -> bool {
        &&& self.tidy(w1, peers, b, from, anew)
        &&& w1.engine.channels == w.engine.channels
        &&& forall|i: u32|
            self.brought(fresh(w, b, from), i) ==> #[trigger] self.brought(
                fresh(w1, b, from),
                i,
            )
    }

    /// Whether all is tidy shows in what has been sent and to whom the session
    /// is open.
    proof fn lemma_alike(
        self,
        w: NodeWorld,
        w1: NodeWorld,
        peers: Set<PeerId>,
        b: PeerId,
        from: int,
        anew: bool,
    )
        requires
            self.tidy(w, peers, b, from, anew),
            w1.net == w.net,
            w1.engine.opened_to(self.id) == w.engine.opened_to(self.id),
            w1.engine.preambles == w.engine.preambles,
        ensures
            self.tidy(w1, peers, b, from, anew),
            fresh(w1, b, from) == fresh(w, b, from),
    {
        let q = fresh(w1, b, from);
        assert(self.unhindered(w1, peers));
        if !anew {
            assert forall|k: int| 0 <= k < q.len() implies self.part(#[trigger] q[k]) by {
                assert(self.part(fresh(w, b, from)[k]));
            }
        }
    }

    /// One more event for `b`.
    proof fn lemma_push(self, events: Seq<NetEventView>, e: NetEventView)
        requires
            self.part(e),
        ensures
            self.streams(events) ==> self.streams(events.push(e)),
            forall|i: u32| self.brought(events, i) ==> #[trigger] self.brought(events.push(e), i),
            e is Chunk ==> self.brought(events.push(e), e->Chunk_chunk_id),
    {
        let all = events.push(e);
        assert forall|i: u32| self.brought(events, i) implies #[trigger] self.brought(all, i) by {
            let k = choose|k: int| 0 <= k < events.len() && self.carries(#[trigger] events[k], i);
            assert(self.carries(all[k], i));
        }
        assert(all[all.len() - 1] == e);
    }

    /// One more message of the session for a subscriber to which it is open.
    proof fn lemma_use(
        self,
        w: NodeWorld,
        peers: Set<PeerId>,
        b: PeerId,
        from: int,
        anew: bool,
        p: PeerId,
        msg: NetSendView,
    )
        requires
            self.tidy(w, peers, b, from, anew),
            peers.contains(p),
            peers.contains(b),
            b != self.origin,
            runtime::destination_of(msg) == Some(p),
            !(msg is SessionReconstructed),
            w.engine.opened_to(self.id).contains(p),
            self.part(runtime::event_of(self.origin, msg)),
        ensures
            ({
                let (n, r) = MemoryNetEndpoint::sent(w.net, msg);
                let e = runtime::event_of(self.origin, msg);
                &&& r == Ok::<(), NetError>(())
                &&& self.furthered(w, World { net: n, ..w }, peers, b, from, anew)
                &&& p == b && e is Chunk ==> self.brought(
                    fresh(World { net: n, ..w }, b, from),
                    e->Chunk_chunk_id,
                )
            }),
    {
        self.lemma_send(w, peers, b, from, p, msg);
        if p == b {
            self.lemma_push(fresh(w, b, from), runtime::event_of(self.origin, msg));
        }
    }

    proof fn lemma_routing(
        self,
        w: NodeWorld,
        peers: Set<PeerId>,
        b: PeerId,
        from: int,
        anew: bool,
        list: Seq<PeerId>,
        update: Seq<u8>,
    )
        requires
            self.tidy(w, peers, b, from, anew),
            forall|i: int| 0 <= i < list.len() ==> peers.contains(#[trigger] list[i]),
            peers.contains(b),
            b != self.origin,
        ensures
            ({
                let (w1, r) = Node::routing_sent::<MemoryNetEndpoint>(w, self.id, list, update);
                r == Ok::<(), NetError>(()) && self.furthered(w, w1, peers, b, from, anew)
            }),
        decreases list.len(),
    {
        if list.len() > 0 {
            let p = list[0];
            let rest = list.drop_first();
            self.lemma_ensured(w, peers, b, from, anew, p);
            let w1 = Node::ensured::<MemoryNetEndpoint>(w, self.id, p).0;
            let msg = NetSendView::RoutingUpdate {
                peer: p,
                channel: self.id.0,
                message_id: self.id.1,
                payload: update,
            };
            self.lemma_use(w1, peers, b, from, anew, p, msg);
            let w2 = Node::update_sent::<MemoryNetEndpoint>(w, self.id, p, update).0;
            assert(w2.engine.opened_to(self.id) == w1.engine.opened_to(self.id));
            self.lemma_alike(
                World { net: MemoryNetEndpoint::sent(w1.net, msg).0, ..w1 },
                w2,
                peers,
                b,
                from,
                anew,
            );
            assert(self.furthered(w, w2, peers, b, from, anew));
            assert forall|i: int| 0 <= i < rest.len() implies peers.contains(#[trigger] rest[i]) by {
                assert(rest[i] == list[i + 1]);
            }
            self.lemma_routing(w2, peers, b, from, anew, rest, update);
        }
    }

    /// The dispatch sends a shard to a subscriber.
    spec fn proper(self, d: DispatchView<u32>, peers: Set<PeerId>) -> bool {
        &&& peers.contains(d.peer)
        &&& d.chunk_id < self.word().len()
        &&& d.payload == self.word()[d.chunk_id as int]
    }

    proof fn lemma_chunks(
        self,
        w: NodeWorld,
        peers: Set<PeerId>,
        b: PeerId,
        from: int,
        anew: bool,
        ds: Seq<DispatchView<u32>>,
    )
        requires
            self.tidy(w, peers, b, from, anew),
            forall|i: int| 0 <= i < ds.len() ==> self.proper(#[trigger] ds[i], peers),
            peers.contains(b),
            b != self.origin,
        ensures
            ({
                let (w1, r) = Node::chunks_sent::<MemoryNetEndpoint>(w, self.id, ds, false);
                &&& r == Ok::<bool, NetError>(false)
                &&& self.furthered(w, w1, peers, b, from, anew)
                &&& forall|i: int|
                    0 <= i < ds.len() && (#[trigger] ds[i]).peer == b ==> self.brought(
                        fresh(w1, b, from),
                        ds[i].chunk_id,
                    )
            }),
        decreases ds.len(),
    {
        if ds.len() > 0 {
            let d = ds[0];
            let rest = ds.drop_first();
            assert(self.proper(d, peers));
            self.lemma_ensured(w, peers, b, from, anew, d.peer);
            let w1 = Node::ensured::<MemoryNetEndpoint>(w, self.id, d.peer).0;
            let msg = NetSendView::Chunk {
                peer: d.peer,
                channel: self.id.0,
                message_id: self.id.1,
                chunk_id: d.chunk_id,
                payload: d.payload,
                token: d.handle,
            };
            assert((self.id.0, self.id.1) == self.id);
            let e = runtime::event_of(self.origin, msg);
            assert(self.carries(e, d.chunk_id));
            self.lemma_use(w1, peers, b, from, anew, d.peer, msg);
            let w2 = Node::chunk_sent::<MemoryNetEndpoint>(w1, self.id, d).0;
            assert(w2.engine.opened_to(self.id) == w1.engine.opened_to(self.id));
            self.lemma_alike(
                World { net: MemoryNetEndpoint::sent(w1.net, msg).0, ..w1 },
                w2,
                peers,
                b,
                from,
                anew,
            );
            assert(self.furthered(w, w2, peers, b, from, anew));
            assert forall|i: int| 0 <= i < rest.len() implies self.proper(#[trigger] rest[i], peers) by {
                assert(rest[i] == ds[i + 1]);
            }
            self.lemma_chunks(w2, peers, b, from, anew, rest);
            let w3 = Node::chunks_sent::<MemoryNetEndpoint>(w2, self.id, rest, false).0;
            assert forall|i: int|
                0 <= i < ds.len() && (#[trigger] ds[i]).peer == b implies self.brought(
                fresh(w3, b, from),
                ds[i].chunk_id,
            ) by {
                if i > 0 {
                    assert(rest[i - 1] == ds[i]);
                } else {
                    assert(self.brought(fresh(w2, b, from), d.chunk_id));
                }
            }
        }
    }
}

/// How many of the first `n` shards are not in the set.
spec fn missing(s: Set<u32>, n: nat) -> nat
    decreases n,
{
    if n == 0 {
        0
    } else {
        missing(s, (n - 1) as nat) + (if s.contains((n - 1) as u32) {
            0nat
        } else {
            1nat
        })
    }
}

proof fn lemma_missing(s: Set<u32>, n: nat)
    requires
        n <= u32::MAX,
    ensures
        missing(s, n) <= n,
        missing(s, n) == 0 ==> forall|i: u32| i < n ==> #[trigger] s.contains(i),
        missing(s, n) > 0 ==> exists|i: u32| i < n && !#[trigger] s.contains(i),
        (forall|i: u32| i < n ==> !#[trigger] s.contains(i)) ==> missing(s, n) == n,
    decreases n,
{
    if n > 0 {
        lemma_missing(s, (n - 1) as nat);
        let last = (n - 1) as u32;
        if missing(s, n) == 0 {
            assert forall|i: u32| i < n implies #[trigger] s.contains(i) by {
                if i == last {
                }
            }
        }
        if missing(s, n) > 0 && missing(s, (n - 1) as nat) == 0 {
            assert(!s.contains(last));
        }
    }
}

proof fn lemma_missing_insert(s: Set<u32>, n: nat, i: u32)
    requires
        n <= u32::MAX,
        !s.contains(i),
    ensures
        missing(s.insert(i), n) == missing(s, n) - (if i < n {
            1int
        } else {
            0int
        }),
    decreases n,
{
    if n > 0 {
        lemma_missing_insert(s, (n - 1) as nat, i);
    }
}

/// The shards that a peer is believed to hold, or that are on their way to it.
pub open spec fn settled(m: RsView, b: PeerId) -> Set<u32> {
    Set::new(
        |i: u32| m.planner.plan(b).in_flight.contains(i) || m.planner.plan(b).has(i),
    )
}

impl Cast {
    /// The strategy of the origin: it holds every shard and sends it to its
    /// peers without cap.
    pub open spec fn serves(self, m: RsView, peers: Set<PeerId>) -> bool {
        &&& m.chunks == self.word().map_values(|s: Seq<u8>| Some(s))
        &&& m.peers == peers
        &&& m.planner.mode == PlannerMode::Origin
        &&& m.planner.allocation.len() == self.word().len()
    }

    /// There are handles for as many rounds as bring `b` what it is missing.
    spec fn affords(self, m: RsView, room: int, b: PeerId) -> bool {
        let lack = missing(settled(m, b), self.word().len());
        lack > 0 ==> m.next_handle + lack * room < u64::MAX
    }

    /// Polling for chunks gives each peer that has a candidate a shard, as
    /// long as there are handles.
    proof fn lemma_dispatched(self, m: RsView, peers: Set<PeerId>, b: PeerId, list: Seq<PeerId>)
        requires
            self.serves(m, peers),
            self.word().len() <= u32::MAX,
            list.no_duplicates(),
            forall|i: int| 0 <= i < list.len() ==> peers.contains(#[trigger] list[i]),
        ensures
            ({
                let (m1, ds) = m.dispatched_all(list);
                let n = self.word().len();
                let before = settled(m, b);
                let after = settled(m1, b);
                &&& self.serves(m1, peers)
                &&& m1.planner.plan(b).havelist == m.planner.plan(b).havelist
                &&& ds.len() <= list.len()
                &&& m1.next_handle == m.next_handle + ds.len()
                &&& forall|i: int| 0 <= i < ds.len() ==> self.proper(#[trigger] ds[i], peers)
                &&& forall|i: u32| #[trigger]
                    after.contains(i) ==> before.contains(i) || exists|k: int|
                        0 <= k < ds.len() && (#[trigger] ds[k]).peer == b && ds[k].chunk_id == i
                &&& !list.contains(b) ==> after == before
                &&& missing(before, n) == 0 ==> after == before
                &&& list.contains(b) && missing(before, n) > 0 && m.next_handle + list.len() < u64::MAX
                    ==> missing(after, n) == missing(before, n) - 1 && ds.len() > 0
            }),
        decreases list.len(),
    {
        let n = self.word().len();
        let before = settled(m, b);
        if list.len() > 0 {
            let head = list.drop_last();
            let p = list.last();
            assert forall|i: int| 0 <= i < head.len() implies peers.contains(#[trigger] head[i]) by {
                assert(head[i] == list[i]);
            }
            self.lemma_dispatched(m, peers, b, head);
            let (m1, ds1) = m.dispatched_all(head);
            let (m2, d) = m1.dispatched(p);
            let ds = m.dispatched_all(list).1;
            let mid = settled(m1, b);
            let after = settled(m2, b);
            let held = Some(m1.held());
            planner::law_best_is_least_allocated(m1.planner, p, held);
            assert(list[list.len() - 1] == p);
            assert(head.contains(b) && p == b ==> false) by {
                if head.contains(b) && p == b {
                    let i = choose|i: int| 0 <= i < head.len() && head[i] == b;
                    assert(list[i] == list[list.len() - 1]);
                }
            }
            assert(list.contains(b) ==> head.contains(b) || p == b) by {
                if list.contains(b) && p != b {
                    let i = choose|i: int| 0 <= i < list.len() && list[i] == b;
                    assert(head[i] == b);
                }
            }
            assert(head.contains(b) ==> list.contains(b)) by {
                if head.contains(b) {
                    let i = choose|i: int| 0 <= i < head.len() && head[i] == b;
                    assert(list[i] == b);
                }
            }
            lemma_missing(mid, n);
            if p == b {
                assert(list.contains(b));
                assert(mid == before);
                if missing(before, n) > 0 {
                    let i = choose|i: u32| i < n && !#[trigger] mid.contains(i);
                    assert(m1.chunks[i as int] is Some);
                    assert(m1.planner.candidate(p, held, i));
                } else {
                    assert forall|i: u32| !#[trigger] m1.planner.candidate(p, held, i) by {
                        if i < n {
                            assert(mid.contains(i));
                        }
                    }
                    assert(m1.planner.best(p, held) is None);
                }
            }
            match d {
                Some(x) => {
                    let i = x.chunk_id;
                    assert(m1.planner.candidate(p, held, i));
                    assert(m1.held()[i as int]);
                    assert(m1.chunks[i as int] == Some(self.word()[i as int]));
                    assert(self.proper(x, peers));
                    if p == b {
                        lemma_missing_insert(mid, n, i);
                        assert(after =~= mid.insert(i));
                    } else {
                        assert(after =~= mid);
                    }
                    assert(ds == ds1.push(x));
                    assert forall|k: u32| #[trigger] after.contains(k) implies before.contains(k) || exists|j: int|
                        0 <= j < ds.len() && (#[trigger] ds[j]).peer == b && ds[j].chunk_id == k by {
                        if mid.contains(k) {
                            if !before.contains(k) {
                                let j = choose|j: int|
                                    0 <= j < ds1.len() && (#[trigger] ds1[j]).peer == b && ds1[j].chunk_id == k;
                                assert(ds[j] == ds1[j]);
                            }
                        } else {
                            assert(ds[ds1.len() as int] == x);
                        }
                    }
                    assert forall|j: int| 0 <= j < ds.len() implies self.proper(#[trigger] ds[j], peers) by {
                        if j < ds1.len() {
                            assert(ds[j] == ds1[j]);
                        }
                    }
                },
                None => {
                    assert(m2 == m1);
                    assert(ds == ds1);
                },
            }
        }
    }

    /// Draining the session of the origin brings every shard to `b`, but for
    /// those in `base`.
    proof fn lemma_drained(
        self,
        w: NodeWorld,
        peers: Set<PeerId>,
        b: PeerId,
        from: int,
        anew: bool,
        base: Set<u32>,
        rounds: nat,
    )
        requires
            self.tidy(w, peers, b, from, anew),
            peers.finite(),
            peers.contains(b),
            b != self.origin,
            self.word().len() <= u32::MAX,
            w.engine.channels.contains_key(self.id.0),
            w.engine.channels[self.id.0].subscribers == peers,
            w.engine.session(self.id) matches Some(s) && {
                &&& self.serves(s.strategy, peers)
                &&& self.affords(s.strategy, order::ascending(peers).len() as int, b)
                &&& rounds > RsStrategy::backlog(s.strategy)
                &&& forall|i: u32| #[trigger]
                    settled(s.strategy, b).contains(i) ==> base.contains(i) || self.brought(
                        fresh(w, b, from),
                        i,
                    )
            },
        ensures
            ({
                let (w1, r) = Node::drained::<MemoryNetEndpoint>(w, self.id, rounds);
                &&& r == Ok::<(), NetError>(())
                &&& self.tidy(w1, peers, b, from, anew)
                &&& forall|i: u32|
                    i < self.word().len() ==> base.contains(i) || #[trigger] self.brought(
                        fresh(w1, b, from),
                        i,
                    )
                &&& w1.engine.session(self.id) matches Some(s1) && {
                    &&& self.serves(s1.strategy, peers)
                    &&& s1.strategy.planner.plan(b).havelist == w.engine.session(
                        self.id,
                    )->Some_0.strategy.planner.plan(b).havelist
                }
            }),
        decreases rounds,
    {
        let id = self.id;
        assert((id.0, id.1) == id);
        let n = self.word().len();
        let list = order::ascending(peers);
        let room = list.len() as int;
        order::lemma_ascending(peers);
        assert forall|i: int| 0 <= i < list.len() implies peers.contains(#[trigger] list[i]) by {
            assert(list.to_set().contains(list[i]));
        }
        assert(list.contains(b)) by {
            assert(list.to_set().contains(b));
        }
        let s = w.engine.session(id)->Some_0;
        let m = s.strategy;
        let (m1, routing) = m.polled_routing(false);
        assert(self.serves(m1, peers));
        let (m2, ds) = m1.dispatched_all(list);
        let before = settled(m, b);
        let after = settled(m2, b);
        self.lemma_dispatched(m1, peers, b, list);
        state::lemma_dispatched_all(m1, list);
        code::lemma_filled_at_most(m.chunks);
        lemma_missing(before, n);
        let lack = missing(before, n);
        assert(settled(m1, b) =~= before);
        if lack > 0 {
            assert(m.next_handle + room < u64::MAX && m2.next_handle + (lack - 1) * room < u64::MAX)
                by (nonlinear_arith)
                requires
                    m.next_handle + lack * room < u64::MAX,
                    lack > 0,
                    m2.next_handle <= m.next_handle + room,
                    room >= 0,
            ;
        }
        let s1 = Session::<RsStrategy>::polled(s).0;
        assert(s1.strategy == m2);
        let w1 = World { engine: w.engine.with_session(id, s1), ..w };
        assert(w1.engine.session(id) == Some(s1));
        assert(w1.engine.opened_to(id) == w.engine.opened_to(id));
        self.lemma_alike(w, w1, peers, b, from, anew);
        if routing is None && ds.len() == 0 {
            assert(lack == 0);
            let events = fresh(w1, b, from);
            assert forall|i: u32| i < n implies base.contains(i) || #[trigger] self.brought(events, i) by {
                assert(before.contains(i));
            }
            assert(Node::drained::<MemoryNetEndpoint>(w, id, rounds) == (w1, Ok::<(), NetError>(())));
        } else {
            let w2 = match routing {
                Some(bits) => {
                    self.lemma_routing(w1, peers, b, from, anew, list, bitmap::packed(bits));
                    Node::routing_sent::<MemoryNetEndpoint>(w1, id, list, bitmap::packed(bits)).0
                },
                None => w1,
            };
            self.lemma_chunks(w2, peers, b, from, anew, ds);
            let w3 = Node::chunks_sent::<MemoryNetEndpoint>(w2, id, ds, false).0;
            assert(Node::work_sent::<MemoryNetEndpoint>(w1, id, routing, ds) == (
                w3,
                Ok::<bool, NetError>(false),
            ));
            assert(w3.engine.session(id) == Some(s1));
            let events = fresh(w3, b, from);
            assert forall|i: u32| #[trigger] after.contains(i) implies base.contains(i) || self.brought(
                events,
                i,
            ) by {
                if before.contains(i) {
                    assert(base.contains(i) || self.brought(fresh(w2, b, from), i));
                } else {
                    let k = choose|k: int|
                        0 <= k < ds.len() && (#[trigger] ds[k]).peer == b && ds[k].chunk_id == i;
                    assert(self.brought(events, ds[k].chunk_id));
                }
            }
            assert(RsStrategy::backlog(m2) < RsStrategy::backlog(m));
            self.lemma_drained(w3, peers, b, from, anew, base, (rounds - 1) as nat);
            assert(Node::drained::<MemoryNetEndpoint>(w, id, rounds) == Node::drained::<MemoryNetEndpoint>(
                w3,
                id,
                (rounds - 1) as nat,
            ));
        }
    }
}

proof fn lemma_attached_all(state: SessionState, m: RsView, list: Seq<PeerId>)
    ensures
        Session::<RsStrategy>::attached_all(SessionView { state, strategy: m }, list) == (SessionView {
            state,
            strategy: RsView { peers: m.peers.union(list.to_set()), ..m },
        }),
    decreases list.len(),
{
    let all = Session::<RsStrategy>::attached_all(SessionView { state, strategy: m }, list);
    if list.len() == 0 {
        assert(m.peers.union(list.to_set()) =~= m.peers);
    } else {
        let head = list.drop_last();
        lemma_attached_all(state, m, head);
        assert forall|p: PeerId| list.to_set().contains(p) implies head.to_set().contains(p) || p
            == list.last() by {
            let i = choose|i: int| 0 <= i < list.len() && list[i] == p;
            if i < head.len() {
                assert(head[i] == p);
            }
        }
        assert forall|p: PeerId| head.to_set().contains(p) || p == list.last() implies list.to_set().contains(
            p,
        ) by {
            if head.to_set().contains(p) {
                let i = choose|i: int| 0 <= i < head.len() && head[i] == p;
                assert(list[i] == p);
            } else {
                assert(list[list.len() - 1] == p);
            }
        }
        assert(m.peers.union(head.to_set()).insert(list.last()) =~= m.peers.union(list.to_set()));
    }
    assert(all.strategy =~= RsView { peers: m.peers.union(list.to_set()), ..m });
}

proof fn lemma_nothing_due(w: NodeWorld, id: SessionId, list: Seq<PeerId>)
    requires
        w.engine.due == Map::<(Seq<char>, Seq<char>, u64), Seq<u8>>::empty(),
    ensures
        Node::due_sent::<MemoryNetEndpoint>(w, id, list) == (w, Ok::<(), NetError>(())),
    decreases list.len(),
{
    if list.len() > 0 {
        lemma_nothing_due(w, id, list.drop_first());
    }
}

impl Cast {
    /// The payload can be coded and is an origin's to publish.
    pub open spec fn fits(self, seed: u64) -> bool {
        &&& encode::encodes(self.preamble(), self.payload, self.config)
        &&& RsStrategy::valid(RsView::origin(self.payload, self.config, seed))
    }

    /// The origin can publish: it hosts the channel, does not know the message
    /// yet, and nothing that it sent earlier lacks room.
    pub open spec fn offers(self, e: NodeView) -> bool {
        &&& e.channels.contains_key(self.id.0)
        &&& e.session(self.id) is None
        &&& e.opened_to(self.id) == Set::<PeerId>::empty()
        &&& e.owed.len() == 0
        &&& e.due == Map::<(Seq<char>, Seq<char>, u64), Seq<u8>>::empty()
    }

    /// Those who are subscribed at the origin.
    pub open spec fn audience(self, e: NodeView) -> Set<PeerId> {
        e.channels[self.id.0].subscribers
    }

    /// The audience listens, and there are handles for all that is to be sent
    /// to it.
    pub open spec fn reaches(self, e: NodeView, hub: HubView) -> bool {
        &&& self.audience(e).finite()
        &&& self.audience(e).len() * (self.word().len() + 1) < u64::MAX
        &&& forall|p: PeerId| #[trigger]
            self.audience(e).contains(p) ==> hub.inboxes.contains_key(p) && hub.inboxes[p].open
    }

    /// The state and the answer after the origin publishes.
    pub open spec fn published(self, e: NodeView, hub: HubView, seed: u64, now: Nanos) -> (
        NodeWorld,
        Result<(), model::EngineFault>,
    ) {
        Node::published::<MemoryNetEndpoint>(
            World { engine: e, net: (self.origin, hub) },
            self.id,
            RsView::origin(self.payload, self.config, seed),
            self.bytes(),
            now,
        )
    }

    /// Publishing opens the session to a subscriber and brings it every shard.
    proof fn lemma_published(self, e: NodeView, hub: HubView, seed: u64, now: Nanos, b: PeerId)
        requires
            self.fits(seed),
            self.offers(e),
            self.reaches(e, hub),
            self.audience(e).contains(b),
            b != self.origin,
        ensures
            ({
                let (w, r) = self.published(e, hub, seed, now);
                let before = hub.inboxes[b].events;
                let events = w.net.1.inboxes[b].events.skip(before.len() as int);
                &&& r == Ok::<(), model::EngineFault>(())
                &&& w.net.1.inboxes.contains_key(b)
                &&& before.is_prefix_of(w.net.1.inboxes[b].events)
                &&& self.streams(events)
                &&& forall|i: u32| i < self.word().len() ==> #[trigger] self.brought(events, i)
            }),
    {
        let from = hub.inboxes[b].events.len() as int;
        let x = QueueKeeps { peer: b, ahead: hub.inboxes[b].events };
        assert(x.ahead =~= x.ahead.subrange(0, from));
        watch::lemma_published::<RsStrategy, RsRelayFactory, MemoryNetEndpoint, QueueKeeps>(
            x,
            World { engine: e, net: (self.origin, hub) },
            self.id,
            RsView::origin(self.payload, self.config, seed),
            self.bytes(),
            now,
        );
        let id = self.id;
        assert((id.0, id.1) == id);
        let n = self.word().len();
        let peers = self.audience(e);
        let list = order::ascending(peers);
        order::lemma_ascending(peers);
        list.unique_seq_to_set();
        assert forall|i: int| 0 <= i < list.len() implies peers.contains(#[trigger] list[i]) by {
            assert(list.to_set().contains(list[i]));
        }
        assert(list.contains(b)) by {
            assert(list.to_set().contains(b));
        }
        let m = RsView::origin(self.payload, self.config, seed);
        let (c, r) = Channel::<RsStrategy, RsRelayFactory>::started(e.channels[id.0], id.1, m);
        lemma_attached_all(SessionState::Origin, m, list);
        assert(m.peers.union(list.to_set()) =~= peers);
        let e1 = EngineView {
            channels: e.channels.insert(id.0, c),
            preambles: e.preambles.insert(id, self.bytes()),
            ..e
        };
        let w1 = World { engine: e1.created(id, now), net: (self.origin, hub) };
        assert(w1.engine.opened_to(id) == e.opened_to(id));
        assert(self.tidy(w1, peers, b, from, true));
        self.lemma_ensured_all(w1, peers, b, from, true, list);
        let w2 = Node::ensured_all::<MemoryNetEndpoint>(w1, id, list).0;
        assert(w2.engine.channels == e1.channels);
        let s = w2.engine.session(id)->Some_0;
        let m1 = RsView { peers, ..m };
        assert(s.strategy == m1);
        assert(EngineView { owed: Seq::empty(), ..w2.engine } =~= w2.engine);
        assert(Node::caught_up::<MemoryNetEndpoint>(w2) == w2);
        lemma_nothing_due(w2, id, list);
        let known = settled(m1, b);
        assert(known =~= Set::<u32>::empty());
        lemma_missing(known, n);
        assert(n * list.len() < u64::MAX) by (nonlinear_arith)
            requires
                list.len() * (n + 1) < u64::MAX,
        ;
        assert(self.serves(m1, peers));
        self.lemma_drained(
            w2,
            peers,
            b,
            from,
            true,
            Set::empty(),
            RsStrategy::backlog(m1) + 1,
        );
        assert(self.brought(
            fresh(Node::drained::<MemoryNetEndpoint>(w2, id, RsStrategy::backlog(m1) + 1).0, b, from),
            0,
        ));
        assert(Node::drain::<MemoryNetEndpoint>(w2, id) == Node::drained::<MemoryNetEndpoint>(
            w2,
            id,
            RsStrategy::backlog(m1) + 1,
        ));
    }
}

/// The queue of a peer keeps what is ahead in it, whatever an engine sends.
pub ghost struct QueueKeeps {
    pub peer: PeerId,
    pub ahead: Seq<NetEventView>,
}

impl QueueKeeps {
    pub open spec fn kept(self, hub: HubView) -> bool {
        &&& hub.inboxes.contains_key(self.peer)
        &&& self.ahead.is_prefix_of(hub.inboxes[self.peer].events)
    }

    proof fn lemma_put(self, q: InboxView, e: NetEventView)
        requires
            self.ahead.is_prefix_of(q.events),
        ensures
            self.ahead.is_prefix_of(memory_net::put(q, e).events),
    {
        let after = memory_net::put(q, e).events;
        assert(self.ahead =~= after.subrange(0, self.ahead.len() as int)) by {
            assert(self.ahead == q.events.subrange(0, self.ahead.len() as int));
        }
    }

    proof fn lemma_delivered(self, inboxes: Map<PeerId, InboxView>, p: PeerId, e: NetEventView)
        requires
            inboxes.contains_key(self.peer),
            self.ahead.is_prefix_of(inboxes[self.peer].events),
        ensures
            ({
                let after = memory_net::delivered(inboxes, p, e);
                after.contains_key(self.peer) && self.ahead.is_prefix_of(after[self.peer].events)
            }),
    {
        self.lemma_put(inboxes[self.peer], e);
    }

    proof fn lemma_delivered_all(
        self,
        inboxes: Map<PeerId, InboxView>,
        list: Seq<PeerId>,
        e: NetEventView,
    )
        requires
            inboxes.contains_key(self.peer),
            self.ahead.is_prefix_of(inboxes[self.peer].events),
        ensures
            ({
                let after = memory_net::delivered_all(inboxes, list, e);
                after.contains_key(self.peer) && self.ahead.is_prefix_of(after[self.peer].events)
            }),
        decreases list.len(),
    {
        if list.len() > 0 {
            self.lemma_delivered(inboxes, list[0], e);
            self.lemma_delivered_all(
                memory_net::delivered(inboxes, list[0], e),
                list.drop_first(),
                e,
            );
        }
    }

    proof fn lemma_sent(self, hub: HubView, src: PeerId, msg: NetSendView)
        requires
            self.kept(hub),
        ensures
            self.kept(hub.sent(src, msg).0),
    {
        let e = runtime::event_of(src, msg);
        match msg {
            NetSendView::SessionReconstructed { channel, message_id } => {
                let told = memory_net::openers_of(hub.openers, (src, channel, message_id));
                self.lemma_delivered_all(hub.inboxes, order::ascending(told), e);
            },
            _ => {
                let dst = runtime::destination_of(msg)->Some_0;
                self.lemma_delivered(hub.inboxes, dst, e);
                if let Some(report) = memory_net::ack(msg) {
                    self.lemma_delivered(memory_net::delivered(hub.inboxes, dst, e), src, report);
                }
            },
        }
    }
}

impl Watch<RsStrategy, RsRelayFactory, MemoryNetEndpoint> for QueueKeeps {
    open spec fn holds(self, w: NodeWorld) -> bool {
        self.kept(w.net.1)
    }

    open spec fn subject(self) -> SessionId {
        (Seq::empty(), Seq::empty())
    }

    open spec fn loose(self) -> bool {
        true
    }

    proof fn keeps_engine(self, w: NodeWorld, e: NodeView) {
    }

    proof fn keeps_open(self, w: NodeWorld, id: SessionId, peer: PeerId) {
        let msg = NetSendView::SessionOpen {
            peer,
            channel: id.0,
            message_id: id.1,
            preamble: w.engine.preambles[id],
            initial_update: Seq::empty(),
        };
        self.lemma_sent(w.net.1, w.net.0, msg);
    }

    proof fn keeps_use(self, w: NodeWorld, id: SessionId, peer: PeerId, msg: NetSendView) {
        self.lemma_sent(w.net.1, w.net.0, msg);
    }

    proof fn keeps_aside(self, w: NodeWorld, msg: NetSendView) {
        self.lemma_sent(w.net.1, w.net.0, msg);
    }
}

/// Engines that share a hub, by the peers they run as.
#[verifier::ext_equal]
pub ghost struct Fleet {
    pub engines: Map<PeerId, NodeView>,
    pub hub: HubView,
}

/// A peer takes the next event that waits for it, if one does, at a time and
/// with a reading of the wall clock.
pub ghost struct Turn {
    pub peer: PeerId,
    pub now: Nanos,
    pub reading: u32,
}

impl Fleet {
    /// The event that waits for a peer first.
    pub open spec fn waiting(self, p: PeerId) -> Option<NetEventView> {
        if self.hub.inboxes.contains_key(p) && self.hub.inboxes[p].events.len() > 0 {
            Some(self.hub.inboxes[p].events[0])
        } else {
            None
        }
    }

    /// A peer that has taken its event and is about to handle it.
    pub open spec fn at(self, p: PeerId) -> NodeWorld {
        World {
            engine: self.engines[p],
            net: (p, memory_laws::acted(self.hub, HubAct::Take { peer: p })),
        }
    }

    /// What the step of a turn leads to.
    pub open spec fn outcome(self, t: Turn) -> NodeWorld {
        Node::stepped::<MemoryNetEndpoint>(
            self.at(t.peer),
            self.waiting(t.peer),
            t.now,
            t.reading,
        )
    }

    /// The fleet after a turn.
    pub open spec fn turned(self, t: Turn) -> Fleet {
        if self.engines.contains_key(t.peer) {
            let w = self.outcome(t);
            Fleet { engines: self.engines.insert(t.peer, w.engine), hub: w.net.1 }
        } else {
            self
        }
    }

    /// The fleet after turns.
    pub open spec fn played(self, turns: Seq<Turn>) -> Fleet
        decreases turns.len(),
    {
        if turns.len() == 0 {
            self
        } else {
            self.played(turns.drop_last()).turned(turns.last())
        }
    }

    /// Every turn is a step of [`Engine::run_step_at`]: it does what that
    /// function ensures.
    pub open spec fn ran(self, turns: Seq<Turn>) -> bool
        decreases turns.len(),
    {
        turns.len() == 0 || {
            let f = self.played(turns.drop_last());
            let t = turns.last();
            &&& self.ran(turns.drop_last())
            &&& f.engines.contains_key(t.peer) ==> Node::steps::<MemoryNetEndpoint>(
                f.at(t.peer),
                f.waiting(t.peer),
                t.now,
                t.reading,
                f.outcome(t),
            )
        }
    }
}

/// How many of the turns are of a peer.
pub open spec fn turns_of(turns: Seq<Turn>, p: PeerId) -> nat
    decreases turns.len(),
{
    if turns.len() == 0 {
        0
    } else {
        turns_of(turns.drop_last(), p) + (if turns.last().peer == p {
            1nat
        } else {
            0nat
        })
    }
}

/// The turns of a peer come at or after `start`, and before a session that
/// starts then would outlive its time, or its tombstone would go.
pub open spec fn timely(turns: Seq<Turn>, p: PeerId, start: Nanos, e: NodeView) -> bool {
    forall|i: int|
        0 <= i < turns.len() && (#[trigger] turns[i]).peer == p ==> {
            &&& start <= turns[i].now
            &&& turns[i].now - start <= e.config.active_session_ttl
            &&& turns[i].now - start <= e.config.tombstone_ttl
        }
}

impl Cast {
    /// A subscriber that has not heard of the message.
    pub open spec fn awaits(self, e: NodeView) -> bool {
        &&& e.channels.contains_key(self.id.0)
        &&& e.session(self.id) is None
        &&& !e.tombstoned(self.id)
        &&& !e.parked.contains_key(self.id)
        &&& !e.meta.contains_key(self.id)
        &&& laws::tally(e.delivered, self.id).len() == 0
    }

    /// The session began at or after `start`.
    spec fn dates(self, e: NodeView, start: Nanos) -> bool {
        &&& e.meta.contains_key(self.id)
        &&& e.meta[self.id].created_at >= start
    }

    /// The session holds the shards that were brought, which are not enough.
    spec fn gathers(self, e: NodeView, start: Nanos, seen: Seq<NetEventView>) -> bool {
        &&& e.session(self.id) matches Some(s) && {
            &&& s.state == SessionState::Consuming
            &&& s.strategy.preamble == self.preamble()
            &&& code::drawn_from(s.strategy.chunks, self.word())
            &&& code::filled(s.strategy.chunks) < self.preamble().num_data
            &&& forall|i: u32| #[trigger]
                self.brought(seen, i) ==> s.strategy.chunks[i as int] is Some
        }
        &&& !e.tombstoned(self.id)
        &&& laws::tally(e.delivered, self.id).len() == 0
        &&& self.dates(e, start)
        &&& e.meta[self.id].terminal_at is None
    }

    /// The payload was delivered, once; the session is over, or disposed and
    /// has its tombstone.
    spec fn received(self, e: NodeView, start: Nanos) -> bool {
        &&& laws::tally(e.delivered, self.id) == seq![self.payload]
        &&& {
            ||| laws::stage(e, self.id) == Some(SessionState::Reconstructed)
            ||| e.session(self.id) is None && e.tombstoned(self.id) && e.tombstones[self.id] >= start
        }
    }

    /// A sweep within the time of a session that gathers leaves it alone.
    proof fn lemma_cleaned(self, e: NodeView, start: Nanos, now: Nanos, seen: Seq<NetEventView>)
        requires
            self.gathers(e, start, seen),
            start <= now,
            now - start <= e.config.active_session_ttl,
        ensures
            self.gathers(e.cleaned(now), start, seen),
            e.cleaned(now).config == e.config,
    {
        assert(!e.expired(self.id, now));
        if now >= e.next_cleanup {
            laws::law_sweep_disposes_what_expired(e, self.id, now);
        }
    }

    /// A sweep while its tombstone stands takes nothing back of what was
    /// received.
    proof fn lemma_cleaned_received(self, e: NodeView, start: Nanos, now: Nanos)
        requires
            self.received(e, start),
            start <= now,
            now - start <= e.config.tombstone_ttl,
        ensures
            self.received(e.cleaned(now), start),
            e.cleaned(now).config == e.config,
    {
        if now >= e.next_cleanup {
            laws::law_sweep_disposes_what_expired(e, self.id, now);
            let d = e.cleaned(now);
            if e.expired(self.id, now) {
                assert(d.tombstones[self.id] == now);
            } else if !(laws::stage(e, self.id) == Some(SessionState::Reconstructed)) {
                assert(d.tombstoned(self.id));
                assert(d.tombstones[self.id] == e.tombstones[self.id]);
            }
        }
    }

    /// The event that opens the session.
    proof fn lemma_opens(self, w: NodeWorld, start: Nanos, now: Nanos, reading: u32, seed: u64)
        requires
            self.fits(seed),
            self.awaits(w.engine),
            start <= now,
        ensures
            ({
                let e = Node::handled::<MemoryNetEndpoint>(w, self.opening(), now, reading).engine;
                self.gathers(e, start, seq![self.opening()]) && e.config == w.engine.config
            }),
    {
        let id = self.id;
        assert((id.0, id.1) == id);
        let e = w.engine;
        let v = self.preamble();
        let n = self.word().len();
        assert forall|i: int| 0 <= i < v.hashes.len() implies (#[trigger] v.hashes[i]).len() <= u64::MAX by {
        }
        rs::law_preamble_round_trip(v);
        let (c, r) = Channel::<RsStrategy, RsRelayFactory>::opened(
            e.channels[id.0],
            id.1,
            self.bytes(),
            reading,
        );
        let list = order::ascending(e.channels[id.0].subscribers);
        assert(r is Ok);
        let e2 = EngineView {
            channels: e.channels.insert(id.0, c),
            preambles: e.preambles.insert(id, self.bytes()),
            ..e
        };
        let e3 = e2.created(id, now);
        let w3 = World { engine: e3, ..w };
        let s3 = e3.session(id)->Some_0;
        let built = s3.strategy;
        assert(s3.state == SessionState::Consuming && built.preamble == v && built.chunks == Seq::new(
            n,
            |i: int| None::<Seq<u8>>,
        )) by {
            let (f, m) = <RsRelayFactory as crate::channel::StrategyFactory<RsStrategy>>::built(
                e.channels[id.0].factory,
                self.bytes(),
                reading,
            );
            lemma_attached_all(SessionState::Consuming, m->Ok_0, list);
        }
        code::lemma_none_filled(built.chunks);
        laws::lemma_drain::<RsStrategy, RsRelayFactory, MemoryNetEndpoint>(w3, id);
        let w4 = Node::drain::<MemoryNetEndpoint>(w3, id).0;
        assert(laws::stage(w4.engine, id) == laws::stage(e3, id));
        assert(laws::holding::<RsStrategy, RsRelayFactoryView>(w4.engine, id) == laws::holding::<
            RsStrategy,
            RsRelayFactoryView,
        >(e3, id));
        assert(!w4.engine.parked.contains_key(id));
        assert(Node::handled::<MemoryNetEndpoint>(w, self.opening(), now, reading) == w4);
        let seen = seq![self.opening()];
        assert forall|i: u32| !#[trigger] self.brought(seen, i) by {
        }
    }

    /// An event that brings a shard.
    proof fn lemma_takes(
        self,
        w: NodeWorld,
        start: Nanos,
        now: Nanos,
        reading: u32,
        seen: Seq<NetEventView>,
        event: NetEventView,
        i: u32,
    )
        requires
            encode::encodes(self.preamble(), self.payload, self.config),
            self.gathers(w.engine, start, seen),
            seen.len() > 0,
            self.carries(event, i),
            start <= now,
            now - start <= w.engine.config.active_session_ttl,
            now - start <= w.engine.config.tombstone_ttl,
            Node::steps::<MemoryNetEndpoint>(
                w,
                Some(event),
                now,
                reading,
                Node::stepped::<MemoryNetEndpoint>(w, Some(event), now, reading),
            ),
        ensures
            ({
                let e = Node::stepped::<MemoryNetEndpoint>(w, Some(event), now, reading).engine;
                &&& self.gathers(e, start, seen.push(event)) || self.received(e, start)
                &&& e.config == w.engine.config
            }),
    {
        let id = self.id;
        assert((id.0, id.1) == id);
        let e = w.engine;
        let s = e.session(id)->Some_0;
        let m = s.strategy;
        let data = self.word()[i as int];
        assert(verify::authentic(self.preamble(), i as int, data)) by {
            assert(self.preamble().hashes[i as int].len() == crate::strategy::rs::HASH_LEN);
        }
        let (e1, complete) = Node::taken(e, id, i, data);
        let w1 = World { engine: e1, ..w };
        let s1 = e1.session(id)->Some_0;
        let m1 = s1.strategy;
        if !m.holds(i) {
            code::lemma_filled_update(m.chunks, i as int, data);
            assert(m1.chunks == m.chunks.update(i as int, Some(data)));
        } else {
            assert(m1.chunks == m.chunks);
        }
        assert(m1.preamble == self.preamble());
        assert(code::drawn_from(m1.chunks, self.word()));
        assert forall|k: u32| #[trigger] self.brought(seen.push(event), k) implies m1.chunks[k as int] is Some by {
            let all = seen.push(event);
            let j = choose|j: int| 0 <= j < all.len() && self.carries(#[trigger] all[j], k);
            if j < seen.len() {
                assert(self.carries(seen[j], k));
                assert(self.brought(seen, k));
            }
        }
        laws::lemma_drain::<RsStrategy, RsRelayFactory, MemoryNetEndpoint>(w1, id);
        let w2 = Node::drain::<MemoryNetEndpoint>(w1, id).0;
        assert(laws::stage(w2.engine, id) == laws::stage(e1, id));
        assert(laws::holding::<RsStrategy, RsRelayFactoryView>(w2.engine, id) == laws::holding::<
            RsStrategy,
            RsRelayFactoryView,
        >(e1, id));
        let handled = Node::handled::<MemoryNetEndpoint>(w, event, now, reading);
        assert(handled == Node::progressed::<MemoryNetEndpoint>(w1, id, complete, now));
        if complete {
            assert(encode::encodes(m1.preamble, self.payload, self.config));
            assert(m1.complete());
            assert(m1.bears(self.payload));
            assert(laws::bears::<RsStrategy, RsRelayFactoryView>(e1, id, self.payload));
            assert(laws::stage(e1, id) == Some(SessionState::Decoding));
            let got = DeliveredView { channel_id: id.0, message_id: id.1, payload: self.payload };
            assert(handled == Node::decoded::<MemoryNetEndpoint>(w2, id, now));
            let s2 = w2.engine.session(id)->Some_0;
            assert(handled.engine.cleaned(now).delivered == handled.engine.delivered);
            assert(handled.engine.delivered == e.delivered.push(got));
            assert(e.delivered.push(got).drop_last() =~= e.delivered);
            assert(laws::tally(e.delivered, id) =~= Seq::<Seq<u8>>::empty());
            assert(laws::tally(handled.engine.delivered, id) =~= seq![self.payload]);
            let r = Session::<RsStrategy>::finished(s2).1;
            assert(r is Ok) by {
                if r is Err {
                    assert(handled.engine.delivered == e.delivered);
                    assert(e.delivered.len() + 1 == e.delivered.push(got).len());
                }
            }
            assert(laws::stage(handled.engine, id) == Some(SessionState::Reconstructed));
            self.lemma_cleaned_received(handled.engine, start, now);
        } else {
            assert(handled == w2);
            self.lemma_cleaned(handled.engine, start, now, seen.push(event));
        }
    }
}

proof fn lemma_all_filled(slots: Seq<Option<Seq<u8>>>)
    requires
        forall|i: int| 0 <= i < slots.len() ==> #[trigger] slots[i] is Some,
    ensures
        code::filled(slots) == slots.len(),
    decreases slots.len(),
{
    if slots.len() > 0 {
        lemma_all_filled(slots.drop_last());
    }
}

/// A step of an engine keeps what is ahead in a queue.
proof fn lemma_stepped_keeps(
    x: QueueKeeps,
    w: NodeWorld,
    event: Option<NetEventView>,
    now: Nanos,
    reading: u32,
)
    requires
        x.kept(w.net.1),
    ensures
        x.kept(Node::stepped::<MemoryNetEndpoint>(w, event, now, reading).net.1),
{
    if let Some(e) = event {
        if !(e is PeerDisconnected) {
            watch::lemma_handled::<RsStrategy, RsRelayFactory, MemoryNetEndpoint, QueueKeeps>(
                x,
                w,
                e,
                now,
                reading,
            );
        }
    }
}

impl Cast {
    /// Where subscriber `b` is after `c` turns, when `events` wait for it at
    /// first, those of the session from place `from` on.
    spec fn stands(
        self,
        f: Fleet,
        b: PeerId,
        start: Nanos,
        events: Seq<NetEventView>,
        from: int,
        c: nat,
    ) -> bool {
        let e = f.engines[b];
        &&& f.engines.contains_key(b)
        &&& c < events.len() ==> (QueueKeeps { peer: b, ahead: events.skip(c as int) }).kept(f.hub)
        &&& if c <= from {
            self.awaits(e)
        } else if c < events.len() {
            self.gathers(e, start, events.subrange(from, c as int)) || self.received(e, start)
        } else {
            self.received(e, start)
        }
    }

    /// What is to come for `b`: first nothing about the message, and from a
    /// place on the session with every shard.
    spec fn comes(self, events: Seq<NetEventView>, from: int) -> bool {
        &&& 0 <= from <= events.len()
        &&& forall|i: int| 0 <= i < from ==> !laws::concerns(#[trigger] events[i], self.id)
        &&& self.streams(events.skip(from))
        &&& forall|i: u32| i < self.word().len() ==> #[trigger] self.brought(events.skip(from), i)
    }

    /// A turn of `b` with an event that is not about the message.
    proof fn lemma_still_awaits(
        self,
        w: NodeWorld,
        event: NetEventView,
        now: Nanos,
        reading: u32,
    )
        requires
            self.awaits(w.engine),
            !laws::concerns(event, self.id),
        ensures
            ({
                let e = Node::stepped::<MemoryNetEndpoint>(w, Some(event), now, reading).engine;
                self.awaits(e) && e.config == w.engine.config
            }),
    {
        laws::law_other_events_leave_session_alone::<RsStrategy, RsRelayFactory, MemoryNetEndpoint>(
            w,
            event,
            now,
            reading,
            self.id,
        );
        let e = Node::handled::<MemoryNetEndpoint>(w, event, now, reading).engine;
        assert(laws::stage(e, self.id) == laws::stage(w.engine, self.id));
        assert(e.session(self.id) is None);
        if now >= e.next_cleanup {
            laws::law_sweep_disposes_what_expired(e, self.id, now);
        }
    }

    /// A turn of `b` after it received the payload.
    proof fn lemma_stays_received(
        self,
        w: NodeWorld,
        event: Option<NetEventView>,
        start: Nanos,
        now: Nanos,
        reading: u32,
    )
        requires
            self.received(w.engine, start),
            start <= now,
            now - start <= w.engine.config.active_session_ttl,
            now - start <= w.engine.config.tombstone_ttl,
        ensures
            ({
                let e = Node::stepped::<MemoryNetEndpoint>(w, event, now, reading).engine;
                self.received(e, start) && e.config == w.engine.config
            }),
    {
        if let Some(ev) = event {
            laws::law_finished_session_delivers_no_more::<RsStrategy, RsRelayFactory, MemoryNetEndpoint>(
                w,
                ev,
                now,
                reading,
                self.id,
            );
            let e = Node::handled::<MemoryNetEndpoint>(w, ev, now, reading).engine;
            assert(laws::stage(e, self.id) == laws::stage(w.engine, self.id));
            self.lemma_cleaned_received(e, start, now);
        }
    }

    /// A turn of `b`.
    proof fn lemma_own_turn(
        self,
        f: Fleet,
        b: PeerId,
        start: Nanos,
        events: Seq<NetEventView>,
        from: int,
        c: nat,
        t: Turn,
        seed: u64,
    )
        requires
            self.fits(seed),
            self.comes(events, from),
            self.stands(f, b, start, events, from, c),
            t.peer == b,
            start <= t.now,
            t.now - start <= f.engines[b].config.active_session_ttl,
            t.now - start <= f.engines[b].config.tombstone_ttl,
            Node::steps::<MemoryNetEndpoint>(
                f.at(b),
                f.waiting(b),
                t.now,
                t.reading,
                f.outcome(t),
            ),
        ensures
            self.stands(f.turned(t), b, start, events, from, c + 1),
            f.turned(t).engines[b].config == f.engines[b].config,
    {
        let w = f.at(b);
        let after = f.outcome(t);
        let e = after.engine;
        let n = self.word().len();
        if c >= events.len() {
            self.lemma_stays_received(w, f.waiting(b), start, t.now, t.reading);
        } else {
            let queue = f.hub.inboxes[b].events;
            let ahead = events.skip(c as int);
            let event = events[c as int];
            assert(ahead[0] == event);
            assert(queue[0] == event) by {
                assert(ahead =~= queue.subrange(0, ahead.len() as int));
                assert(queue.subrange(0, ahead.len() as int)[0] == queue[0]);
            }
            assert(f.waiting(b) == Some(event));
            let x = QueueKeeps { peer: b, ahead: events.skip((c + 1) as int) };
            assert(x.kept(w.net.1)) by {
                let left = w.net.1.inboxes[b].events;
                assert(left == queue.drop_first());
                assert(x.ahead =~= left.subrange(0, x.ahead.len() as int)) by {
                    assert forall|k: int| 0 <= k < x.ahead.len() implies x.ahead[k] == left[k] by {
                        assert(ahead[k + 1] == queue.subrange(0, ahead.len() as int)[k + 1]);
                    }
                }
            }
            lemma_stepped_keeps(x, w, Some(event), t.now, t.reading);
            let stream = events.skip(from);
            let seen = events.subrange(from, c as int);
            let now_seen = events.subrange(from, (c + 1) as int);
            if c < from {
                self.lemma_still_awaits(w, event, t.now, t.reading);
            } else if c == from {
                assert(stream[0] == event);
                assert(now_seen =~= seq![self.opening()]);
                self.lemma_opens(w, start, t.now, t.reading, seed);
                let mid = Node::handled::<MemoryNetEndpoint>(w, event, t.now, t.reading).engine;
                self.lemma_cleaned(mid, start, t.now, now_seen);
            } else if self.received(w.engine, start) {
                self.lemma_stays_received(w, Some(event), start, t.now, t.reading);
            } else {
                assert(stream[c - from] == event);
                assert(self.part(stream[c - from]));
                assert(seen.push(event) =~= now_seen);
                if event is RoutingUpdate {
                    assert forall|i: u32| #[trigger] self.brought(now_seen, i) implies self.brought(seen, i) by {
                        let k = choose|k: int|
                            0 <= k < now_seen.len() && self.carries(#[trigger] now_seen[k], i);
                        assert(k < seen.len());
                        assert(seen[k] == now_seen[k]);
                    }
                    self.lemma_cleaned(w.engine, start, t.now, now_seen);
                } else {
                    self.lemma_takes(
                        w,
                        start,
                        t.now,
                        t.reading,
                        seen,
                        event,
                        event->Chunk_chunk_id,
                    );
                }
            }
            assert(c < from || self.gathers(e, start, now_seen) || self.received(e, start));
            if c + 1 == events.len() && c >= from && self.gathers(e, start, now_seen) {
                assert(now_seen =~= stream);
                let chunks = e.session(self.id)->Some_0.strategy.chunks;
                assert forall|i: int| 0 <= i < chunks.len() implies #[trigger] chunks[i] is Some by {
                    assert(self.brought(stream, i as u32));
                }
                lemma_all_filled(chunks);
                assert(false);
            }
        }
    }

    /// A turn of another peer than `b`.
    proof fn lemma_other_turn(
        self,
        f: Fleet,
        b: PeerId,
        start: Nanos,
        events: Seq<NetEventView>,
        from: int,
        c: nat,
        t: Turn,
    )
        requires
            self.stands(f, b, start, events, from, c),
            t.peer != b,
        ensures
            self.stands(f.turned(t), b, start, events, from, c),
            f.turned(t).engines[b] == f.engines[b],
    {
        if f.engines.contains_key(t.peer) && c < events.len() {
            let x = QueueKeeps { peer: b, ahead: events.skip(c as int) };
            assert(x.kept(f.at(t.peer).net.1));
            lemma_stepped_keeps(x, f.at(t.peer), f.waiting(t.peer), t.now, t.reading);
        }
    }

    proof fn lemma_played(
        self,
        f: Fleet,
        b: PeerId,
        start: Nanos,
        events: Seq<NetEventView>,
        from: int,
        turns: Seq<Turn>,
        seed: u64,
    )
        requires
            self.fits(seed),
            self.comes(events, from),
            self.stands(f, b, start, events, from, 0),
            timely(turns, b, start, f.engines[b]),
            f.ran(turns),
        ensures
            self.stands(f.played(turns), b, start, events, from, turns_of(turns, b)),
            f.played(turns).engines[b].config == f.engines[b].config,
        decreases turns.len(),
    {
        if turns.len() > 0 {
            let head = turns.drop_last();
            let t = turns.last();
            assert(turns[turns.len() - 1] == t);
            assert forall|i: int| 0 <= i < head.len() implies head[i] == turns[i] by {
            }
            assert(timely(head, b, start, f.engines[b]));
            self.lemma_played(f, b, start, events, from, head, seed);
            let g = f.played(head);
            if t.peer == b {
                self.lemma_own_turn(g, b, start, events, from, turns_of(head, b), t, seed);
            } else {
                self.lemma_other_turn(g, b, start, events, from, turns_of(head, b), t);
            }
        }
    }
}

/// A payload that is published reaches every subscriber, once. However the
/// engines on a hub take their turns after an origin published, no engine of
/// a listening subscriber that had not heard of the message delivers anything
/// else for it, none delivers it twice, and each has delivered it as soon as
/// it has taken what was in its queue after publishing.
pub proof fn law_published_payload_is_delivered_once(
    cast: Cast,
    f: Fleet,
    seed: u64,
    published_at: Nanos,
    b: PeerId,
    start: Nanos,
    turns: Seq<Turn>,
)
    requires
        cast.fits(seed),
        f.engines.contains_key(cast.origin),
        cast.offers(f.engines[cast.origin]),
        cast.reaches(f.engines[cast.origin], f.hub),
        cast.audience(f.engines[cast.origin]).contains(b),
        b != cast.origin,
        f.engines.contains_key(b),
        cast.awaits(f.engines[b]),
        forall|i: int|
            0 <= i < f.hub.inboxes[b].events.len() ==> !laws::concerns(
                #[trigger] f.hub.inboxes[b].events[i],
                cast.id,
            ),
        timely(turns, b, start, f.engines[b]),
        ({
            let w = cast.published(f.engines[cast.origin], f.hub, seed, published_at).0;
            (Fleet { engines: f.engines.insert(cast.origin, w.engine), hub: w.net.1 }).ran(turns)
        }),
    ensures
        ({
            let (w, r) = cast.published(f.engines[cast.origin], f.hub, seed, published_at);
            let g = Fleet { engines: f.engines.insert(cast.origin, w.engine), hub: w.net.1 };
            let got = laws::tally(g.played(turns).engines[b].delivered, cast.id);
            &&& r == Ok::<(), model::EngineFault>(())
            &&& got == Seq::<Seq<u8>>::empty() || got == seq![cast.payload]
            &&& turns_of(turns, b) >= w.net.1.inboxes[b].events.len() ==> got == seq![cast.payload]
        }),
{
    let o = f.engines[cast.origin];
    cast.lemma_published(o, f.hub, seed, published_at, b);
    let w = cast.published(o, f.hub, seed, published_at).0;
    let g = Fleet { engines: f.engines.insert(cast.origin, w.engine), hub: w.net.1 };
    let events = w.net.1.inboxes[b].events;
    let before = f.hub.inboxes[b].events;
    let from = before.len() as int;
    assert forall|i: int| 0 <= i < from implies !laws::concerns(#[trigger] events[i], cast.id) by {
        assert(before == events.subrange(0, from));
        assert(before[i] == events[i]);
    }
    assert(events.skip(0) =~= events);
    assert(events =~= events.subrange(0, events.len() as int));
    assert(cast.stands(g, b, start, events, from, 0));
    cast.lemma_played(g, b, start, events, from, turns, seed);
    let got = laws::tally(g.played(turns).engines[b].delivered, cast.id);
    assert(got =~= Seq::<Seq<u8>>::empty() || got == seq![cast.payload]);
}

impl Cast {
    /// The origin has published, and all that it sends for the session goes
    /// through at once to whoever is in `peers`.
    pub open spec fn live(self, w: NodeWorld, peers: Set<PeerId>) -> bool {
        &&& self.unhindered(w, peers)
        &&& peers.finite()
        &&& self.word().len() <= u32::MAX
        &&& w.engine.owed.len() == 0
        &&& w.engine.due == Map::<(Seq<char>, Seq<char>, u64), Seq<u8>>::empty()
        &&& w.engine.channels.contains_key(self.id.0)
        &&& w.engine.session(self.id) matches Some(s) && {
            &&& self.serves(s.strategy, w.engine.channels[self.id.0].subscribers)
            &&& s.strategy.next_handle + self.word().len() * peers.len() < u64::MAX
        }
    }

    /// Draining a live session.
    proof fn lemma_drain_live(self, w: NodeWorld, peers: Set<PeerId>, b: PeerId, anew: bool)
        requires
            self.live(w, peers),
            w.engine.channels[self.id.0].subscribers == peers,
            peers.contains(b),
            b != self.origin,
            anew == !w.engine.opened_to(self.id).contains(b),
        ensures
            ({
                let (w1, r) = Node::drain::<MemoryNetEndpoint>(w, self.id);
                let from = w.net.1.inboxes[b].events.len() as int;
                let m = w.engine.session(self.id)->Some_0.strategy;
                &&& r == Ok::<(), NetError>(())
                &&& self.tidy(w1, peers, b, from, anew)
                &&& forall|i: u32|
                    i < self.word().len() && !settled(m, b).contains(i) ==> #[trigger] self.brought(
                        fresh(w1, b, from),
                        i,
                    )
            }),
    {
        let id = self.id;
        let from = w.net.1.inboxes[b].events.len() as int;
        let m = w.engine.session(id)->Some_0.strategy;
        let n = self.word().len();
        let list = order::ascending(peers);
        order::lemma_ascending(peers);
        list.unique_seq_to_set();
        assert(EngineView { owed: Seq::empty(), ..w.engine } =~= w.engine);
        assert(Node::caught_up::<MemoryNetEndpoint>(w) == w);
        lemma_nothing_due(w, id, list);
        let known = settled(m, b);
        lemma_missing(known, n);
        let lack = missing(known, n);
        assert(lack * list.len() <= n * list.len()) by (nonlinear_arith)
            requires
                lack <= n,
        ;
        assert(fresh(w, b, from) =~= Seq::<NetEventView>::empty());
        assert(self.tidy(w, peers, b, from, anew));
        self.lemma_drained(w, peers, b, from, anew, known, RsStrategy::backlog(m) + 1);
    }

    /// The chunk of flight `k`, to `b`, is in the transport as `token`, and `b`
    /// is not believed to hold its shard.
    pub open spec fn sending(self, e: NodeView, b: PeerId, token: u64, k: int) -> bool {
        &&& e.pending.contains_key((self.id.0, self.id.1, token))
        &&& e.opened_to(self.id).contains(b)
        &&& e.session(self.id) matches Some(s) && {
            &&& s.strategy.valid()
            &&& 0 <= k < s.strategy.flights.len()
            &&& s.strategy.flights[k].handle == token
            &&& s.strategy.flights[k].peer == b
            &&& !s.strategy.planner.plan(b).has(s.strategy.flights[k].idx)
        }
    }
}

/// A chunk that did not reach a subscriber is sent to it again, as soon as
/// its failure is reported.
pub proof fn law_failed_chunk_is_sent_again(
    cast: Cast,
    w: NodeWorld,
    b: PeerId,
    token: u64,
    k: int,
    now: Nanos,
    reading: u32,
)
    requires
        cast.live(w, w.engine.channels[cast.id.0].subscribers),
        w.engine.channels[cast.id.0].subscribers.contains(b),
        b != cast.origin,
        cast.sending(w.engine, b, token, k),
    ensures
        ({
            let failed = NetEventView::ChunkSendResult {
                peer: b,
                channel: cast.id.0,
                message_id: cast.id.1,
                token,
                ok: false,
            };
            let before = w.net.1.inboxes[b].events.len() as int;
            let after = Node::handled::<MemoryNetEndpoint>(w, failed, now, reading).net.1.inboxes[b].events;
            let idx = w.engine.session(cast.id)->Some_0.strategy.flights[k].idx;
            before <= after.len() && cast.brought(after.skip(before), idx)
        }),
{
    let id = cast.id;
    assert((id.0, id.1) == id);
    let peers = w.engine.channels[id.0].subscribers;
    let s = w.engine.session(id)->Some_0;
    let m = s.strategy;
    let e0 = EngineView { pending: w.engine.pending.remove((id.0, id.1, token)), ..w.engine };
    assert(e0.session(id) == Some(s));
    let e1 = Node::reported(e0, id, b, token, false);
    let w1 = World { engine: e1, ..w };
    rs_laws::lemma_flight(m, b, token, 0);
    assert(m.flights[k].handle == token);
    let i = m.flight(b, token, 0)->0;
    assert(i == k) by {
        if i < k {
            assert(m.flights[i].handle != m.flights[k].handle);
        }
        if k < i {
            assert(m.flights[k].handle != m.flights[i].handle);
        }
    }
    let m1 = m.reported(b, token, false);
    assert(e1.session(id) == Some(Session::<RsStrategy>::reported(s, b, token, false)));
    assert(e1.opened_to(id) == w.engine.opened_to(id));
    assert(cast.live(w1, peers));
    cast.lemma_drain_live(w1, peers, b, false);
    let idx = m.flights[k].idx;
    assert(!settled(m1, b).contains(idx));
    let w2 = Node::drain::<MemoryNetEndpoint>(w1, id).0;
    assert(cast.brought(fresh(w2, b, w.net.1.inboxes[b].events.len() as int), idx));
}

/// The event makes a peer a subscriber of a channel and of no other: it
/// subscribes, or introduces itself with that channel.
pub open spec fn joins(event: NetEventView, b: PeerId, channel: Seq<char>) -> bool {
    match event {
        NetEventView::Subscribe { peer, channel: c } => peer == b && c == channel,
        NetEventView::Handshake { peer, version, channels, .. } => peer == b && version == 1 && channels
            == seq![channel],
        _ => false,
    }
}

impl Cast {
    /// `b` is about to be a subscriber of the origin, which serves no session
    /// on the channel but the one, and has sent it nothing of that.
    pub open spec fn welcomes(self, w: NodeWorld, b: PeerId) -> bool {
        let c = w.engine.channels[self.id.0];
        &&& self.live(w, c.subscribers.insert(b))
        &&& !c.subscribers.contains(b)
        &&& c.sessions.dom() == set![self.id.1]
        &&& !w.engine.opened_to(self.id).contains(b)
        &&& forall|i: u32| !#[trigger] settled(c.sessions[self.id.1].strategy, b).contains(i)
    }

    proof fn lemma_joins(self, w: NodeWorld, b: PeerId, event: NetEventView, now: Nanos, reading: u32)
        requires
            self.welcomes(w, b),
            joins(event, b, self.id.0),
            b != self.origin,
        ensures
            ({
                let w1 = Node::handled::<MemoryNetEndpoint>(w, event, now, reading);
                let before = w.net.1.inboxes[b].events;
                let events = w1.net.1.inboxes[b].events.skip(before.len() as int);
                &&& w1.net.1.inboxes.contains_key(b)
                &&& before.is_prefix_of(w1.net.1.inboxes[b].events)
                &&& self.word().len() > 0 ==> self.streams(events)
                &&& forall|i: u32| i < self.word().len() ==> #[trigger] self.brought(events, i)
            }),
    {
        let id = self.id;
        assert((id.0, id.1) == id);
        let x = QueueKeeps { peer: b, ahead: w.net.1.inboxes[b].events };
        assert(x.ahead =~= x.ahead.subrange(0, x.ahead.len() as int));
        assert(w.engine.channels[id.0].subscribers.insert(b).contains(b));
        watch::lemma_handled::<RsStrategy, RsRelayFactory, MemoryNetEndpoint, QueueKeeps>(
            x,
            w,
            event,
            now,
            reading,
        );
        let e0 = match event {
            NetEventView::Handshake { .. } => EngineView {
                connected: w.engine.connected.insert(b),
                ..w.engine
            },
            _ => w.engine,
        };
        let c = w.engine.channels[id.0];
        let peers = c.subscribers.insert(b);
        let s = c.sessions[id.1];
        let e1 = Node::subscribed(e0, id.0, b);
        let w1 = World { engine: e1, ..w };
        let s1 = Session::<RsStrategy>::attached(s, b);
        assert(e1.session(id) == Some(s1));
        assert(e1.opened_to(id) == w.engine.opened_to(id));
        assert(self.live(w1, peers));
        assert(e1.channels[id.0].sessions.dom() =~= set![id.1]);
        order::lemma_alphabetical_one(id.1);
        let messages = seq![id.1];
        assert(EngineView { owed: Seq::empty(), ..e1 } =~= e1);
        assert(Node::caught_up::<MemoryNetEndpoint>(w1) == w1);
        self.lemma_drain_live(w1, peers, b, true);
        let (w2, r) = Node::drain::<MemoryNetEndpoint>(w1, id);
        assert(messages.drop_first() =~= Seq::<Seq<char>>::empty());
        assert(messages[0] == id.1);
        reveal_with_fuel(Engine::<_, _>::drained_all, 2);
        assert(Node::drain_channel_of::<MemoryNetEndpoint>(w1, id.0).0 == w2);
        let after = Node::handled::<MemoryNetEndpoint>(w, event, now, reading);
        assert(after == w2) by {
            if event is Handshake {
                let channels = seq![id.0];
                assert(channels.drop_first() =~= Seq::<Seq<char>>::empty());
                assert(channels[0] == id.0);
                reveal_with_fuel(Engine::<_, _>::joined, 2);
            }
        }
        let from = x.ahead.len() as int;
        let m1 = s1.strategy;
        assert forall|i: u32| i < self.word().len() implies #[trigger] self.brought(fresh(w2, b, from), i) by {
            assert(!settled(s.strategy, b).contains(i));
            assert(!settled(m1, b).contains(i));
        }
        if self.word().len() > 0 {
            assert(self.brought(fresh(w2, b, from), 0));
        }
    }
}

/// A peer that subscribes after a payload was published gets the session
/// opened and every shard of it.
pub proof fn law_late_subscriber_gets_every_shard(
    cast: Cast,
    w: NodeWorld,
    b: PeerId,
    event: NetEventView,
    now: Nanos,
    reading: u32,
    i: u32,
)
    requires
        cast.welcomes(w, b),
        joins(event, b, cast.id.0),
        b != cast.origin,
        i < cast.word().len(),
    ensures
        ({
            let before = w.net.1.inboxes[b].events.len() as int;
            let after = Node::handled::<MemoryNetEndpoint>(w, event, now, reading).net.1.inboxes[b].events;
            &&& before < after.len()
            &&& after[before] == cast.opening()
            &&& cast.brought(after.skip(before), i)
        }),
{
    cast.lemma_joins(w, b, event, now, reading);
    let before = w.net.1.inboxes[b].events.len() as int;
    let after = Node::handled::<MemoryNetEndpoint>(w, event, now, reading).net.1.inboxes[b].events;
    assert(after.skip(before)[0] == after[before]);
}

/// A published payload reaches a peer that subscribes later, too, once: the
/// origin takes the event by which it subscribes, and however the engines
/// take their turns after that, it delivers nothing else for the message,
/// never twice, and has delivered as soon as it has taken what was in its
/// queue.
pub proof fn law_late_subscriber_delivers_once(
    cast: Cast,
    f: Fleet,
    seed: u64,
    t: Turn,
    b: PeerId,
    start: Nanos,
    turns: Seq<Turn>,
)
    requires
        cast.fits(seed),
        f.engines.contains_key(cast.origin),
        t.peer == cast.origin,
        f.waiting(cast.origin) matches Some(event) && joins(event, b, cast.id.0),
        cast.welcomes(f.at(cast.origin), b),
        b != cast.origin,
        f.engines.contains_key(b),
        cast.awaits(f.engines[b]),
        forall|i: int|
            0 <= i < f.hub.inboxes[b].events.len() ==> !laws::concerns(
                #[trigger] f.hub.inboxes[b].events[i],
                cast.id,
            ),
        timely(turns, b, start, f.engines[b]),
        f.turned(t).ran(turns),
    ensures
        ({
            let g = f.turned(t);
            let got = laws::tally(g.played(turns).engines[b].delivered, cast.id);
            &&& got == Seq::<Seq<u8>>::empty() || got == seq![cast.payload]
            &&& turns_of(turns, b) >= g.hub.inboxes[b].events.len() ==> got == seq![cast.payload]
        }),
{
    let w = f.at(cast.origin);
    let event = f.waiting(cast.origin)->Some_0;
    cast.lemma_joins(w, b, event, t.now, t.reading);
    let g = f.turned(t);
    let events = g.hub.inboxes[b].events;
    let before = f.hub.inboxes[b].events;
    assert(w.net.1.inboxes[b].events == before);
    let from = before.len() as int;
    assert forall|i: int| 0 <= i < from implies !laws::concerns(#[trigger] events[i], cast.id) by {
        assert(before == events.subrange(0, from));
        assert(before[i] == events[i]);
    }
    assert(events.skip(0) =~= events);
    assert(events =~= events.subrange(0, events.len() as int));
    assert(cast.stands(g, b, start, events, from, 0));
    cast.lemma_played(g, b, start, events, from, turns, seed);
    let got = laws::tally(g.played(turns).engines[b].delivered, cast.id);
    assert(got =~= Seq::<Seq<u8>>::empty() || got == seq![cast.payload]);
}

} // verus!
