//! What a session has to send goes out.

use vstd::prelude::*;

use crate::channel::StrategyFactory;
use crate::engine::conduct;
use crate::engine::laws;
use crate::engine::model::{EngineView, FrameView, SessionId, World};
use crate::engine::{Engine, Nanos};
use crate::order;
use crate::runtime;
use crate::runtime::memory_net;
use crate::runtime::memory_net::{HubView, MemoryNetEndpoint};
use crate::runtime::{Net, NetError, NetEventView, NetSendView};
use crate::session::{Session, SessionState, SessionView};
use crate::strategy::bitmap;
use crate::strategy::dispatch::DispatchView;
use crate::strategy::rs;
use crate::strategy::rs::code;
use crate::strategy::rs::planner;
use crate::strategy::rs::planner::PlannerMode;
use crate::strategy::rs::state::{RsStrategy, RsView};
use crate::strategy::{PeerId, Strategy};

verus! {

/// The peers listen on a hub.
pub open spec fn listen(hub: HubView, peers: Set<PeerId>) -> bool {
    forall|p: PeerId| #[trigger]
        peers.contains(p) ==> hub.inboxes.contains_key(p) && hub.inboxes[p].open
}

/// An event waits for a peer.
pub open spec fn waits(hub: HubView, p: PeerId, e: NetEventView) -> bool {
    hub.inboxes.contains_key(p) && hub.inboxes[p].events.contains(e)
}

/// What waits stays.
spec fn grown(a: HubView, b: HubView) -> bool {
    forall|p: PeerId, e: NetEventView| waits(a, p, e) ==> #[trigger] waits(b, p, e)
}

proof fn lemma_put(hub: HubView, dst: PeerId, event: NetEventView)
    ensures
        grown(hub, HubView { inboxes: memory_net::delivered(hub.inboxes, dst, event), ..hub }),
        hub.inboxes.contains_key(dst) && hub.inboxes[dst].open ==> waits(
            HubView { inboxes: memory_net::delivered(hub.inboxes, dst, event), ..hub },
            dst,
            event,
        ),
{
    let next = HubView { inboxes: memory_net::delivered(hub.inboxes, dst, event), ..hub };
    assert forall|p: PeerId, e: NetEventView| waits(hub, p, e) implies #[trigger] waits(next, p, e) by {
        let q = hub.inboxes[p].events;
        let i = choose|i: int| 0 <= i < q.len() && q[i] == e;
        assert(next.inboxes[p].events[i] == e);
    }
    if hub.inboxes.contains_key(dst) && hub.inboxes[dst].open {
        let q = next.inboxes[dst].events;
        assert(q[q.len() - 1] == event);
    }
}

proof fn lemma_delivered_all(hub: HubView, peers: Set<PeerId>, list: Seq<PeerId>, e: NetEventView)
    requires
        listen(hub, peers),
    ensures
        listen(
            HubView { inboxes: memory_net::delivered_all(hub.inboxes, list, e), ..hub },
            peers,
        ),
        grown(hub, HubView { inboxes: memory_net::delivered_all(hub.inboxes, list, e), ..hub }),
    decreases list.len(),
{
    if list.len() > 0 {
        lemma_put(hub, list[0], e);
        let next = HubView { inboxes: memory_net::delivered(hub.inboxes, list[0], e), ..hub };
        lemma_delivered_all(next, peers, list.drop_first(), e);
    }
}

/// No message stops anyone from listening.
proof fn lemma_sent(hub: HubView, src: PeerId, peers: Set<PeerId>, msg: NetSendView)
    requires
        listen(hub, peers),
    ensures
        listen(hub.sent(src, msg).0, peers),
        grown(hub, hub.sent(src, msg).0),
        runtime::destination_of(msg) matches Some(dst) ==> (hub.sent(src, msg).1 is Ok ==> waits(
            hub.sent(src, msg).0,
            dst,
            runtime::event_of(src, msg),
        )),
{
    let e = runtime::event_of(src, msg);
    let after = hub.sent(src, msg).0;
    if let NetSendView::SessionReconstructed { channel, message_id } = msg {
        let told = memory_net::openers_of(hub.openers, (src, channel, message_id));
        lemma_delivered_all(hub, peers, order::ascending(told), e);
        let mid = HubView {
            inboxes: memory_net::delivered_all(hub.inboxes, order::ascending(told), e),
            ..hub
        };
        assert forall|p: PeerId, x: NetEventView| waits(hub, p, x) implies #[trigger] waits(after, p, x) by {
            assert(waits(mid, p, x));
        }
    } else {
        let dst = runtime::destination_of(msg)->Some_0;
        lemma_put(hub, dst, e);
        let mid = HubView { inboxes: memory_net::delivered(hub.inboxes, dst, e), ..hub };
        if let Some(report) = memory_net::ack(msg) {
            lemma_put(mid, src, report);
            let last = HubView { inboxes: memory_net::delivered(mid.inboxes, src, report), ..hub };
            assert forall|p: PeerId, x: NetEventView| waits(hub, p, x) implies #[trigger] waits(
                after,
                p,
                x,
            ) by {
                assert(waits(mid, p, x));
                assert(waits(last, p, x));
            }
            if hub.sent(src, msg).1 is Ok {
                assert(waits(mid, dst, e));
                assert(waits(last, dst, e));
            }
        } else {
            assert forall|p: PeerId, x: NetEventView| waits(hub, p, x) implies #[trigger] waits(
                after,
                p,
                x,
            ) by {
                assert(waits(mid, p, x));
            }
        }
    }
}

/// A session whose messages go through: its preamble is retained, and the
/// peers listen.
pub open spec fn clear<F>(w: World<RsView, F, (PeerId, HubView)>, id: SessionId, peers: Set<PeerId>) -> bool {
    w.engine.preambles.contains_key(id) && listen(w.net.1, peers)
}

/// Nothing more is owed or due, and the preambles stay.
spec fn beside<F>(a: EngineView<RsView, F>, b: EngineView<RsView, F>) -> bool {
    &&& b.owed == a.owed
    &&& b.preambles == a.preambles
    &&& forall|k: (Seq<char>, Seq<char>, u64)| #[trigger]
        b.due.contains_key(k) ==> a.due.contains_key(k)
}

/// No session but the one has changed, and all take part in the channels who
/// did.
spec fn apart<F>(a: EngineView<RsView, F>, b: EngineView<RsView, F>, id: SessionId) -> bool {
    &&& b.channels.dom() == a.channels.dom()
    &&& forall|c: Seq<char>| #[trigger]
        b.channels.contains_key(c) ==> b.channels[c].subscribers == a.channels[c].subscribers
    &&& forall|other: SessionId| other != id ==> #[trigger] b.session(other) == a.session(other)
}

proof fn lemma_apart<F>(a: EngineView<RsView, F>, id: SessionId, s: SessionView<RsView>)
    requires
        a.session(id) is Some,
    ensures
        apart(a, a.with_session(id, s), id),
{
    let b = a.with_session(id, s);
    assert(b.channels.dom() =~= a.channels.dom());
    assert forall|other: SessionId| other != id implies #[trigger] b.session(other) == a.session(other) by {
        if other.0 == id.0 && other.1 == id.1 {
            assert(other == id);
        }
    }
}

proof fn lemma_frames<F>(
    w: World<RsView, F::Model, (PeerId, HubView)>,
    id: SessionId,
    peers: Set<PeerId>,
    frames: Seq<FrameView>,
) where F: StrategyFactory<RsStrategy>
    requires
        clear(w, id, peers),
    ensures
        clear(Engine::<RsStrategy, F>::frames_sent::<MemoryNetEndpoint>(w, frames), id, peers),
        grown(
            w.net.1,
            Engine::<RsStrategy, F>::frames_sent::<MemoryNetEndpoint>(w, frames).net.1,
        ),
    decreases frames.len(),
{
    if frames.len() > 0 {
        let msg = Engine::<RsStrategy, F>::frame_message(w.engine, frames[0]);
        lemma_sent(w.net.1, w.net.0, peers, msg);
        let w1 = Engine::<RsStrategy, F>::frame_sent::<MemoryNetEndpoint>(w, frames[0]).0;
        lemma_frames::<F>(w1, id, peers, frames.drop_first());
    }
}

proof fn lemma_ensured<F>(
    w: World<RsView, F::Model, (PeerId, HubView)>,
    id: SessionId,
    peers: Set<PeerId>,
    p: PeerId,
) where F: StrategyFactory<RsStrategy>
    requires
        clear(w, id, peers),
        peers.contains(p),
    ensures
        ({
            let (w1, r) = Engine::<RsStrategy, F>::ensured::<MemoryNetEndpoint>(w, id, p);
            &&& r == Ok::<(), NetError>(())
            &&& clear(w1, id, peers)
            &&& beside(w.engine, w1.engine)
            &&& grown(w.net.1, w1.net.1)
            &&& w1.engine.channels == w.engine.channels
        }),
{
    let msg = NetSendView::SessionOpen {
        peer: p,
        channel: id.0,
        message_id: id.1,
        preamble: w.engine.preambles[id],
        initial_update: Seq::empty(),
    };
    lemma_sent(w.net.1, w.net.0, peers, msg);
}

proof fn lemma_update<F>(
    w: World<RsView, F::Model, (PeerId, HubView)>,
    id: SessionId,
    peers: Set<PeerId>,
    p: PeerId,
    payload: Seq<u8>,
) where F: StrategyFactory<RsStrategy>
    requires
        clear(w, id, peers),
        peers.contains(p),
    ensures
        ({
            let (w1, r) = Engine::<RsStrategy, F>::update_sent::<MemoryNetEndpoint>(w, id, p, payload);
            &&& r == Ok::<(), NetError>(())
            &&& w1.net.0 == w.net.0
            &&& waits(
                w1.net.1,
                p,
                NetEventView::RoutingUpdate {
                    peer: w.net.0,
                    channel: id.0,
                    message_id: id.1,
                    payload,
                },
            )
            &&& clear(w1, id, peers)
            &&& beside(w.engine, w1.engine)
            &&& grown(w.net.1, w1.net.1)
            &&& w1.engine.channels == w.engine.channels
        }),
{
    lemma_ensured::<F>(w, id, peers, p);
    let w1 = Engine::<RsStrategy, F>::ensured::<MemoryNetEndpoint>(w, id, p).0;
    let msg = NetSendView::RoutingUpdate { peer: p, channel: id.0, message_id: id.1, payload };
    lemma_sent(w1.net.1, w1.net.0, peers, msg);
}

proof fn lemma_routing<F>(
    w: World<RsView, F::Model, (PeerId, HubView)>,
    id: SessionId,
    peers: Set<PeerId>,
    list: Seq<PeerId>,
    payload: Seq<u8>,
) where F: StrategyFactory<RsStrategy>
    requires
        clear(w, id, peers),
        list.to_set().subset_of(peers),
    ensures
        ({
            let (w1, r) = Engine::<RsStrategy, F>::routing_sent::<MemoryNetEndpoint>(
                w,
                id,
                list,
                payload,
            );
            &&& r == Ok::<(), NetError>(())
            &&& forall|i: int|
                0 <= i < list.len() ==> waits(
                    w1.net.1,
                    #[trigger] list[i],
                    NetEventView::RoutingUpdate {
                        peer: w.net.0,
                        channel: id.0,
                        message_id: id.1,
                        payload,
                    },
                )
            &&& clear(w1, id, peers)
            &&& beside(w.engine, w1.engine)
            &&& grown(w.net.1, w1.net.1)
            &&& w1.engine.channels == w.engine.channels
        }),
    decreases list.len(),
{
    if list.len() > 0 {
        let rest = list.drop_first();
        assert(list.to_set().contains(list[0]));
        lemma_rest(list, peers);
        lemma_update::<F>(w, id, peers, list[0], payload);
        let w1 = Engine::<RsStrategy, F>::update_sent::<MemoryNetEndpoint>(w, id, list[0], payload).0;
        lemma_routing::<F>(w1, id, peers, rest, payload);
        let last = Engine::<RsStrategy, F>::routing_sent::<MemoryNetEndpoint>(w, id, list, payload).0;
        let update = NetEventView::RoutingUpdate {
            peer: w.net.0,
            channel: id.0,
            message_id: id.1,
            payload,
        };
        assert forall|i: int| 0 <= i < list.len() implies waits(last.net.1, #[trigger] list[i], update) by {
            if i > 0 {
                assert(rest[i - 1] == list[i]);
            }
        }
    }
}

proof fn lemma_rest(list: Seq<PeerId>, peers: Set<PeerId>)
    requires
        list.len() > 0,
        list.to_set().subset_of(peers),
    ensures
        list.drop_first().to_set().subset_of(peers),
{
    let rest = list.drop_first();
    assert forall|p: PeerId| rest.to_set().contains(p) implies peers.contains(p) by {
        let i = choose|i: int| 0 <= i < rest.len() && rest[i] == p;
        assert(list[i + 1] == p);
        assert(list.to_set().contains(p));
    }
}

proof fn lemma_due<F>(
    w: World<RsView, F::Model, (PeerId, HubView)>,
    id: SessionId,
    peers: Set<PeerId>,
    list: Seq<PeerId>,
) where F: StrategyFactory<RsStrategy>
    requires
        clear(w, id, peers),
        list.to_set().subset_of(peers),
    ensures
        ({
            let (w1, r) = Engine::<RsStrategy, F>::due_sent::<MemoryNetEndpoint>(w, id, list);
            &&& r == Ok::<(), NetError>(())
            &&& forall|i: int|
                0 <= i < list.len() ==> !w1.engine.due.contains_key((id.0, id.1, #[trigger] list[i]))
            &&& clear(w1, id, peers)
            &&& beside(w.engine, w1.engine)
            &&& grown(w.net.1, w1.net.1)
            &&& w1.engine.channels == w.engine.channels
        }),
    decreases list.len(),
{
    if list.len() > 0 {
        let rest = list.drop_first();
        assert(list.to_set().contains(list[0]));
        lemma_rest(list, peers);
        let key = (id.0, id.1, list[0]);
        let w1 = if w.engine.due.contains_key(key) {
            lemma_update::<F>(w, id, peers, list[0], w.engine.due[key]);
            Engine::<RsStrategy, F>::update_sent::<MemoryNetEndpoint>(
                w,
                id,
                list[0],
                w.engine.due[key],
            ).0
        } else {
            w
        };
        lemma_due::<F>(w1, id, peers, rest);
        let last = Engine::<RsStrategy, F>::due_sent::<MemoryNetEndpoint>(w, id, list).0;
        assert(!w1.engine.due.contains_key(key));
        assert forall|i: int| 0 <= i < list.len() implies !last.engine.due.contains_key(
            (id.0, id.1, #[trigger] list[i]),
        ) by {
            if i > 0 {
                assert(rest[i - 1] == list[i]);
            }
        }
    }
}

/// What the peer of a dispatch sees of it.
pub open spec fn chunk_event(src: PeerId, id: SessionId, d: DispatchView<u32>) -> NetEventView {
    NetEventView::Chunk {
        peer: src,
        channel: id.0,
        message_id: id.1,
        chunk_id: d.chunk_id,
        payload: d.payload,
    }
}

proof fn lemma_chunks<F>(
    w: World<RsView, F::Model, (PeerId, HubView)>,
    id: SessionId,
    peers: Set<PeerId>,
    ds: Seq<DispatchView<u32>>,
) where F: StrategyFactory<RsStrategy>
    requires
        clear(w, id, peers),
        forall|i: int| 0 <= i < ds.len() ==> peers.contains((#[trigger] ds[i]).peer),
    ensures
        ({
            let (w1, r) = Engine::<RsStrategy, F>::chunks_sent::<MemoryNetEndpoint>(w, id, ds, false);
            &&& r == Ok::<bool, NetError>(false)
            &&& forall|i: int|
                0 <= i < ds.len() ==> waits(
                    w1.net.1,
                    (#[trigger] ds[i]).peer,
                    chunk_event(w.net.0, id, ds[i]),
                )
            &&& clear(w1, id, peers)
            &&& beside(w.engine, w1.engine)
            &&& grown(w.net.1, w1.net.1)
            &&& w1.engine.channels == w.engine.channels
        }),
    decreases ds.len(),
{
    if ds.len() > 0 {
        let d = ds[0];
        let rest = ds.drop_first();
        assert(peers.contains(ds[0].peer));
        lemma_ensured::<F>(w, id, peers, d.peer);
        let w1 = Engine::<RsStrategy, F>::ensured::<MemoryNetEndpoint>(w, id, d.peer).0;
        let msg = NetSendView::Chunk {
            peer: d.peer,
            channel: id.0,
            message_id: id.1,
            chunk_id: d.chunk_id,
            payload: d.payload,
            token: d.handle,
        };
        lemma_sent(w1.net.1, w1.net.0, peers, msg);
        let w2 = Engine::<RsStrategy, F>::chunk_sent::<MemoryNetEndpoint>(w1, id, d).0;
        assert forall|i: int| 0 <= i < rest.len() implies peers.contains((#[trigger] rest[i]).peer) by {
            assert(rest[i] == ds[i + 1]);
        }
        lemma_chunks::<F>(w2, id, peers, rest);
        let last = Engine::<RsStrategy, F>::chunks_sent::<MemoryNetEndpoint>(w, id, ds, false).0;
        assert(waits(w2.net.1, d.peer, chunk_event(w.net.0, id, d)));
        assert forall|i: int| 0 <= i < ds.len() implies waits(
            last.net.1,
            (#[trigger] ds[i]).peer,
            chunk_event(w.net.0, id, ds[i]),
        ) by {
            if i > 0 {
                assert(rest[i - 1] == ds[i]);
            }
        }
    }
}

/// Every chunk that is planned for a peer that listens is sent to it as
/// planned, and waits there to be taken.
pub proof fn law_planned_chunks_are_sent<F>(
    w: World<RsView, F::Model, (PeerId, HubView)>,
    id: SessionId,
    peers: Set<PeerId>,
    ds: Seq<DispatchView<u32>>,
    i: int,
) where F: StrategyFactory<RsStrategy>
    requires
        clear(w, id, peers),
        forall|k: int| 0 <= k < ds.len() ==> peers.contains((#[trigger] ds[k]).peer),
        0 <= i < ds.len(),
    ensures
        ({
            let (after, r) = Engine::<RsStrategy, F>::work_sent::<MemoryNetEndpoint>(w, id, None, ds);
            &&& r == Ok::<bool, NetError>(false)
            &&& waits(after.net.1, ds[i].peer, chunk_event(w.net.0, id, ds[i]))
        }),
{
    lemma_chunks::<F>(w, id, peers, ds);
}

/// Planning keeps a strategy valid, holding what it holds and serving whom it
/// serves.
proof fn lemma_planned(m: RsView, list: Seq<PeerId>)
    requires
        m.valid(),
    ensures
        ({
            let (m1, ds) = m.dispatched_all(list);
            &&& m1.valid()
            &&& m1.peers == m.peers
            &&& m1.chunks == m.chunks
            &&& m1.planner.mode == m.planner.mode
            &&& forall|i: int| 0 <= i < ds.len() ==> list.contains((#[trigger] ds[i]).peer)
        }),
    decreases list.len(),
{
    if list.len() > 0 {
        let head = list.drop_last();
        lemma_planned(m, head);
        let (m1, ds1) = m.dispatched_all(head);
        let (m2, d) = m1.dispatched(list.last());
        let ds = m.dispatched_all(list).1;
        planner::law_best_is_least_allocated(m1.planner, list.last(), Some(m1.held()));
        assert(list[list.len() - 1] == list.last());
        assert forall|i: int| 0 <= i < ds.len() implies list.contains((#[trigger] ds[i]).peer) by {
            if i < ds1.len() {
                assert(ds[i] == ds1[i]);
                let k = choose|k: int| 0 <= k < head.len() && head[k] == ds1[i].peer;
                assert(list[k] == ds1[i].peer);
            }
        }
    }
}

proof fn lemma_drained<F>(
    w: World<RsView, F::Model, (PeerId, HubView)>,
    id: SessionId,
    peers: Set<PeerId>,
    rounds: nat,
) where F: StrategyFactory<RsStrategy>
    requires
        clear(w, id, peers),
        w.engine.channels.contains_key(id.0),
        w.engine.channels[id.0].subscribers.finite(),
        w.engine.channels[id.0].subscribers.subset_of(peers),
        w.engine.session(id) matches Some(s) && {
            &&& s.strategy.valid()
            &&& s.strategy.peers.finite()
            &&& s.strategy.peers.subset_of(peers)
            &&& rounds > RsStrategy::backlog(s.strategy)
        },
    ensures
        ({
            let (w1, r) = Engine::<RsStrategy, F>::drained::<MemoryNetEndpoint>(w, id, rounds);
            let s = w.engine.session(id)->Some_0;
            &&& r == Ok::<(), NetError>(())
            &&& clear(w1, id, peers)
            &&& beside(w.engine, w1.engine)
            &&& grown(w.net.1, w1.net.1)
            &&& apart(w.engine, w1.engine, id)
            &&& w1.engine.session(id) matches Some(t) && {
                &&& t.strategy.valid()
                &&& t.strategy.peers == s.strategy.peers
                &&& t.strategy.chunks == s.strategy.chunks
                &&& t.strategy.planner.mode == s.strategy.planner.mode
                &&& idle(t.strategy)
            }
        }),
    decreases rounds,
{
    let s = w.engine.session(id)->Some_0;
    let m = s.strategy;
    let (m1, routing) = m.polled_routing(false);
    code::lemma_filled_at_most(m.chunks);
    assert(m1.valid());
    let list = order::ascending(m.peers);
    order::lemma_ascending(m.peers);
    lemma_planned(m1, list);
    let (m2, ds) = m1.dispatched_all(list);
    let s1 = Session::<RsStrategy>::polled(s).0;
    assert(s1.strategy == m2);
    let w1 = World { engine: w.engine.with_session(id, s1), ..w };
    assert(w1.engine.session(id) == Some(s1));
    lemma_apart(w.engine, id, s1);
    RsStrategy::polling_ends(m);
    if routing is None && ds.len() == 0 {
        rs::laws::lemma_idle(m, list);
        assert(m2 == m);
        assert(Engine::<RsStrategy, F>::drained::<MemoryNetEndpoint>(w, id, rounds) == (
            w1,
            Ok::<(), NetError>(()),
        ));
    } else {
        let subscribers = w.engine.channels[id.0].subscribers;
        order::lemma_ascending(subscribers);
        let w2 = match routing {
            Some(bits) => {
                lemma_routing::<F>(w1, id, peers, order::ascending(subscribers), bitmap::packed(bits));
                Engine::<RsStrategy, F>::routing_sent::<MemoryNetEndpoint>(
                    w1,
                    id,
                    order::ascending(subscribers),
                    bitmap::packed(bits),
                ).0
            },
            None => w1,
        };
        assert forall|i: int| 0 <= i < ds.len() implies peers.contains((#[trigger] ds[i]).peer) by {
            assert(list.to_set().contains(ds[i].peer));
        }
        lemma_chunks::<F>(w2, id, peers, ds);
        let w3 = Engine::<RsStrategy, F>::chunks_sent::<MemoryNetEndpoint>(w2, id, ds, false).0;
        assert(Engine::<RsStrategy, F>::work_sent::<MemoryNetEndpoint>(w1, id, routing, ds) == (
            w3,
            Ok::<bool, NetError>(false),
        ));
        assert(w3.engine.session(id) == Some(s1));
        lemma_drained::<F>(w3, id, peers, (rounds - 1) as nat);
        let w4 = Engine::<RsStrategy, F>::drained::<MemoryNetEndpoint>(w3, id, (rounds - 1) as nat).0;
        assert forall|other: SessionId| other != id implies #[trigger] w4.engine.session(other)
            == w.engine.session(other) by {
            assert(w3.engine.session(other) == w1.engine.session(other));
            assert(w1.engine.session(other) == w.engine.session(other));
        }
    }
}

/// A strategy has nothing to send: no routing to announce, and no chunk for
/// any of its peers.
pub open spec fn idle(m: RsView) -> bool {
    &&& m.polled_routing(false).1 is None
    &&& m.dispatched_all(order::ascending(m.peers)).1.len() == 0
}

/// A session that can be drained in full: its messages go through, to all who
/// take part or are subscribed.
pub open spec fn served<F>(
    w: World<RsView, F, (PeerId, HubView)>,
    id: SessionId,
    peers: Set<PeerId>,
) -> bool {
    &&& clear(w, id, peers)
    &&& w.engine.channels.contains_key(id.0)
    &&& w.engine.channels[id.0].subscribers.finite()
    &&& w.engine.channels[id.0].subscribers.subset_of(peers)
    &&& w.engine.session(id) matches Some(s) && {
        &&& s.strategy.valid()
        &&& s.strategy.peers.finite()
        &&& s.strategy.peers.subset_of(peers)
    }
}

/// Draining a session sends all that there is to send, however many polls that
/// takes, where everyone listens. Nothing is due to a subscriber any more, and
/// other sessions are as they were.
pub proof fn law_drain_leaves_no_work<F>(
    w: World<RsView, F::Model, (PeerId, HubView)>,
    id: SessionId,
    peers: Set<PeerId>,
    p: PeerId,
    other: SessionId,
) where F: StrategyFactory<RsStrategy>
    requires
        served(w, id, peers),
        other != id,
    ensures
        ({
            let (after, r) = Engine::<RsStrategy, F>::drain::<MemoryNetEndpoint>(w, id);
            let s = w.engine.session(id)->Some_0;
            &&& r == Ok::<(), NetError>(())
            &&& after.engine.session(id) matches Some(t) && {
                &&& t.strategy.valid()
                &&& t.strategy.peers == s.strategy.peers
                &&& t.strategy.chunks == s.strategy.chunks
                &&& t.strategy.planner.mode == s.strategy.planner.mode
                &&& idle(t.strategy)
            }
            &&& w.engine.channels[id.0].subscribers.contains(p) ==> !after.engine.due.contains_key(
                (id.0, id.1, p),
            )
            &&& after.engine.session(other) == w.engine.session(other)
        }),
{
    lemma_drain::<F>(w, id, peers);
    let after = Engine::<RsStrategy, F>::drain::<MemoryNetEndpoint>(w, id).0;
    assert(after.engine.session(other) == w.engine.session(other));
}

proof fn lemma_drain<F>(
    w: World<RsView, F::Model, (PeerId, HubView)>,
    id: SessionId,
    peers: Set<PeerId>,
) where F: StrategyFactory<RsStrategy>
    requires
        served(w, id, peers),
    ensures
        ({
            let (after, r) = Engine::<RsStrategy, F>::drain::<MemoryNetEndpoint>(w, id);
            let s = w.engine.session(id)->Some_0;
            &&& r == Ok::<(), NetError>(())
            &&& clear(after, id, peers)
            &&& grown(w.net.1, after.net.1)
            &&& after.engine.preambles == w.engine.preambles
            &&& apart(w.engine, after.engine, id)
            &&& after.engine.session(id) matches Some(t) && {
                &&& t.strategy.valid()
                &&& t.strategy.peers == s.strategy.peers
                &&& t.strategy.chunks == s.strategy.chunks
                &&& t.strategy.planner.mode == s.strategy.planner.mode
                &&& idle(t.strategy)
            }
            &&& forall|p: PeerId| #[trigger]
                w.engine.channels[id.0].subscribers.contains(p) ==> !after.engine.due.contains_key(
                    (id.0, id.1, p),
                )
            &&& conduct::all_listen(w.net.1, w.engine.owed.map_values(|f: FrameView| f.peer()))
                ==> after.engine.owed.len() == 0
        }),
{
    let s = w.engine.session(id)->Some_0;
    let subscribers = w.engine.channels[id.0].subscribers;
    let list = order::ascending(subscribers);
    order::lemma_ascending(subscribers);
    let empty = World { engine: EngineView { owed: Seq::empty(), ..w.engine }, ..w };
    lemma_frames::<F>(empty, id, peers, w.engine.owed);
    laws::lemma_caught_up::<RsStrategy, F, MemoryNetEndpoint>(w);
    let w0 = Engine::<RsStrategy, F>::caught_up::<MemoryNetEndpoint>(w);
    if conduct::all_listen(w.net.1, w.engine.owed.map_values(|f: FrameView| f.peer())) {
        conduct::lemma_frames_out::<RsStrategy, F>(empty, w.engine.owed, 0);
    }
    lemma_due::<F>(w0, id, peers, list);
    let w1 = Engine::<RsStrategy, F>::due_sent::<MemoryNetEndpoint>(w0, id, list).0;
    assert(w1.engine.session(id) == Some(s));
    lemma_drained::<F>(w1, id, peers, RsStrategy::backlog(s.strategy) + 1);
    let after = Engine::<RsStrategy, F>::drain::<MemoryNetEndpoint>(w, id).0;
    assert forall|p: PeerId| #[trigger] subscribers.contains(p) implies !after.engine.due.contains_key(
        (id.0, id.1, p),
    ) by {
        assert(list.to_set().contains(p));
        let i = choose|i: int| 0 <= i < list.len() && list[i] == p;
        assert(!w1.engine.due.contains_key((id.0, id.1, list[i])));
    }
    assert forall|other: SessionId| other != id implies #[trigger] after.engine.session(other)
        == w.engine.session(other) by {
        assert(w1.engine.session(other) == w.engine.session(other));
    }
}

/// What a session has to announce reaches every subscriber that listens.
pub proof fn law_announcement_reaches_subscribers<F>(
    w: World<RsView, F::Model, (PeerId, HubView)>,
    id: SessionId,
    peers: Set<PeerId>,
    p: PeerId,
) where F: StrategyFactory<RsStrategy>
    requires
        served(w, id, peers),
        w.engine.channels[id.0].subscribers.contains(p),
        w.engine.session(id)->Some_0.strategy.polled_routing(false).1 is Some,
    ensures
        ({
            let bits = w.engine.session(id)->Some_0.strategy.polled_routing(false).1->Some_0;
            let after = Engine::<RsStrategy, F>::drain::<MemoryNetEndpoint>(w, id).0;
            waits(
                after.net.1,
                p,
                NetEventView::RoutingUpdate {
                    peer: w.net.0,
                    channel: id.0,
                    message_id: id.1,
                    payload: bitmap::packed(bits),
                },
            )
        }),
{
    let s = w.engine.session(id)->Some_0;
    let m = s.strategy;
    let subscribers = w.engine.channels[id.0].subscribers;
    let list = order::ascending(subscribers);
    order::lemma_ascending(subscribers);
    let empty = World { engine: EngineView { owed: Seq::empty(), ..w.engine }, ..w };
    lemma_frames::<F>(empty, id, peers, w.engine.owed);
    lemma_speaker_frames::<F>(empty, w.engine.owed);
    laws::lemma_caught_up::<RsStrategy, F, MemoryNetEndpoint>(w);
    let w0 = Engine::<RsStrategy, F>::caught_up::<MemoryNetEndpoint>(w);
    lemma_due::<F>(w0, id, peers, list);
    lemma_speaker_due::<F>(w0, id, peers, list);
    let w1 = Engine::<RsStrategy, F>::due_sent::<MemoryNetEndpoint>(w0, id, list).0;
    assert(w1.engine.session(id) == Some(s));
    assert(w1.net.0 == w.net.0);
    let rounds = RsStrategy::backlog(m) + 1;
    let (m1, routing) = m.polled_routing(false);
    let bits = routing->Some_0;
    code::lemma_filled_at_most(m.chunks);
    let targets = order::ascending(m.peers);
    order::lemma_ascending(m.peers);
    lemma_planned(m1, targets);
    let (m2, ds) = m1.dispatched_all(targets);
    let s1 = Session::<RsStrategy>::polled(s).0;
    let w2 = World { engine: w1.engine.with_session(id, s1), ..w1 };
    assert(w2.engine.session(id) == Some(s1));
    lemma_apart(w1.engine, id, s1);
    RsStrategy::polling_ends(m);
    lemma_routing::<F>(w2, id, peers, list, bitmap::packed(bits));
    let w3 = Engine::<RsStrategy, F>::routing_sent::<MemoryNetEndpoint>(
        w2,
        id,
        list,
        bitmap::packed(bits),
    ).0;
    assert forall|i: int| 0 <= i < ds.len() implies peers.contains((#[trigger] ds[i]).peer) by {
        assert(targets.to_set().contains(ds[i].peer));
    }
    lemma_chunks::<F>(w3, id, peers, ds);
    let w4 = Engine::<RsStrategy, F>::chunks_sent::<MemoryNetEndpoint>(w3, id, ds, false).0;
    assert(Engine::<RsStrategy, F>::work_sent::<MemoryNetEndpoint>(w2, id, routing, ds) == (
        w4,
        Ok::<bool, NetError>(false),
    ));
    assert(w4.engine.session(id) == Some(s1));
    lemma_drained::<F>(w4, id, peers, (rounds - 1) as nat);
    let w5 = Engine::<RsStrategy, F>::drained::<MemoryNetEndpoint>(w4, id, (rounds - 1) as nat).0;
    let update = NetEventView::RoutingUpdate {
        peer: w.net.0,
        channel: id.0,
        message_id: id.1,
        payload: bitmap::packed(bits),
    };
    assert(list.to_set().contains(p));
    let k = choose|k: int| 0 <= k < list.len() && list[k] == p;
    assert(waits(w3.net.1, list[k], update));
    assert(waits(w4.net.1, p, update));
    assert(waits(w5.net.1, p, update));
    assert(Engine::<RsStrategy, F>::drain::<MemoryNetEndpoint>(w, id).0 == w5);
}

proof fn lemma_speaker_frames<F>(w: World<RsView, F::Model, (PeerId, HubView)>, frames: Seq<FrameView>) where
    F: StrategyFactory<RsStrategy>,

    ensures
        Engine::<RsStrategy, F>::frames_sent::<MemoryNetEndpoint>(w, frames).net.0 == w.net.0,
    decreases frames.len(),
{
    if frames.len() > 0 {
        let w1 = Engine::<RsStrategy, F>::frame_sent::<MemoryNetEndpoint>(w, frames[0]).0;
        lemma_speaker_frames::<F>(w1, frames.drop_first());
    }
}

proof fn lemma_speaker_due<F>(
    w: World<RsView, F::Model, (PeerId, HubView)>,
    id: SessionId,
    peers: Set<PeerId>,
    list: Seq<PeerId>,
) where F: StrategyFactory<RsStrategy>
    requires
        clear(w, id, peers),
        list.to_set().subset_of(peers),
    ensures
        Engine::<RsStrategy, F>::due_sent::<MemoryNetEndpoint>(w, id, list).0.net.0 == w.net.0,
    decreases list.len(),
{
    if list.len() > 0 {
        assert(list.to_set().contains(list[0]));
        lemma_rest(list, peers);
        let key = (id.0, id.1, list[0]);
        let w1 = if w.engine.due.contains_key(key) {
            lemma_update::<F>(w, id, peers, list[0], w.engine.due[key]);
            Engine::<RsStrategy, F>::update_sent::<MemoryNetEndpoint>(
                w,
                id,
                list[0],
                w.engine.due[key],
            ).0
        } else {
            w
        };
        lemma_speaker_due::<F>(w1, id, peers, list.drop_first());
    }
}

/// Draining a session sends the control frames that are owed, where those
/// for whom they are listen: none is owed any more.
pub proof fn law_drain_sends_what_is_owed<F>(
    w: World<RsView, F::Model, (PeerId, HubView)>,
    id: SessionId,
    peers: Set<PeerId>,
) where F: StrategyFactory<RsStrategy>
    requires
        served(w, id, peers),
        conduct::all_listen(w.net.1, w.engine.owed.map_values(|f: FrameView| f.peer())),
    ensures
        Engine::<RsStrategy, F>::drain::<MemoryNetEndpoint>(w, id).0.engine.owed.len() == 0,
{
    lemma_drain::<F>(w, id, peers);
}

proof fn lemma_drained_all<F>(
    w: World<RsView, F::Model, (PeerId, HubView)>,
    channel: Seq<char>,
    messages: Seq<Seq<char>>,
    peers: Set<PeerId>,
    k: int,
) where F: StrategyFactory<RsStrategy>
    requires
        messages.no_duplicates(),
        forall|i: int| 0 <= i < messages.len() ==> served(w, (channel, #[trigger] messages[i]), peers),
        0 <= k < messages.len(),
    ensures
        ({
            let (after, r) = Engine::<RsStrategy, F>::drained_all::<MemoryNetEndpoint>(
                w,
                channel,
                messages,
            );
            &&& r == Ok::<(), NetError>(())
            &&& after.engine.session((channel, messages[k])) matches Some(t) && idle(t.strategy)
        }),
    decreases messages.len(),
{
    let first = (channel, messages[0]);
    let rest = messages.drop_first();
    assert(served(w, (channel, messages[0]), peers));
    lemma_drain::<F>(w, first, peers);
    let w1 = Engine::<RsStrategy, F>::drain::<MemoryNetEndpoint>(w, first).0;
    assert forall|i: int| 0 <= i < rest.len() implies served(w1, (channel, #[trigger] rest[i]), peers) by {
        assert(rest[i] == messages[i + 1]);
        assert(served(w, (channel, messages[i + 1]), peers));
        assert(messages[i + 1] != messages[0]);
        assert(w1.engine.session((channel, rest[i])) == w.engine.session((channel, rest[i])));
    }
    if rest.len() > 0 {
        let next: int = if k > 0 {
            k - 1
        } else {
            0
        };
        lemma_drained_all::<F>(w1, channel, rest, peers, next);
        if k == 0 {
            lemma_others::<F>(w1, channel, rest, peers, first);
        }
    }
}

proof fn lemma_others<F>(
    w: World<RsView, F::Model, (PeerId, HubView)>,
    channel: Seq<char>,
    messages: Seq<Seq<char>>,
    peers: Set<PeerId>,
    other: SessionId,
) where F: StrategyFactory<RsStrategy>
    requires
        messages.no_duplicates(),
        forall|i: int| 0 <= i < messages.len() ==> served(w, (channel, #[trigger] messages[i]), peers),
        forall|i: int| 0 <= i < messages.len() ==> (channel, #[trigger] messages[i]) != other,
    ensures
        Engine::<RsStrategy, F>::drained_all::<MemoryNetEndpoint>(w, channel, messages).0.engine.session(
            other,
        ) == w.engine.session(other),
    decreases messages.len(),
{
    if messages.len() > 0 {
        let first = (channel, messages[0]);
        let rest = messages.drop_first();
        assert(served(w, (channel, messages[0]), peers));
        lemma_drain::<F>(w, first, peers);
        let w1 = Engine::<RsStrategy, F>::drain::<MemoryNetEndpoint>(w, first).0;
        assert forall|i: int| 0 <= i < rest.len() implies served(w1, (channel, #[trigger] rest[i]), peers)
            && (channel, rest[i]) != other by {
            assert(rest[i] == messages[i + 1]);
            assert(served(w, (channel, messages[i + 1]), peers));
            assert(messages[i + 1] != messages[0]);
            assert(w1.engine.session((channel, rest[i])) == w.engine.session((channel, rest[i])));
        }
        lemma_others::<F>(w1, channel, rest, peers, other);
    }
}

/// Draining a channel drains every session on it: none has anything left to
/// send.
pub proof fn law_channel_is_drained_whole<F>(
    w: World<RsView, F::Model, (PeerId, HubView)>,
    channel: Seq<char>,
    peers: Set<PeerId>,
    message_id: Seq<char>,
) where F: StrategyFactory<RsStrategy>
    requires
        w.engine.channels.contains_key(channel),
        w.engine.channels[channel].sessions.dom().finite(),
        w.engine.channels[channel].sessions.contains_key(message_id),
        forall|m: Seq<char>| #[trigger]
            w.engine.channels[channel].sessions.contains_key(m) ==> served(w, (channel, m), peers),
    ensures
        ({
            let (after, r) = Engine::<RsStrategy, F>::drain_channel_of::<MemoryNetEndpoint>(w, channel);
            &&& r == Ok::<(), NetError>(())
            &&& after.engine.session((channel, message_id)) matches Some(t) && idle(t.strategy)
        }),
{
    let names = w.engine.channels[channel].sessions.dom();
    let messages = order::alphabetical(names);
    order::lemma_alphabetical(names);
    laws::lemma_caught_up::<RsStrategy, F, MemoryNetEndpoint>(w);
    let w0 = Engine::<RsStrategy, F>::caught_up::<MemoryNetEndpoint>(w);
    let empty = World { engine: EngineView { owed: Seq::empty(), ..w.engine }, ..w };
    assert forall|i: int| 0 <= i < messages.len() implies served(w0, (channel, #[trigger] messages[i]), peers) by {
        assert(messages.to_set().contains(messages[i]));
        assert(w.engine.channels[channel].sessions.contains_key(messages[i]));
        lemma_frames::<F>(empty, (channel, messages[i]), peers, w.engine.owed);
        assert(w0.engine.session((channel, messages[i])) == w.engine.session((channel, messages[i])));
    }
    assert(messages.to_set().contains(message_id));
    let k = choose|k: int| 0 <= k < messages.len() && messages[k] == message_id;
    lemma_drained_all::<F>(w0, channel, messages, peers, k);
}

/// Whoever takes a chunk passes it on: after that, every peer that takes part
/// in the session is believed to hold each shard that the session holds, or
/// is being sent it, unless a relay has sent that shard as often as its
/// forward multiplier says, or there are no handles left.
pub proof fn law_chunks_are_passed_on<F>(
    w: World<RsView, F::Model, (PeerId, HubView)>,
    id: SessionId,
    peers: Set<PeerId>,
    src: PeerId,
    chunk_id: u32,
    payload: Seq<u8>,
    now: Nanos,
    reading: u32,
    p: PeerId,
    idx: u32,
) where F: StrategyFactory<RsStrategy>
    requires
        clear(w, id, peers),
        !w.engine.tombstoned(id),
        w.engine.channels.contains_key(id.0),
        w.engine.channels[id.0].subscribers.finite(),
        w.engine.channels[id.0].subscribers.subset_of(peers),
        w.engine.session(id) matches Some(s) && {
            &&& s.state == SessionState::Consuming
            &&& s.strategy.valid()
            &&& s.strategy.peers.finite()
            &&& s.strategy.peers.subset_of(peers)
            &&& s.strategy.peers.contains(p)
        },
    ensures
        ({
            let event = NetEventView::Chunk {
                peer: src,
                channel: id.0,
                message_id: id.1,
                chunk_id,
                payload,
            };
            let after = Engine::<RsStrategy, F>::handled::<MemoryNetEndpoint>(w, event, now, reading);
            after.engine.session(id) matches Some(t) && (t.strategy.holds(idx) && t.strategy.next_handle
                < u64::MAX ==> {
                ||| t.strategy.planner.plan(p).has(idx)
                ||| t.strategy.planner.plan(p).in_flight.contains(idx)
                ||| t.strategy.planner.mode matches PlannerMode::Relay { forward_multiplier } && t.strategy.planner.allocation[idx as int] >= forward_multiplier
            })
        }),
{
    assert((id.0, id.1) == id);
    let s = w.engine.session(id)->Some_0;
    let m = s.strategy;
    let (e1, complete) = Engine::<RsStrategy, F>::taken(w.engine, id, chunk_id, payload);
    let w1 = World { engine: e1, ..w };
    let s1 = Session::<RsStrategy>::taken(s, chunk_id, payload).0;
    assert(e1.session(id) == Some(s1));
    let m1 = s1.strategy;
    assert(m1.valid() && m1.peers == m.peers);
    lemma_drain::<F>(w1, id, peers);
    let w2 = Engine::<RsStrategy, F>::drain::<MemoryNetEndpoint>(w1, id).0;
    let t = w2.engine.session(id)->Some_0;
    let list = order::ascending(t.strategy.peers);
    order::lemma_ascending(t.strategy.peers);
    assert(list.to_set().contains(p));
    let k = choose|k: int| 0 <= k < list.len() && list[k] == p;
    if t.strategy.holds(idx) && t.strategy.next_handle < u64::MAX {
        rs::laws::law_poll_serves_every_peer(t.strategy, list, k, idx);
    }
}

} // verus!
