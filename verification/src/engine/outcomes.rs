//! What the outcome of a send tells a session of its peer.

use vstd::prelude::*;

use crate::channel::StrategyFactory;
use crate::engine::laws;
use crate::engine::model::{EngineView, SessionId, World};
use crate::engine::{Engine, Nanos};
use crate::order;
use crate::runtime::{Net, NetEventView};
use crate::session::{Session, SessionView};
use crate::strategy::bitmap;
use crate::strategy::dispatch::DispatchView;
use crate::strategy::rs;
use crate::strategy::rs::state::{RsStrategy, RsView};
use crate::strategy::{PeerId, Strategy};

verus! {

/// The shards that a session believes a peer to hold, if it exists and knows
/// of any.
pub open spec fn belief<F>(e: EngineView<RsView, F>, id: SessionId, p: PeerId) -> Option<Seq<bool>> {
    match e.session(id) {
        Some(s) => s.strategy.planner.plan(p).havelist,
        None => None,
    }
}

/// A session exists and believes that a peer holds a shard.
pub open spec fn believes<F>(e: EngineView<RsView, F>, id: SessionId, p: PeerId, idx: u32) -> bool {
    belief(e, id, p) matches Some(bits) && idx < bits.len() && bits[idx as int]
}

/// What sessions believe is as it was.
spec fn unconvinced<F>(a: EngineView<RsView, F>, b: EngineView<RsView, F>) -> bool {
    forall|id: SessionId, p: PeerId| #[trigger] belief(b, id, p) == belief(a, id, p)
}

proof fn lemma_same_channels<F>(a: EngineView<RsView, F>, b: EngineView<RsView, F>)
    requires
        a.channels == b.channels,
    ensures
        unconvinced(a, b),
{
    assert forall|id: SessionId, p: PeerId| #[trigger] belief(b, id, p) == belief(a, id, p) by {
        assert(a.session(id) == b.session(id));
    }
}

proof fn lemma_one_session<F>(e: EngineView<RsView, F>, id: SessionId, m: RsView)
    requires
        e.session(id) is Some,
        forall|p: PeerId| #[trigger]
            m.planner.plan(p).havelist == e.session(id)->Some_0.strategy.planner.plan(p).havelist,
    ensures
        ({
            let s = e.session(id)->Some_0;
            unconvinced(e, e.with_session(id, SessionView { strategy: m, ..s }))
        }),
{
    let s = e.session(id)->Some_0;
    let b = e.with_session(id, SessionView { strategy: m, ..s });
    assert forall|i: SessionId, p: PeerId| #[trigger] belief(b, i, p) == belief(e, i, p) by {
        if i.0 == id.0 && i.1 == id.1 {
            assert(i == id);
            assert(m.planner.plan(p).havelist == s.strategy.planner.plan(p).havelist);
        } else {
            assert(b.session(i) == e.session(i));
        }
    }
}

proof fn lemma_routing<F, N>(
    w: World<RsView, F::Model, N::Model>,
    id: SessionId,
    peers: Seq<PeerId>,
    payload: Seq<u8>,
) where F: StrategyFactory<RsStrategy>, N: Net
    ensures
        Engine::<RsStrategy, F>::routing_sent::<N>(w, id, peers, payload).0.engine.channels
            == w.engine.channels,
    decreases peers.len(),
{
    if peers.len() > 0 {
        let w1 = Engine::<RsStrategy, F>::update_sent::<N>(w, id, peers[0], payload).0;
        lemma_routing::<F, N>(w1, id, peers.drop_first(), payload);
    }
}

proof fn lemma_due<F, N>(w: World<RsView, F::Model, N::Model>, id: SessionId, peers: Seq<PeerId>) where
    F: StrategyFactory<RsStrategy>,
    N: Net,

    ensures
        Engine::<RsStrategy, F>::due_sent::<N>(w, id, peers).0.engine.channels == w.engine.channels,
    decreases peers.len(),
{
    if peers.len() > 0 {
        let key = (id.0, id.1, peers[0]);
        let w1 = if w.engine.due.contains_key(key) {
            Engine::<RsStrategy, F>::update_sent::<N>(w, id, peers[0], w.engine.due[key]).0
        } else {
            w
        };
        lemma_due::<F, N>(w1, id, peers.drop_first());
    }
}

proof fn lemma_failed<F>(
    e: EngineView<RsView, F::Model>,
    id: SessionId,
    peer: PeerId,
    handle: u64,
) where F: StrategyFactory<RsStrategy>
    ensures
        unconvinced(e, Engine::<RsStrategy, F>::reported(e, id, peer, handle, false)),
{
    if let Some(s) = e.session(id) {
        let m = s.strategy.reported(peer, handle, false);
        assert forall|p: PeerId| #[trigger]
            m.planner.plan(p).havelist == s.strategy.planner.plan(p).havelist by {
        }
        lemma_one_session(e, id, m);
    }
}

proof fn lemma_refunded<F>(
    e: EngineView<RsView, F::Model>,
    id: SessionId,
    ds: Seq<DispatchView<u32>>,
) where F: StrategyFactory<RsStrategy>
    ensures
        unconvinced(e, Engine::<RsStrategy, F>::refunded(e, id, ds)),
    decreases ds.len(),
{
    if ds.len() > 0 {
        lemma_failed::<F>(e, id, ds[0].peer, ds[0].handle);
        let e1 = Engine::<RsStrategy, F>::reported(e, id, ds[0].peer, ds[0].handle, false);
        lemma_refunded::<F>(e1, id, ds.drop_first());
        let e2 = Engine::<RsStrategy, F>::refunded(e1, id, ds.drop_first());
        assert forall|i: SessionId, p: PeerId| #[trigger] belief(e2, i, p) == belief(e, i, p) by {
            assert(belief(e1, i, p) == belief(e, i, p));
        }
    }
}

proof fn lemma_chunks<F, N>(
    w: World<RsView, F::Model, N::Model>,
    id: SessionId,
    ds: Seq<DispatchView<u32>>,
    stalled: bool,
) where F: StrategyFactory<RsStrategy>, N: Net
    ensures
        unconvinced(
            w.engine,
            Engine::<RsStrategy, F>::chunks_sent::<N>(w, id, ds, stalled).0.engine,
        ),
    decreases ds.len(),
{
    if ds.len() > 0 {
        let (w1, r) = Engine::<RsStrategy, F>::ensured::<N>(w, id, ds[0].peer);
        lemma_same_channels(w.engine, w1.engine);
        let last = Engine::<RsStrategy, F>::chunks_sent::<N>(w, id, ds, stalled).0.engine;
        let e2 = if r is Ok {
            let (w2, refunded) = Engine::<RsStrategy, F>::chunk_sent::<N>(w1, id, ds[0]);
            lemma_failed::<F>(w1.engine, id, ds[0].peer, ds[0].handle);
            if !refunded {
                lemma_same_channels(w1.engine, w2.engine);
            }
            lemma_chunks::<F, N>(w2, id, ds.drop_first(), stalled || refunded);
            w2.engine
        } else {
            lemma_refunded::<F>(w1.engine, id, ds);
            w1.engine
        };
        assert forall|i: SessionId, p: PeerId| #[trigger] belief(last, i, p) == belief(w.engine, i, p) by {
            assert(belief(w1.engine, i, p) == belief(w.engine, i, p));
            assert(belief(e2, i, p) == belief(w1.engine, i, p));
        }
    }
}

proof fn lemma_work<F, N>(
    w: World<RsView, F::Model, N::Model>,
    id: SessionId,
    routing: Option<Seq<bool>>,
    ds: Seq<DispatchView<u32>>,
) where F: StrategyFactory<RsStrategy>, N: Net
    ensures
        unconvinced(
            w.engine,
            Engine::<RsStrategy, F>::work_sent::<N>(w, id, routing, ds).0.engine,
        ),
{
    let w1 = match routing {
        Some(bits) => {
            let peers = order::ascending(w.engine.channels[id.0].subscribers);
            lemma_routing::<F, N>(w, id, peers, bitmap::packed(bits));
            Engine::<RsStrategy, F>::routing_sent::<N>(w, id, peers, bitmap::packed(bits)).0
        },
        None => w,
    };
    lemma_same_channels(w.engine, w1.engine);
    lemma_refunded::<F>(w1.engine, id, ds);
    lemma_chunks::<F, N>(w1, id, ds, false);
    let last = Engine::<RsStrategy, F>::work_sent::<N>(w, id, routing, ds).0.engine;
    assert forall|i: SessionId, p: PeerId| #[trigger] belief(last, i, p) == belief(w.engine, i, p) by {
        assert(belief(w1.engine, i, p) == belief(w.engine, i, p));
    }
}

proof fn lemma_planned(m: RsView, peers: Seq<PeerId>)
    ensures
        forall|p: PeerId| #[trigger]
            m.dispatched_all(peers).0.planner.plan(p).havelist == m.planner.plan(p).havelist,
    decreases peers.len(),
{
    if peers.len() > 0 {
        lemma_planned(m, peers.drop_last());
        let m1 = m.dispatched_all(peers.drop_last()).0;
        assert forall|p: PeerId| #[trigger]
            m.dispatched_all(peers).0.planner.plan(p).havelist == m.planner.plan(p).havelist by {
            assert(m1.planner.plan(p).havelist == m.planner.plan(p).havelist);
        }
    }
}

proof fn lemma_drained<F, N>(w: World<RsView, F::Model, N::Model>, id: SessionId, rounds: nat) where
    F: StrategyFactory<RsStrategy>,
    N: Net,

    ensures
        unconvinced(w.engine, Engine::<RsStrategy, F>::drained::<N>(w, id, rounds).0.engine),
    decreases rounds,
{
    if rounds > 0 {
        if let Some(s) = w.engine.session(id) {
            let (s1, routing, ds) = Session::<RsStrategy>::polled(s);
            let w1 = World { engine: w.engine.with_session(id, s1), ..w };
            let m1 = s.strategy.polled_routing(false).0;
            lemma_planned(m1, order::ascending(m1.peers));
            assert forall|p: PeerId| #[trigger]
                s1.strategy.planner.plan(p).havelist == s.strategy.planner.plan(p).havelist by {
            }
            lemma_one_session(w.engine, id, s1.strategy);
            let last = Engine::<RsStrategy, F>::drained::<N>(w, id, rounds).0.engine;
            if !(routing is None && ds.len() == 0) {
                lemma_work::<F, N>(w1, id, routing, ds);
                let w2 = Engine::<RsStrategy, F>::work_sent::<N>(w1, id, routing, ds).0;
                lemma_drained::<F, N>(w2, id, (rounds - 1) as nat);
                assert forall|i: SessionId, p: PeerId| #[trigger] belief(last, i, p) == belief(
                    w.engine,
                    i,
                    p,
                ) by {
                    assert(belief(w1.engine, i, p) == belief(w.engine, i, p));
                    assert(belief(w2.engine, i, p) == belief(w1.engine, i, p));
                }
            }
        }
    }
}

/// Sending work tells a session nothing of what its peers hold.
pub proof fn law_sending_convinces_nobody<F, N>(
    w: World<RsView, F::Model, N::Model>,
    id: SessionId,
    other: SessionId,
    p: PeerId,
) where F: StrategyFactory<RsStrategy>, N: Net
    ensures
        belief(Engine::<RsStrategy, F>::drain::<N>(w, id).0.engine, other, p) == belief(
            w.engine,
            other,
            p,
        ),
{
    if let Some(s) = w.engine.session(id) {
        let peers = order::ascending(w.engine.channels[id.0].subscribers);
        let w0 = Engine::<RsStrategy, F>::caught_up::<N>(w);
        let w1 = Engine::<RsStrategy, F>::due_sent::<N>(w0, id, peers).0;
        laws::lemma_caught_up::<RsStrategy, F, N>(w);
        lemma_due::<F, N>(w0, id, peers);
        lemma_same_channels(w.engine, w1.engine);
        lemma_drained::<F, N>(w1, id, RsStrategy::backlog(s.strategy) + 1);
        let last = Engine::<RsStrategy, F>::drain::<N>(w, id).0.engine;
        assert(belief(w1.engine, other, p) == belief(w.engine, other, p));
        assert(belief(last, other, p) == belief(w1.engine, other, p));
    }
}

/// The outcome of a chunk in the transport decides what is believed: a peer
/// that a chunk reached is believed to hold its shard, one that it did not
/// reach is not on that account. Nothing else is believed of anyone, whatever
/// is sent next.
pub proof fn law_outcome_decides_belief<F, N>(
    w: World<RsView, F::Model, N::Model>,
    id: SessionId,
    peer: PeerId,
    token: u64,
    ok: bool,
    k: int,
    now: Nanos,
    reading: u32,
    other: PeerId,
    j: u32,
) where F: StrategyFactory<RsStrategy>, N: Net
    requires
        w.engine.pending.contains_key((id.0, id.1, token)),
        w.engine.session(id) matches Some(s) && {
            &&& s.strategy.valid()
            &&& 0 <= k < s.strategy.flights.len()
            &&& s.strategy.flights[k].handle == token
            &&& s.strategy.flights[k].peer == peer
        },
        belief(w.engine, id, peer) matches Some(bits) ==> bits.len() == w.engine.session(
            id,
        )->Some_0.strategy.chunks.len(),
    ensures
        ({
            let event = NetEventView::ChunkSendResult {
                peer,
                channel: id.0,
                message_id: id.1,
                token,
                ok,
            };
            let e = Engine::<RsStrategy, F>::handled::<N>(w, event, now, reading).engine;
            let idx = w.engine.session(id)->Some_0.strategy.flights[k].idx;
            &&& ok ==> believes(e, id, peer, idx)
            &&& !ok ==> believes(e, id, peer, idx) == believes(w.engine, id, peer, idx)
            &&& other != peer || j != idx ==> believes(e, id, other, j) == believes(
                w.engine,
                id,
                other,
                j,
            )
        }),
{
    assert((id.0, id.1) == id);
    let key = (id.0, id.1, token);
    let s = w.engine.session(id)->Some_0;
    let m = s.strategy;
    let e0 = EngineView { pending: w.engine.pending.remove(key), ..w.engine };
    assert(e0.session(id) == Some(s));
    let e1 = Engine::<RsStrategy, F>::reported(e0, id, peer, token, ok);
    let w1 = World { engine: e1, ..w };
    rs::laws::lemma_flight(m, peer, token, 0);
    assert(m.flights[k].handle == token);
    let i = m.flight(peer, token, 0)->0;
    assert(i == k) by {
        if i < k {
            assert(m.flights[i].handle != m.flights[k].handle);
        }
        if k < i {
            assert(m.flights[k].handle != m.flights[i].handle);
        }
    }
    law_sending_convinces_nobody::<F, N>(w1, id, id, peer);
    law_sending_convinces_nobody::<F, N>(w1, id, id, other);
    assert(e1.session(id) == Some(Session::<RsStrategy>::reported(s, peer, token, ok)));
}

} // verus!
