//! What holds of the engine across its operations.

use vstd::prelude::*;

use crate::channel::{Channel, StrategyFactory};
use crate::engine;
use crate::engine::model;
use crate::engine::model::{DeliveredView, EngineView, FrameView, ParkedView, SessionId, World};
use crate::engine::{Engine, Nanos};
use crate::order;
use crate::runtime::{Net, NetError, NetEventView};
use crate::session::{Session, SessionState, SessionView};
use crate::strategy::bitmap;
use crate::strategy::bitmap::BitMap;
use crate::strategy::dispatch::DispatchView;
use crate::strategy::{PeerId, Strategy};

verus! {

/// State of a session, if it exists.
pub open spec fn stage<M, F>(e: EngineView<M, F>, id: SessionId) -> Option<SessionState> {
    match e.session(id) {
        Some(s) => Some(s.state),
        None => None,
    }
}

/// A session exists and holds enough of a payload.
pub open spec fn bears<S: Strategy, F>(
    e: EngineView<S::Model, F>,
    id: SessionId,
    payload: Seq<u8>,
) -> bool {
    e.session(id) matches Some(s) && S::bears(s.strategy, payload)
}

/// What a session holds of its message, if it exists.
pub open spec fn holding<S: Strategy, F>(e: EngineView<S::Model, F>, id: SessionId) -> Option<S::Holding> {
    match e.session(id) {
        Some(s) => Some(S::holding(s.strategy)),
        None => None,
    }
}

/// A complete session delivers the payload of which it holds enough.
pub open spec fn delivers<S: Strategy, F>(
    e: EngineView<S::Model, F>,
    id: SessionId,
    before: Seq<DeliveredView>,
    after: Seq<DeliveredView>,
) -> bool {
    forall|payload: Seq<u8>| #[trigger]
        bears::<S, F>(e, id, payload) && stage(e, id) == Some(SessionState::Decoding) ==> after
            == before.push(DeliveredView { channel_id: id.0, message_id: id.1, payload })
}

/// The session that an event completes, and the engine at that moment: a
/// chunk that comes, or the chunks parked for a session that opens.
pub open spec fn completes<S, F, N>(
    w: World<S::Model, F::Model, N::Model>,
    event: NetEventView,
    now: Nanos,
    reading: u32,
) -> Option<(SessionId, EngineView<S::Model, F::Model>)> where
    S: Strategy<ChunkId = u32, RoutingUpdate = BitMap>,
    F: StrategyFactory<S>,
    N: Net,
 {
    let e = w.engine;
    match event {
        NetEventView::Chunk { channel, message_id, chunk_id, payload, .. } => {
            let id = (channel, message_id);
            let (e1, complete) = Engine::<S, F>::taken(e, id, chunk_id, payload);
            if !e.tombstoned(id) && e.session(id) is Some && complete {
                Some((id, e1))
            } else {
                None
            }
        },
        NetEventView::SessionOpen { channel, message_id, preamble, .. } => {
            let id = (channel, message_id);
            let (c, r) = Channel::<S, F>::opened(e.channels[id.0], id.1, preamble, reading);
            let e1 = EngineView {
                channels: e.channels.insert(id.0, c),
                preambles: e.preambles.insert(id, preamble),
                ..e
            };
            let ready = Engine::<S, F>::drain::<N>(World { engine: e1.created(id, now), ..w }, id).0.engine;
            let (e2, complete) = Engine::<S, F>::taken_all(
                EngineView { parked: ready.parked.remove(id), ..ready },
                id,
                ready.parked[id],
                false,
            );
            if !e.tombstoned(id) && e.channels.contains_key(id.0) && r is Ok
                && ready.parked.contains_key(id) && complete {
                Some((id, e2))
            } else {
                None
            }
        },
        _ => None,
    }
}

/// Sending work changes what sessions have planned, what is in the transport,
/// what is due to it and to whom sessions are open, and nothing else. No session is closed to a
/// peer, and none loses what it holds.
pub open spec fn only_sent<S: Strategy, F>(a: EngineView<S::Model, F>, b: EngineView<S::Model, F>) -> bool {
    &&& b == EngineView {
        channels: b.channels,
        pending: b.pending,
        owed: b.owed,
        due: b.due,
        opened: b.opened,
        ..a
    }
    &&& b.channels.dom() == a.channels.dom()
    &&& forall|id: SessionId| #[trigger] stage(b, id) == stage(a, id)
    &&& forall|id: SessionId, p: PeerId|
        a.opened_to(id).contains(p) ==> #[trigger] b.opened_to(id).contains(p)
    &&& forall|id: SessionId, payload: Seq<u8>|
        bears::<S, F>(a, id, payload) ==> #[trigger] bears::<S, F>(b, id, payload)
    &&& forall|id: SessionId| #[trigger] holding::<S, F>(b, id) == holding::<S, F>(a, id)
}

proof fn lemma_with_session<S: Strategy, F>(e: EngineView<S::Model, F>, id: SessionId, s: SessionView<S::Model>)
    requires
        e.session(id) matches Some(t) && t.state == s.state,
        forall|payload: Seq<u8>|
            S::bears(e.session(id)->Some_0.strategy, payload) ==> #[trigger] S::bears(
                s.strategy,
                payload,
            ),
        S::holding(e.session(id)->Some_0.strategy) == S::holding(s.strategy),
    ensures
        only_sent::<S, F>(e, e.with_session(id, s)),
        e.with_session(id, s).session(id) == Some(s),
{
    let b = e.with_session(id, s);
    assert(b.channels.dom() =~= e.channels.dom());
    assert forall|i: SessionId| #[trigger] stage(b, i) == stage(e, i) by {
        if i.0 == id.0 {
            if i.1 == id.1 {
                assert(i == id);
            }
        }
    }
    assert forall|i: SessionId, p: PeerId| e.opened_to(i).contains(p) implies #[trigger] b.opened_to(
        i,
    ).contains(p) by {
        assert(b.opened_to(i) == e.opened_to(i));
    }
    assert forall|i: SessionId| #[trigger] holding::<S, F>(b, i) == holding::<S, F>(e, i) by {
        if i.0 == id.0 && i.1 == id.1 {
            assert(i == id);
        } else {
            assert(b.session(i) == e.session(i));
        }
    }
    assert forall|i: SessionId, payload: Seq<u8>| bears::<S, F>(e, i, payload) implies #[trigger] bears::<
        S,
        F,
    >(b, i, payload) by {
        if i.0 == id.0 && i.1 == id.1 {
            assert(i == id);
        } else {
            assert(b.session(i) == e.session(i));
        }
    }
}

proof fn lemma_only_sent_trans<S: Strategy, F>(
    a: EngineView<S::Model, F>,
    b: EngineView<S::Model, F>,
    c: EngineView<S::Model, F>,
)
    requires
        only_sent::<S, F>(a, b),
        only_sent::<S, F>(b, c),
    ensures
        only_sent::<S, F>(a, c),
{
    assert forall|id: SessionId, payload: Seq<u8>| bears::<S, F>(a, id, payload) implies #[trigger] bears::<
        S,
        F,
    >(c, id, payload) by {
        assert(bears::<S, F>(b, id, payload));
    }
    assert forall|id: SessionId| #[trigger] stage(c, id) == stage(a, id) by {
        assert(stage(b, id) == stage(a, id));
    }
    assert forall|id: SessionId| #[trigger] holding::<S, F>(c, id) == holding::<S, F>(a, id) by {
        assert(holding::<S, F>(b, id) == holding::<S, F>(a, id));
    }
    assert forall|id: SessionId, p: PeerId| a.opened_to(id).contains(p) implies #[trigger] c.opened_to(
        id,
    ).contains(p) by {
        assert(b.opened_to(id).contains(p));
    }
}

proof fn lemma_ensured<S, F, N>(
    w: World<S::Model, F::Model, N::Model>,
    id: SessionId,
    peer: PeerId,
) where
    S: Strategy<ChunkId = u32, RoutingUpdate = BitMap>,
    F: StrategyFactory<S>,
    N: Net,

    ensures
        only_sent::<S, F::Model>(w.engine, Engine::<S, F>::ensured::<N>(w, id, peer).0.engine),
        Engine::<S, F>::ensured::<N>(w, id, peer).0.engine.channels == w.engine.channels,
{
    let b = Engine::<S, F>::ensured::<N>(w, id, peer).0.engine;
    assert forall|i: SessionId| #[trigger] stage(b, i) == stage(w.engine, i) by {
        assert(b.session(i) == w.engine.session(i));
    }
    assert forall|i: SessionId| #[trigger]
        holding::<S, F::Model>(b, i) == holding::<S, F::Model>(w.engine, i) by {
        assert(b.session(i) == w.engine.session(i));
    }
    assert forall|i: SessionId, payload: Seq<u8>|
        bears::<S, F::Model>(w.engine, i, payload) implies #[trigger] bears::<S, F::Model>(
        b,
        i,
        payload,
    ) by {
        assert(b.session(i) == w.engine.session(i));
    }
    assert forall|i: SessionId, p: PeerId|
        w.engine.opened_to(i).contains(p) implies #[trigger] b.opened_to(i).contains(p) by {
        if i != id {
            assert(b.opened_to(i) == w.engine.opened_to(i));
        }
    }
}

pub(crate) proof fn lemma_ensured_all<S, F, N>(
    w: World<S::Model, F::Model, N::Model>,
    id: SessionId,
    peers: Seq<PeerId>,
) where
    S: Strategy<ChunkId = u32, RoutingUpdate = BitMap>,
    F: StrategyFactory<S>,
    N: Net,

    ensures
        only_sent::<S, F::Model>(w.engine, Engine::<S, F>::ensured_all::<N>(w, id, peers).0.engine),
    decreases peers.len(),
{
    lemma_same::<S, F::Model>(w.engine);
    if peers.len() > 0 {
        lemma_ensured::<S, F, N>(w, id, peers[0]);
        let w1 = Engine::<S, F>::ensured::<N>(w, id, peers[0]).0;
        lemma_ensured_all::<S, F, N>(w1, id, peers.drop_first());
        lemma_only_sent_trans::<S, F::Model>(
            w.engine,
            w1.engine,
            Engine::<S, F>::ensured_all::<N>(w1, id, peers.drop_first()).0.engine,
        );
    }
}

proof fn lemma_same<S: Strategy, F>(e: EngineView<S::Model, F>)
    ensures
        only_sent::<S, F>(e, e),
{
}

/// What stands in the sessions and to whom they are open is all that
/// [`only_sent`] watches.
proof fn lemma_bookkeeping<S: Strategy, F>(a: EngineView<S::Model, F>, b: EngineView<S::Model, F>)
    requires
        b == (EngineView { pending: b.pending, owed: b.owed, due: b.due, ..a }),
    ensures
        only_sent::<S, F>(a, b),
{
    assert forall|i: SessionId| #[trigger] stage(b, i) == stage(a, i) by {
        assert(b.session(i) == a.session(i));
    }
    assert forall|i: SessionId| #[trigger] holding::<S, F>(b, i) == holding::<S, F>(a, i) by {
        assert(b.session(i) == a.session(i));
    }
    assert forall|i: SessionId, payload: Seq<u8>| bears::<S, F>(a, i, payload) implies #[trigger] bears::<
        S,
        F,
    >(b, i, payload) by {
        assert(b.session(i) == a.session(i));
    }
    assert forall|i: SessionId, p: PeerId| a.opened_to(i).contains(p) implies #[trigger] b.opened_to(
        i,
    ).contains(p) by {
        assert(b.opened_to(i) == a.opened_to(i));
    }
}

proof fn lemma_frames_sent<S, F, N>(w: World<S::Model, F::Model, N::Model>, frames: Seq<FrameView>) where
    S: Strategy<ChunkId = u32, RoutingUpdate = BitMap>,
    F: StrategyFactory<S>,
    N: Net,

    ensures
        only_sent::<S, F::Model>(w.engine, Engine::<S, F>::frames_sent::<N>(w, frames).engine),
        ({
            let b = Engine::<S, F>::frames_sent::<N>(w, frames).engine;
            b == EngineView { owed: b.owed, ..w.engine }
        }),
    decreases frames.len(),
{
    lemma_same::<S, F::Model>(w.engine);
    if frames.len() > 0 {
        let w1 = Engine::<S, F>::frame_sent::<N>(w, frames[0]).0;
        lemma_bookkeeping::<S, F::Model>(w.engine, w1.engine);
        lemma_frames_sent::<S, F, N>(w1, frames.drop_first());
        lemma_only_sent_trans::<S, F::Model>(
            w.engine,
            w1.engine,
            Engine::<S, F>::frames_sent::<N>(w1, frames.drop_first()).engine,
        );
    }
}

/// Sending control frames again changes which are owed and nothing else.
pub(crate) proof fn lemma_caught_up<S, F, N>(w: World<S::Model, F::Model, N::Model>) where
    S: Strategy<ChunkId = u32, RoutingUpdate = BitMap>,
    F: StrategyFactory<S>,
    N: Net,

    ensures
        only_sent::<S, F::Model>(w.engine, Engine::<S, F>::caught_up::<N>(w).engine),
        ({
            let b = Engine::<S, F>::caught_up::<N>(w).engine;
            b == EngineView { owed: b.owed, ..w.engine }
        }),
{
    let w1 = World { engine: EngineView { owed: Seq::empty(), ..w.engine }, ..w };
    lemma_bookkeeping::<S, F::Model>(w.engine, w1.engine);
    lemma_frames_sent::<S, F, N>(w1, w.engine.owed);
    lemma_only_sent_trans::<S, F::Model>(
        w.engine,
        w1.engine,
        Engine::<S, F>::frames_sent::<N>(w1, w.engine.owed).engine,
    );
}

proof fn lemma_update_sent<S, F, N>(
    w: World<S::Model, F::Model, N::Model>,
    id: SessionId,
    peer: PeerId,
    payload: Seq<u8>,
) where
    S: Strategy<ChunkId = u32, RoutingUpdate = BitMap>,
    F: StrategyFactory<S>,
    N: Net,

    ensures
        only_sent::<S, F::Model>(
            w.engine,
            Engine::<S, F>::update_sent::<N>(w, id, peer, payload).0.engine,
        ),
{
    lemma_ensured::<S, F, N>(w, id, peer);
    let w1 = Engine::<S, F>::ensured::<N>(w, id, peer).0;
    let b = Engine::<S, F>::update_sent::<N>(w, id, peer, payload).0.engine;
    lemma_bookkeeping::<S, F::Model>(w1.engine, b);
    lemma_only_sent_trans::<S, F::Model>(w.engine, w1.engine, b);
}

proof fn lemma_routing_sent<S, F, N>(
    w: World<S::Model, F::Model, N::Model>,
    id: SessionId,
    peers: Seq<PeerId>,
    payload: Seq<u8>,
) where
    S: Strategy<ChunkId = u32, RoutingUpdate = BitMap>,
    F: StrategyFactory<S>,
    N: Net,

    ensures
        only_sent::<S, F::Model>(w.engine, Engine::<S, F>::routing_sent::<N>(w, id, peers, payload).0.engine),
    decreases peers.len(),
{
    lemma_same::<S, F::Model>(w.engine);
    if peers.len() > 0 {
        lemma_update_sent::<S, F, N>(w, id, peers[0], payload);
        let w1 = Engine::<S, F>::update_sent::<N>(w, id, peers[0], payload).0;
        lemma_routing_sent::<S, F, N>(w1, id, peers.drop_first(), payload);
        lemma_only_sent_trans::<S, F::Model>(
            w.engine,
            w1.engine,
            Engine::<S, F>::routing_sent::<N>(w1, id, peers.drop_first(), payload).0.engine,
        );
    }
}

proof fn lemma_due_sent<S, F, N>(
    w: World<S::Model, F::Model, N::Model>,
    id: SessionId,
    peers: Seq<PeerId>,
) where
    S: Strategy<ChunkId = u32, RoutingUpdate = BitMap>,
    F: StrategyFactory<S>,
    N: Net,

    ensures
        only_sent::<S, F::Model>(w.engine, Engine::<S, F>::due_sent::<N>(w, id, peers).0.engine),
    decreases peers.len(),
{
    lemma_same::<S, F::Model>(w.engine);
    if peers.len() > 0 {
        let key = (id.0, id.1, peers[0]);
        let w1 = if w.engine.due.contains_key(key) {
            lemma_update_sent::<S, F, N>(w, id, peers[0], w.engine.due[key]);
            Engine::<S, F>::update_sent::<N>(w, id, peers[0], w.engine.due[key]).0
        } else {
            w
        };
        lemma_due_sent::<S, F, N>(w1, id, peers.drop_first());
        lemma_only_sent_trans::<S, F::Model>(
            w.engine,
            w1.engine,
            Engine::<S, F>::due_sent::<N>(w1, id, peers.drop_first()).0.engine,
        );
    }
}

proof fn lemma_refunded<S, F>(
    e: EngineView<S::Model, F::Model>,
    id: SessionId,
    ds: Seq<DispatchView<u32>>,
) where S: Strategy<ChunkId = u32, RoutingUpdate = BitMap>, F: StrategyFactory<S>
    ensures
        only_sent::<S, F::Model>(e, Engine::<S, F>::refunded(e, id, ds)),
    decreases ds.len(),
{
    lemma_same::<S, F::Model>(e);
    if ds.len() > 0 {
        let e1 = Engine::<S, F>::reported(e, id, ds[0].peer, ds[0].handle, false);
        lemma_reported::<S, F>(e, id, ds[0].peer, ds[0].handle, false);
        lemma_refunded::<S, F>(e1, id, ds.drop_first());
        lemma_only_sent_trans::<S, F::Model>(
            e,
            e1,
            Engine::<S, F>::refunded(e1, id, ds.drop_first()),
        );
    }
}

proof fn lemma_reported<S, F>(
    e: EngineView<S::Model, F::Model>,
    id: SessionId,
    peer: PeerId,
    handle: u64,
    ok: bool,
) where S: Strategy<ChunkId = u32, RoutingUpdate = BitMap>, F: StrategyFactory<S>
    ensures
        only_sent::<S, F::Model>(e, Engine::<S, F>::reported(e, id, peer, handle, ok)),
{
    lemma_same::<S, F::Model>(e);
    if let Some(s) = e.session(id) {
        let s1 = Session::<S>::reported(s, peer, handle, ok);
        S::planning_keeps_holding(s.strategy, peer, handle, ok);
        assert forall|payload: Seq<u8>| S::bears(s.strategy, payload) implies #[trigger] S::bears(
            s1.strategy,
            payload,
        ) by {
            S::planning_keeps(s.strategy, payload, peer, handle, ok);
        }
        lemma_with_session::<S, F::Model>(e, id, s1);
    }
}

proof fn lemma_chunks_sent<S, F, N>(
    w: World<S::Model, F::Model, N::Model>,
    id: SessionId,
    ds: Seq<DispatchView<u32>>,
    stalled: bool,
) where
    S: Strategy<ChunkId = u32, RoutingUpdate = BitMap>,
    F: StrategyFactory<S>,
    N: Net,

    ensures
        only_sent::<S, F::Model>(w.engine, Engine::<S, F>::chunks_sent::<N>(w, id, ds, stalled).0.engine),
    decreases ds.len(),
{
    lemma_same::<S, F::Model>(w.engine);
    if ds.len() > 0 {
        let d = ds[0];
        lemma_ensured::<S, F, N>(w, id, d.peer);
        let (w1, r) = Engine::<S, F>::ensured::<N>(w, id, d.peer);
        if r is Ok {
            let (w2, refunded) = Engine::<S, F>::chunk_sent::<N>(w1, id, d);
            lemma_reported::<S, F>(w1.engine, id, d.peer, d.handle, false);
            assert(only_sent::<S, F::Model>(w1.engine, w2.engine)) by {
                if !refunded {
                    lemma_bookkeeping::<S, F::Model>(w1.engine, w2.engine);
                }
            }
            lemma_chunks_sent::<S, F, N>(w2, id, ds.drop_first(), stalled || refunded);
            let last = Engine::<S, F>::chunks_sent::<N>(
                w2,
                id,
                ds.drop_first(),
                stalled || refunded,
            ).0.engine;
            lemma_only_sent_trans::<S, F::Model>(w.engine, w1.engine, w2.engine);
            lemma_only_sent_trans::<S, F::Model>(w.engine, w2.engine, last);
        } else {
            lemma_refunded::<S, F>(w1.engine, id, ds);
            lemma_only_sent_trans::<S, F::Model>(
                w.engine,
                w1.engine,
                Engine::<S, F>::refunded(w1.engine, id, ds),
            );
        }
    }
}

proof fn lemma_work_sent<S, F, N>(
    w: World<S::Model, F::Model, N::Model>,
    id: SessionId,
    routing: Option<Seq<bool>>,
    ds: Seq<DispatchView<u32>>,
) where
    S: Strategy<ChunkId = u32, RoutingUpdate = BitMap>,
    F: StrategyFactory<S>,
    N: Net,

    ensures
        only_sent::<S, F::Model>(w.engine, Engine::<S, F>::work_sent::<N>(w, id, routing, ds).0.engine),
{
    match routing {
        Some(bits) => {
            let peers = order::ascending(w.engine.channels[id.0].subscribers);
            let payload = bitmap::packed(bits);
            lemma_routing_sent::<S, F, N>(w, id, peers, payload);
            let w1 = Engine::<S, F>::routing_sent::<N>(w, id, peers, payload).0;
            lemma_chunks_sent::<S, F, N>(w1, id, ds, false);
            lemma_only_sent_trans::<S, F::Model>(
                w.engine,
                w1.engine,
                Engine::<S, F>::chunks_sent::<N>(w1, id, ds, false).0.engine,
            );
            lemma_refunded::<S, F>(w1.engine, id, ds);
            lemma_only_sent_trans::<S, F::Model>(
                w.engine,
                w1.engine,
                Engine::<S, F>::refunded(w1.engine, id, ds),
            );
        },
        None => {
            lemma_chunks_sent::<S, F, N>(w, id, ds, false);
        },
    }
}

proof fn lemma_drained<S, F, N>(w: World<S::Model, F::Model, N::Model>, id: SessionId, rounds: nat) where
    S: Strategy<ChunkId = u32, RoutingUpdate = BitMap>,
    F: StrategyFactory<S>,
    N: Net,

    ensures
        only_sent::<S, F::Model>(w.engine, Engine::<S, F>::drained::<N>(w, id, rounds).0.engine),
    decreases rounds,
{
    lemma_same::<S, F::Model>(w.engine);
    if rounds > 0 {
        if let Some(s) = w.engine.session(id) {
            let (s1, routing, ds) = Session::<S>::polled(s);
            let w1 = World { engine: w.engine.with_session(id, s1), ..w };
            assert forall|payload: Seq<u8>| S::bears(s.strategy, payload) implies #[trigger] S::bears(
                s1.strategy,
                payload,
            ) by {
                S::planning_keeps(s.strategy, payload, 0, 0, true);
                S::planning_keeps(S::announced(s.strategy, false).0, payload, 0, 0, true);
            }
            S::planning_keeps_holding(s.strategy, 0, 0, true);
            S::planning_keeps_holding(S::announced(s.strategy, false).0, 0, 0, true);
            lemma_with_session::<S, F::Model>(w.engine, id, s1);
            if !(routing is None && ds.len() == 0) {
                lemma_work_sent::<S, F, N>(w1, id, routing, ds);
                let (w2, r) = Engine::<S, F>::work_sent::<N>(w1, id, routing, ds);
                lemma_only_sent_trans::<S, F::Model>(w.engine, w1.engine, w2.engine);
                lemma_drained::<S, F, N>(w2, id, (rounds - 1) as nat);
                lemma_only_sent_trans::<S, F::Model>(
                    w.engine,
                    w2.engine,
                    Engine::<S, F>::drained::<N>(w2, id, (rounds - 1) as nat).0.engine,
                );
            }
        }
    }
}

pub(crate) proof fn lemma_drain<S, F, N>(w: World<S::Model, F::Model, N::Model>, id: SessionId) where
    S: Strategy<ChunkId = u32, RoutingUpdate = BitMap>,
    F: StrategyFactory<S>,
    N: Net,

    ensures
        only_sent::<S, F::Model>(w.engine, Engine::<S, F>::drain::<N>(w, id).0.engine),
{
    lemma_same::<S, F::Model>(w.engine);
    if let Some(s) = w.engine.session(id) {
        let peers = order::ascending(w.engine.channels[id.0].subscribers);
        let w0 = Engine::<S, F>::caught_up::<N>(w);
        let w1 = Engine::<S, F>::due_sent::<N>(w0, id, peers).0;
        let rounds = S::backlog(s.strategy) + 1;
        lemma_caught_up::<S, F, N>(w);
        lemma_due_sent::<S, F, N>(w0, id, peers);
        lemma_only_sent_trans::<S, F::Model>(w.engine, w0.engine, w1.engine);
        lemma_drained::<S, F, N>(w1, id, rounds);
        lemma_only_sent_trans::<S, F::Model>(
            w.engine,
            w1.engine,
            Engine::<S, F>::drained::<N>(w1, id, rounds).0.engine,
        );
    }
}

proof fn lemma_drained_all<S, F, N>(
    w: World<S::Model, F::Model, N::Model>,
    channel: Seq<char>,
    messages: Seq<Seq<char>>,
) where
    S: Strategy<ChunkId = u32, RoutingUpdate = BitMap>,
    F: StrategyFactory<S>,
    N: Net,

    ensures
        only_sent::<S, F::Model>(w.engine, Engine::<S, F>::drained_all::<N>(w, channel, messages).0.engine),
    decreases messages.len(),
{
    lemma_same::<S, F::Model>(w.engine);
    if messages.len() > 0 {
        lemma_drain::<S, F, N>(w, (channel, messages[0]));
        let w1 = Engine::<S, F>::drain::<N>(w, (channel, messages[0])).0;
        lemma_drained_all::<S, F, N>(w1, channel, messages.drop_first());
        lemma_only_sent_trans::<S, F::Model>(
            w.engine,
            w1.engine,
            Engine::<S, F>::drained_all::<N>(w1, channel, messages.drop_first()).0.engine,
        );
    }
}

pub(crate) proof fn lemma_drain_channel<S, F, N>(w: World<S::Model, F::Model, N::Model>, channel: Seq<char>) where
    S: Strategy<ChunkId = u32, RoutingUpdate = BitMap>,
    F: StrategyFactory<S>,
    N: Net,

    ensures
        only_sent::<S, F::Model>(w.engine, Engine::<S, F>::drain_channel_of::<N>(w, channel).0.engine),
{
    lemma_same::<S, F::Model>(w.engine);
    if w.engine.channels.contains_key(channel) {
        let w0 = Engine::<S, F>::caught_up::<N>(w);
        let messages = order::alphabetical(w.engine.channels[channel].sessions.dom());
        lemma_caught_up::<S, F, N>(w);
        lemma_drained_all::<S, F, N>(w0, channel, messages);
        lemma_only_sent_trans::<S, F::Model>(
            w.engine,
            w0.engine,
            Engine::<S, F>::drained_all::<N>(w0, channel, messages).0.engine,
        );
    }
}

/// A session opens to a peer at most once: opening it again sends nothing
/// and changes nothing, and it stays open to the peer while work is sent.
pub proof fn law_session_opens_once<S, F, N>(
    w: World<S::Model, F::Model, N::Model>,
    id: SessionId,
    peer: PeerId,
    other: SessionId,
) where
    S: Strategy<ChunkId = u32, RoutingUpdate = BitMap>,
    F: StrategyFactory<S>,
    N: Net,

    ensures
        ({
            let (w1, r) = Engine::<S, F>::ensured::<N>(w, id, peer);
            &&& r is Ok ==> Engine::<S, F>::ensured::<N>(w1, id, peer) == (w1, Ok::<(), NetError>(()))
            &&& w.engine.opened_to(id).contains(peer) ==> w1 == w && Engine::<S, F>::drain::<N>(
                w,
                other,
            ).0.engine.opened_to(id).contains(peer)
        }),
{
    lemma_drain::<S, F, N>(w, other);
}

/// Connecting to a peer twice sends one handshake. Where the transport has no
/// room for it, it is owed, and goes out when it is sent again and there is
/// room.
pub proof fn law_handshake_is_sent_once<S, F, N>(w: World<S::Model, F::Model, N::Model>, peer: PeerId) where
    S: Strategy<ChunkId = u32, RoutingUpdate = BitMap>,
    F: StrategyFactory<S>,
    N: Net,

    ensures
        ({
            let (w1, r) = Engine::<S, F>::introduced::<N>(w, peer);
            &&& Engine::<S, F>::introduced::<N>(w1, peer) == (w1, Ok::<(), NetError>(()))
            &&& model::refused(r) ==> w1.engine.owed == w.engine.owed.push(FrameView::Handshake { peer })
        }),
{
}

/// A disposed session is not opened again and takes no chunks while its
/// tombstone stands.
pub proof fn law_tombstone_keeps_session_closed<S, F, N>(
    w: World<S::Model, F::Model, N::Model>,
    id: SessionId,
    peer: PeerId,
    preamble: Seq<u8>,
    update: Seq<u8>,
    chunk_id: u32,
    payload: Seq<u8>,
    now: Nanos,
    reading: u32,
) where
    S: Strategy<ChunkId = u32, RoutingUpdate = BitMap>,
    F: StrategyFactory<S>,
    N: Net,

    requires
        w.engine.tombstoned(id),
    ensures
        Engine::<S, F>::handled::<N>(
            w,
            NetEventView::SessionOpen {
                peer,
                channel: id.0,
                message_id: id.1,
                preamble,
                initial_update: update,
            },
            now,
            reading,
        ) == w,
        Engine::<S, F>::handled::<N>(
            w,
            NetEventView::Chunk { peer, channel: id.0, message_id: id.1, chunk_id, payload },
            now,
            reading,
        ) == w,
{
    assert((id.0, id.1) == id);
}

/// An outcome of a chunk that is not in the transport, such as a second
/// report on the same chunk, is ignored.
pub proof fn law_unknown_outcome_is_ignored<S, F, N>(
    w: World<S::Model, F::Model, N::Model>,
    id: SessionId,
    peer: PeerId,
    token: u64,
    ok: bool,
    now: Nanos,
    reading: u32,
) where
    S: Strategy<ChunkId = u32, RoutingUpdate = BitMap>,
    F: StrategyFactory<S>,
    N: Net,

    requires
        !w.engine.pending.contains_key((id.0, id.1, token)),
    ensures
        Engine::<S, F>::handled::<N>(
            w,
            NetEventView::ChunkSendResult { peer, channel: id.0, message_id: id.1, token, ok },
            now,
            reading,
        ) == w,
{
}

/// The dispatches that sending does not bring into the transport.
pub open spec fn unsent<S, F, N>(
    w: World<S::Model, F::Model, N::Model>,
    id: SessionId,
    ds: Seq<DispatchView<u32>>,
) -> Seq<DispatchView<u32>> where
    S: Strategy<ChunkId = u32, RoutingUpdate = BitMap>,
    F: StrategyFactory<S>,
    N: Net,

    decreases ds.len(),
{
    if ds.len() == 0 {
        ds
    } else {
        let (w1, r) = Engine::<S, F>::ensured::<N>(w, id, ds[0].peer);
        match r {
            Err(_) => ds,
            Ok(()) => {
                let (w2, refunded) = Engine::<S, F>::chunk_sent::<N>(w1, id, ds[0]);
                let rest = unsent::<S, F, N>(w2, id, ds.drop_first());
                if refunded {
                    seq![ds[0]] + rest
                } else {
                    rest
                }
            },
        }
    }
}

proof fn lemma_unsent<S, F, N>(
    w: World<S::Model, F::Model, N::Model>,
    id: SessionId,
    ds: Seq<DispatchView<u32>>,
    d: DispatchView<u32>,
) where
    S: Strategy<ChunkId = u32, RoutingUpdate = BitMap>,
    F: StrategyFactory<S>,
    N: Net,

    ensures
        unsent::<S, F, N>(w, id, ds).contains(d) ==> ds.contains(d),
    decreases ds.len(),
{
    if ds.len() > 0 && unsent::<S, F, N>(w, id, ds).contains(d) {
        let (w1, r) = Engine::<S, F>::ensured::<N>(w, id, ds[0].peer);
        if r is Ok {
            let (w2, refunded) = Engine::<S, F>::chunk_sent::<N>(w1, id, ds[0]);
            let rest = unsent::<S, F, N>(w2, id, ds.drop_first());
            lemma_unsent::<S, F, N>(w2, id, ds.drop_first(), d);
            let all = unsent::<S, F, N>(w, id, ds);
            let i = choose|i: int| 0 <= i < all.len() && all[i] == d;
            if refunded && i == 0 {
                assert(ds[0] == d);
            } else {
                assert(rest.contains(d)) by {
                    assert(rest[if refunded {
                        i - 1
                    } else {
                        i
                    }] == d);
                }
                let k = choose|k: int| 0 <= k < ds.drop_first().len() && ds.drop_first()[k] == d;
                assert(ds[k + 1] == d);
            }
        }
    }
}

proof fn lemma_refund_channels<S, F>(
    a: EngineView<S::Model, F::Model>,
    b: EngineView<S::Model, F::Model>,
    id: SessionId,
    ds: Seq<DispatchView<u32>>,
) where S: Strategy<ChunkId = u32, RoutingUpdate = BitMap>, F: StrategyFactory<S>
    requires
        a.channels == b.channels,
    ensures
        Engine::<S, F>::refunded(a, id, ds).channels == Engine::<S, F>::refunded(b, id, ds).channels,
    decreases ds.len(),
{
    if ds.len() > 0 {
        let d = ds[0];
        assert(a.session(id) == b.session(id));
        lemma_refund_channels::<S, F>(
            Engine::<S, F>::reported(a, id, d.peer, d.handle, false),
            Engine::<S, F>::reported(b, id, d.peer, d.handle, false),
            id,
            ds.drop_first(),
        );
    }
}

proof fn lemma_pending<S, F>(e: EngineView<S::Model, F::Model>, id: SessionId, ds: Seq<DispatchView<u32>>) where
    S: Strategy<ChunkId = u32, RoutingUpdate = BitMap>,
    F: StrategyFactory<S>,

    ensures
        Engine::<S, F>::refunded(e, id, ds).pending == e.pending,
    decreases ds.len(),
{
    if ds.len() > 0 {
        lemma_pending::<S, F>(
            Engine::<S, F>::reported(e, id, ds[0].peer, ds[0].handle, false),
            id,
            ds.drop_first(),
        );
    }
}

/// No dispatch is forgotten, and none counts twice, unless a session could not
/// be opened for a reason other than a lack of room: of dispatches with fresh
/// handles each is either in the transport, which will report on it, or is
/// refunded to its session as not sent.
pub proof fn law_every_dispatch_has_one_outcome<S, F, N>(
    w: World<S::Model, F::Model, N::Model>,
    id: SessionId,
    ds: Seq<DispatchView<u32>>,
    stalled: bool,
) where
    S: Strategy<ChunkId = u32, RoutingUpdate = BitMap>,
    F: StrategyFactory<S>,
    N: Net,

    requires
        forall|i: int, j: int|
            0 <= i < j < ds.len() ==> (#[trigger] ds[i]).handle != (#[trigger] ds[j]).handle,
        forall|i: int|
            0 <= i < ds.len() ==> !w.engine.pending.contains_key(
                (id.0, id.1, (#[trigger] ds[i]).handle),
            ),
        Engine::<S, F>::chunks_sent::<N>(w, id, ds, stalled).1 matches Err(x) ==> x is Backpressure,
    ensures
        ({
            let b = Engine::<S, F>::chunks_sent::<N>(w, id, ds, stalled).0.engine;
            let back = unsent::<S, F, N>(w, id, ds);
            &&& b.channels == Engine::<S, F>::refunded(w.engine, id, back).channels
            &&& forall|i: int|
                0 <= i < ds.len() ==> back.contains(#[trigger] ds[i]) != b.pending.contains_key(
                    (id.0, id.1, ds[i].handle),
                )
            &&& forall|k: (Seq<char>, Seq<char>, u64)| #[trigger]
                w.engine.pending.contains_key(k) ==> b.pending.contains_key(k)
            &&& forall|k: (Seq<char>, Seq<char>, u64)| #[trigger]
                b.pending.contains_key(k) ==> w.engine.pending.contains_key(k) || exists|i: int|
                    0 <= i < ds.len() && k == (id.0, id.1, (#[trigger] ds[i]).handle)
        }),
    decreases ds.len(),
{
    if ds.len() > 0 {
        let d = ds[0];
        let key = (id.0, id.1, d.handle);
        let rest = ds.drop_first();
        let (w1, r) = Engine::<S, F>::ensured::<N>(w, id, d.peer);
        let b = Engine::<S, F>::chunks_sent::<N>(w, id, ds, stalled).0.engine;
        let back = unsent::<S, F, N>(w, id, ds);
        if r is Ok {
            let (w2, refunded) = Engine::<S, F>::chunk_sent::<N>(w1, id, d);
            let more = unsent::<S, F, N>(w2, id, rest);
            assert forall|i: int| 0 <= i < rest.len() implies !w2.engine.pending.contains_key(
                (id.0, id.1, (#[trigger] rest[i]).handle),
            ) by {
                assert(rest[i] == ds[i + 1]);
                assert(ds[0].handle != ds[i + 1].handle);
            }
            assert forall|i: int, j: int| 0 <= i < j < rest.len() implies (#[trigger] rest[i]).handle != (
            #[trigger] rest[j]).handle by {
                assert(rest[i] == ds[i + 1] && rest[j] == ds[j + 1]);
            }
            law_every_dispatch_has_one_outcome::<S, F, N>(w2, id, rest, stalled || refunded);
            if refunded {
                let e1 = Engine::<S, F>::reported(w.engine, id, d.peer, d.handle, false);
                assert(w1.engine.session(id) == w.engine.session(id));
                lemma_refund_channels::<S, F>(w2.engine, e1, id, more);
                assert(back[0] == d);
                assert(back.drop_first() =~= more);
            } else {
                lemma_refund_channels::<S, F>(w2.engine, w.engine, id, more);
            }
            assert(b.channels == Engine::<S, F>::refunded(w.engine, id, back).channels);
            assert forall|k: (Seq<char>, Seq<char>, u64)| #[trigger]
                w.engine.pending.contains_key(k) implies b.pending.contains_key(k) by {
                assert(w2.engine.pending.contains_key(k));
            }
            assert forall|k: (Seq<char>, Seq<char>, u64)| #[trigger]
                b.pending.contains_key(k) implies w.engine.pending.contains_key(k) || exists|i: int|
                0 <= i < ds.len() && k == (id.0, id.1, (#[trigger] ds[i]).handle) by {
                if w2.engine.pending.contains_key(k) {
                    if k == key {
                        assert(k == (id.0, id.1, ds[0].handle));
                    }
                } else {
                    let i = choose|i: int|
                        0 <= i < rest.len() && k == (id.0, id.1, (#[trigger] rest[i]).handle);
                    assert(ds[i + 1] == rest[i]);
                }
            }
            assert forall|i: int| 0 <= i < ds.len() implies back.contains(#[trigger] ds[i])
                != b.pending.contains_key((id.0, id.1, ds[i].handle)) by {
                if i == 0 {
                    lemma_unsent::<S, F, N>(w2, id, rest, d);
                    if more.contains(d) {
                        let k = choose|k: int| 0 <= k < rest.len() && rest[k] == d;
                        assert(ds[k + 1] == d);
                        assert(ds[0].handle != ds[k + 1].handle);
                    }
                    if refunded {
                        assert(back[0] == d);
                        if b.pending.contains_key(key) {
                            let k = choose|k: int|
                                0 <= k < rest.len() && key == (id.0, id.1, (#[trigger] rest[k]).handle);
                            assert(ds[k + 1] == rest[k]);
                            assert(ds[0].handle != ds[k + 1].handle);
                        }
                    } else {
                        assert(w2.engine.pending.contains_key(key));
                    }
                } else {
                    assert(rest[i - 1] == ds[i]);
                    assert(ds[0].handle != ds[i].handle);
                    assert(back.contains(ds[i]) == more.contains(ds[i])) by {
                        if back.contains(ds[i]) {
                            let k = choose|k: int| 0 <= k < back.len() && back[k] == ds[i];
                            assert(more[if refunded {
                                k - 1
                            } else {
                                k
                            }] == ds[i]);
                        }
                        if more.contains(ds[i]) {
                            let k = choose|k: int| 0 <= k < more.len() && more[k] == ds[i];
                            assert(back[if refunded {
                                k + 1
                            } else {
                                k
                            }] == ds[i]);
                        }
                    }
                }
            }
        } else {
            lemma_pending::<S, F>(w1.engine, id, ds);
            lemma_refund_channels::<S, F>(w1.engine, w.engine, id, ds);
            assert(b.channels == Engine::<S, F>::refunded(w.engine, id, back).channels);
            assert(b.pending == w.engine.pending);
            assert(back == ds);
        }
    }
}

/// Disposing a session removes all that the engine holds of it and leaves a
/// tombstone; other sessions keep what they have.
pub proof fn law_dispose_removes_everything<M, F>(
    e: EngineView<M, F>,
    gone: Set<SessionId>,
    id: SessionId,
    token: u64,
    peer: PeerId,
    now: Nanos,
)
    ensures
        ({
            let d = e.disposed(gone, now);
            if gone.contains(id) {
                &&& d.session(id) is None
                &&& !d.meta.contains_key(id)
                &&& !d.preambles.contains_key(id)
                &&& !d.opened.contains_key(id)
                &&& !d.parked.contains_key(id)
                &&& !d.pending.contains_key((id.0, id.1, token))
                &&& !d.due.contains_key((id.0, id.1, peer))
                &&& d.tombstoned(id) && d.tombstones[id] == now
            } else {
                &&& d.session(id) == e.session(id)
                &&& d.meta.contains_key(id) == e.meta.contains_key(id)
                &&& d.preambles.contains_key(id) == e.preambles.contains_key(id)
                &&& d.opened_to(id) == e.opened_to(id)
                &&& d.parked_for(id) == e.parked_for(id)
                &&& d.pending.contains_key((id.0, id.1, token)) == e.pending.contains_key(
                    (id.0, id.1, token),
                )
                &&& d.due.contains_key((id.0, id.1, peer)) == e.due.contains_key((id.0, id.1, peer))
                &&& d.tombstoned(id) == e.tombstoned(id)
            }
        }),
{
    assert((id.0, id.1) == id);
}

/// A sweep that is due disposes each session past its lifetime and leaves its
/// tombstone, keeps the others, and drops the tombstones and the parked
/// chunks that have outlived their time.
pub proof fn law_sweep_disposes_what_expired<M, F>(e: EngineView<M, F>, id: SessionId, now: Nanos)
    requires
        now >= e.next_cleanup,
    ensures
        ({
            let d = e.cleaned(now);
            &&& e.expired(id, now) ==> d.session(id) is None && !d.meta.contains_key(id)
                && d.tombstoned(id)
            &&& !e.expired(id, now) ==> d.session(id) == e.session(id) && d.meta.contains_key(id)
                == e.meta.contains_key(id)
            &&& d.tombstoned(id) && !e.expired(id, now) ==> e.tombstoned(id) && model::elapsed(
                now,
                e.tombstones[id],
            ) <= e.config.tombstone_ttl
            &&& forall|i: int|
                0 <= i < d.parked_for(id).len() ==> model::elapsed(
                    now,
                    (#[trigger] d.parked_for(id)[i]).parked_at,
                ) <= engine::PARKED_CHUNK_TTL
            &&& d.next_cleanup == model::later(now, e.config.cleanup_interval)
        }),
{
    assert((id.0, id.1) == id);
    let base = EngineView {
        next_cleanup: model::later(now, e.config.cleanup_interval),
        ..e
    };
    let gone = Set::new(|i: SessionId| base.expired(i, now));
    law_dispose_removes_everything(base, gone, id, 0, 0, now);
    let mid = base.disposed(gone, now);
    let d = e.cleaned(now);
    assert(d == base.swept(now));
    assert(d.channels == mid.channels);
    assert(d.session(id) == mid.session(id));
    assert(base.session(id) == e.session(id));
    if d.parked.contains_key(id) {
        let keep = |c: ParkedView| model::elapsed(now, c.parked_at) <= engine::PARKED_CHUNK_TTL;
        let buf = mid.parked[id];
        assert(d.parked[id] == buf.filter(keep));
        buf.filter_lemma(keep);
        assert forall|i: int| 0 <= i < d.parked_for(id).len() implies model::elapsed(
            now,
            (#[trigger] d.parked_for(id)[i]).parked_at,
        ) <= engine::PARKED_CHUNK_TTL by {
            assert(keep(buf.filter(keep)[i]));
        }
    }
}

/// No session lives for ever: a sweep that comes later than its lifetime
/// allows disposes it.
pub proof fn law_every_session_is_swept<S, F>(e: EngineView<S::Model, F::Model>, id: SessionId, now: Nanos) where
    S: Strategy<ChunkId = u32, RoutingUpdate = BitMap>,
    F: StrategyFactory<S>,

    requires
        Engine::<S, F>::valid(e),
        e.session(id) is Some,
        now >= e.next_cleanup,
        model::elapsed(now, e.meta[id].created_at) > e.config.active_session_ttl,
    ensures
        e.cleaned(now).session(id) is None,
        e.cleaned(now).tombstoned(id),
{
    assert(e.channels[id.0].sessions.contains_key(id.1));
    assert((id.0, id.1) == id);
    law_sweep_disposes_what_expired(e, id, now);
}

/// A session that ended is disposed by a sweep that comes later than it may
/// linger, and leaves its tombstone.
pub proof fn law_ended_session_lingers_no_longer<M, F>(e: EngineView<M, F>, id: SessionId, now: Nanos, t: Nanos)
    requires
        now >= e.next_cleanup,
        e.meta.contains_key(id),
        e.meta[id].terminal_at == Some(t),
        now - t > e.config.reconstructed_linger,
    ensures
        ({
            let d = e.cleaned(now);
            &&& d.session(id) is None
            &&& !d.meta.contains_key(id)
            &&& !d.preambles.contains_key(id)
            &&& !d.opened.contains_key(id)
            &&& !d.parked.contains_key(id)
            &&& d.tombstones.contains_key(id) && d.tombstones[id] == now
        }),
{
    law_sweep_disposes_what_expired(e, id, now);
}

/// A sweep keeps the session that is within its lifetime and has not ended, or
/// has not lingered too long, with all that belongs to it.
pub proof fn law_sweep_keeps_the_rest<M, F>(
    e: EngineView<M, F>,
    id: SessionId,
    token: u64,
    peer: PeerId,
    now: Nanos,
)
    requires
        e.meta.contains_key(id),
        now - e.meta[id].created_at <= e.config.active_session_ttl,
        e.meta[id].terminal_at matches Some(t) ==> now - t <= e.config.reconstructed_linger,
    ensures
        ({
            let d = e.cleaned(now);
            &&& d.session(id) == e.session(id)
            &&& d.meta.contains_key(id) && d.meta[id] == e.meta[id]
            &&& d.preambles.contains_key(id) == e.preambles.contains_key(id)
            &&& e.preambles.contains_key(id) ==> d.preambles[id] == e.preambles[id]
            &&& d.opened_to(id) == e.opened_to(id)
            &&& d.pending.contains_key((id.0, id.1, token)) == e.pending.contains_key(
                (id.0, id.1, token),
            )
            &&& e.pending.contains_key((id.0, id.1, token)) ==> d.pending[(id.0, id.1, token)]
                == e.pending[(id.0, id.1, token)]
            &&& d.due.contains_key((id.0, id.1, peer)) == e.due.contains_key((id.0, id.1, peer))
            &&& e.due.contains_key((id.0, id.1, peer)) ==> d.due[(id.0, id.1, peer)]
                == e.due[(id.0, id.1, peer)]
            &&& d.tombstoned(id) ==> e.tombstoned(id)
            &&& d.delivered == e.delivered
            &&& d.connected == e.connected
            &&& d.owed == e.owed
        }),
{
    assert((id.0, id.1) == id);
    if now >= e.next_cleanup {
        law_sweep_disposes_what_expired(e, id, now);
        let base = EngineView {
            next_cleanup: model::later(now, e.config.cleanup_interval),
            ..e
        };
        let gone = Set::new(|i: SessionId| base.expired(i, now));
        law_dispose_removes_everything(base, gone, id, token, peer, now);
    }
}

/// A tombstone stands as long as its time allows, counted from the disposal,
/// and a sweep that comes later removes it.
pub proof fn law_tombstone_stands_its_time<M, F>(e: EngineView<M, F>, id: SessionId, now: Nanos)
    requires
        now >= e.next_cleanup,
        e.tombstones.contains_key(id),
        !e.meta.contains_key(id),
    ensures
        e.cleaned(now).tombstones.contains_key(id) <==> now - e.tombstones[id] <= e.config.tombstone_ttl,
        e.cleaned(now).tombstones.contains_key(id) ==> e.cleaned(now).tombstones[id] == e.tombstones[id],
{
    law_sweep_disposes_what_expired(e, id, now);
}

/// Sweeps come no more often than the interval allows: one is due from the
/// recorded time on, nothing happens before, and the next is due an interval
/// later.
pub proof fn law_sweeps_keep_their_interval<M, F>(e: EngineView<M, F>, now: Nanos)
    ensures
        now < e.next_cleanup ==> e.cleaned(now) == e,
        now >= e.next_cleanup && now + e.config.cleanup_interval <= u64::MAX
            ==> e.cleaned(now).next_cleanup == now + e.config.cleanup_interval,
{
}

/// A sweep keeps of the parked chunks those that are at most ten seconds old,
/// in their order, and no others.
pub proof fn law_parked_chunks_age<M, F>(e: EngineView<M, F>, id: SessionId, now: Nanos)
    requires
        now >= e.next_cleanup,
        !e.meta.contains_key(id),
    ensures
        ({
            let young = |c: ParkedView| now - c.parked_at <= 10_000_000_000;
            let left = e.cleaned(now).parked_for(id);
            &&& left == e.parked_for(id).filter(young)
            &&& e.cleaned(now).parked.contains_key(id) <==> left.len() > 0
        }),
{
    let young = |c: ParkedView| now - c.parked_at <= 10_000_000_000;
    let keep = |c: ParkedView| model::elapsed(now, c.parked_at) <= engine::PARKED_CHUNK_TTL;
    assert(young =~= keep);
    let d = e.cleaned(now);
    if e.parked.contains_key(id) {
        if d.parked.contains_key(id) {
            assert(d.parked[id] == e.parked[id].filter(keep));
        } else {
            assert(e.parked[id].filter(keep) =~= Seq::<ParkedView>::empty());
        }
    } else {
        reveal(Seq::filter);
        assert(Seq::<ParkedView>::empty().filter(young) =~= Seq::<ParkedView>::empty());
    }
}

/// No session has more parked chunks than the buffer holds.
pub open spec fn parked_within_bounds<M, F>(e: EngineView<M, F>) -> bool {
    forall|id: SessionId| #[trigger]
        e.parked.contains_key(id) ==> e.parked[id].len() <= engine::MAX_PARKED_CHUNKS_PER_MESSAGE
}

pub(crate) proof fn lemma_taken_all<S, F>(
    e: EngineView<S::Model, F::Model>,
    id: SessionId,
    chunks: Seq<ParkedView>,
    complete: bool,
) where S: Strategy<ChunkId = u32, RoutingUpdate = BitMap>, F: StrategyFactory<S>
    ensures
        ({
            let b = Engine::<S, F>::taken_all(e, id, chunks, complete).0;
            b == EngineView { channels: b.channels, ..e }
        }),
    decreases chunks.len(),
{
    if chunks.len() > 0 {
        let (e1, c) = Engine::<S, F>::taken(e, id, chunks[0].chunk_id, chunks[0].payload);
        lemma_taken_all::<S, F>(e1, id, chunks.drop_first(), complete || c);
    }
}

/// What handling an event leaves alone, but for parked chunks.
spec fn settled<M, F>(a: EngineView<M, F>, b: EngineView<M, F>) -> bool {
    &&& b.parked == a.parked
    &&& b.tombstones == a.tombstones
    &&& b.delivered == a.delivered || (b.delivered.len() == a.delivered.len() + 1
        && b.delivered.drop_last() == a.delivered)
}

proof fn lemma_progressed<S, F, N>(
    w: World<S::Model, F::Model, N::Model>,
    id: SessionId,
    complete: bool,
    now: Nanos,
) where
    S: Strategy<ChunkId = u32, RoutingUpdate = BitMap>,
    F: StrategyFactory<S>,
    N: Net,

    ensures
        settled(w.engine, Engine::<S, F>::progressed::<N>(w, id, complete, now).engine),
        !complete ==> Engine::<S, F>::progressed::<N>(w, id, complete, now).engine.delivered
            == w.engine.delivered,
{
    lemma_drain::<S, F, N>(w, id);
    let w1 = Engine::<S, F>::drain::<N>(w, id).0;
    if complete {
        let b = Engine::<S, F>::decoded::<N>(w1, id, now).engine;
        if b.delivered != w1.engine.delivered {
            assert(b.delivered.drop_last() =~= w1.engine.delivered);
        }
    }
}

proof fn lemma_joined<S, F, N>(
    w: World<S::Model, F::Model, N::Model>,
    peer: PeerId,
    channels: Seq<Seq<char>>,
) where
    S: Strategy<ChunkId = u32, RoutingUpdate = BitMap>,
    F: StrategyFactory<S>,
    N: Net,

    ensures
        settled(w.engine, Engine::<S, F>::joined::<N>(w, peer, channels).engine),
        Engine::<S, F>::joined::<N>(w, peer, channels).engine.delivered == w.engine.delivered,
    decreases channels.len(),
{
    if channels.len() > 0 {
        let w1 = World {
            engine: Engine::<S, F>::subscribed(w.engine, channels[0], peer),
            ..w
        };
        lemma_drain_channel::<S, F, N>(w1, channels[0]);
        let w2 = Engine::<S, F>::drain_channel_of::<N>(w1, channels[0]).0;
        lemma_joined::<S, F, N>(w2, peer, channels.drop_first());
    }
}

/// What an event does to the parked chunks, the tombstones and the payloads
/// delivered.
proof fn lemma_handled<S, F, N>(
    w: World<S::Model, F::Model, N::Model>,
    event: NetEventView,
    now: Nanos,
    reading: u32,
) where
    S: Strategy<ChunkId = u32, RoutingUpdate = BitMap>,
    F: StrategyFactory<S>,
    N: Net,

    ensures
        ({
            let a = w.engine;
            let b = Engine::<S, F>::handled::<N>(w, event, now, reading).engine;
            &&& parked_within_bounds(a) ==> parked_within_bounds(b)
            &&& b.tombstones == a.tombstones
            &&& b.delivered == a.delivered || (b.delivered.len() == a.delivered.len() + 1
                && b.delivered.drop_last() == a.delivered)
        }),
{
    let e = w.engine;
    match event {
        NetEventView::Handshake { peer, version, channels, .. } => {
            lemma_joined::<S, F, N>(
                World { engine: EngineView { connected: e.connected.insert(peer), ..e }, ..w },
                peer,
                channels,
            );
        },
        NetEventView::Subscribe { peer, channel } => {
            lemma_drain_channel::<S, F, N>(
                World { engine: Engine::<S, F>::subscribed(e, channel, peer), ..w },
                channel,
            );
        },
        NetEventView::SessionOpen { channel, message_id, preamble, .. } => {
            let id = (channel, message_id);
            if !e.tombstoned(id) && e.channels.contains_key(id.0) {
                let (c, r) = Channel::<S, F>::opened(e.channels[id.0], id.1, preamble, reading);
                let e1 = EngineView { channels: e.channels.insert(id.0, c), ..e };
                if r is Ok {
                    let e2 = EngineView { preambles: e1.preambles.insert(id, preamble), ..e1 };
                    let w3 = World { engine: e2.created(id, now), ..w };
                    lemma_drain::<S, F, N>(w3, id);
                    let w4 = Engine::<S, F>::drain::<N>(w3, id).0;
                    if w4.engine.parked.contains_key(id) {
                        let e4 = EngineView { parked: w4.engine.parked.remove(id), ..w4.engine };
                        let chunks = w4.engine.parked[id];
                        lemma_taken_all::<S, F>(e4, id, chunks, false);
                        let (e5, complete) = Engine::<S, F>::taken_all(e4, id, chunks, false);
                        lemma_progressed::<S, F, N>(World { engine: e5, ..w4 }, id, complete, now);
                    }
                }
            }
        },
        NetEventView::Chunk { channel, message_id, chunk_id, payload, .. } => {
            let id = (channel, message_id);
            if !e.tombstoned(id) && e.session(id) is Some {
                let (e1, complete) = Engine::<S, F>::taken(e, id, chunk_id, payload);
                lemma_progressed::<S, F, N>(World { engine: e1, ..w }, id, complete, now);
            }
        },
        NetEventView::ChunkSendResult { peer, channel, message_id, token, ok } => {
            let id = (channel, message_id);
            let key = (channel, message_id, token);
            if e.pending.contains_key(key) {
                let e1 = EngineView { pending: e.pending.remove(key), ..e };
                lemma_reported::<S, F>(e1, id, peer, token, ok);
                lemma_drain::<S, F, N>(
                    World { engine: Engine::<S, F>::reported(e1, id, peer, token, ok), ..w },
                    id,
                );
            }
        },
        _ => {},
    }
}

/// The buffers of chunks that arrive before their session stay within their
/// bounds, whatever events and sweeps come.
pub proof fn law_parked_chunks_are_bounded<S, F, N>(
    w: World<S::Model, F::Model, N::Model>,
    event: NetEventView,
    now: Nanos,
    reading: u32,
) where
    S: Strategy<ChunkId = u32, RoutingUpdate = BitMap>,
    F: StrategyFactory<S>,
    N: Net,

    requires
        parked_within_bounds(w.engine),
    ensures
        parked_within_bounds(Engine::<S, F>::handled::<N>(w, event, now, reading).engine),
        parked_within_bounds(w.engine.cleaned(now)),
{
    lemma_handled::<S, F, N>(w, event, now, reading);
    let d = w.engine.cleaned(now);
    assert forall|id: SessionId| #[trigger] d.parked.contains_key(id) implies d.parked[id].len()
        <= engine::MAX_PARKED_CHUNKS_PER_MESSAGE by {
        if now >= w.engine.next_cleanup {
            let keep = |c: ParkedView| model::elapsed(now, c.parked_at) <= engine::PARKED_CHUNK_TTL;
            assert(w.engine.parked.contains_key(id));
            let buf = w.engine.parked[id];
            assert(d.parked[id] == buf.filter(keep));
            buf.lemma_filter_len(keep);
        }
    }
}

/// An event delivers at most one payload to the application, and takes none
/// back.
pub proof fn law_event_delivers_at_most_once<S, F, N>(
    w: World<S::Model, F::Model, N::Model>,
    event: NetEventView,
    now: Nanos,
    reading: u32,
) where
    S: Strategy<ChunkId = u32, RoutingUpdate = BitMap>,
    F: StrategyFactory<S>,
    N: Net,

    ensures
        ({
            let b = Engine::<S, F>::handled::<N>(w, event, now, reading).engine;
            b.delivered == w.engine.delivered || (b.delivered.len() == w.engine.delivered.len() + 1
                && b.delivered.drop_last() == w.engine.delivered)
        }),
{
    lemma_handled::<S, F, N>(w, event, now, reading);
}

/// A session that is no longer consuming delivers nothing more: chunks that
/// come late are ignored.
pub proof fn law_late_chunk_delivers_nothing<S, F, N>(
    w: World<S::Model, F::Model, N::Model>,
    id: SessionId,
    peer: PeerId,
    chunk_id: u32,
    payload: Seq<u8>,
    now: Nanos,
    reading: u32,
) where
    S: Strategy<ChunkId = u32, RoutingUpdate = BitMap>,
    F: StrategyFactory<S>,
    N: Net,

    requires
        w.engine.session(id) matches Some(s) && s.state != SessionState::Consuming,
    ensures
        Engine::<S, F>::handled::<N>(
            w,
            NetEventView::Chunk { peer, channel: id.0, message_id: id.1, chunk_id, payload },
            now,
            reading,
        ).engine.delivered == w.engine.delivered,
{
    assert((id.0, id.1) == id);
    let (e1, complete) = Engine::<S, F>::taken(w.engine, id, chunk_id, payload);
    assert(!complete);
    lemma_progressed::<S, F, N>(World { engine: e1, ..w }, id, complete, now);
}

/// A complete session is decoded once: afterwards it is no longer consuming
/// or decoding, and what it delivers is the payload of its strategy.
pub proof fn law_decoding_ends_session<S, F, N>(
    w: World<S::Model, F::Model, N::Model>,
    id: SessionId,
    now: Nanos,
) where
    S: Strategy<ChunkId = u32, RoutingUpdate = BitMap>,
    F: StrategyFactory<S>,
    N: Net,

    requires
        w.engine.session(id) matches Some(s) && s.state == SessionState::Decoding,
    ensures
        ({
            let b = Engine::<S, F>::decoded::<N>(w, id, now).engine;
            let r = Session::<S>::finished(w.engine.session(id)->Some_0).1;
            &&& b.session(id) is Some
            &&& b.session(id)->Some_0.state != SessionState::Consuming
            &&& b.session(id)->Some_0.state != SessionState::Decoding
            &&& r is Err ==> b.delivered == w.engine.delivered
            &&& r matches Ok(payload) ==> b.delivered == w.engine.delivered.push(
                DeliveredView { channel_id: id.0, message_id: id.1, payload },
            )
        }),
{
}

/// The payloads delivered for a message, in turn.
pub open spec fn tally(delivered: Seq<DeliveredView>, id: SessionId) -> Seq<Seq<u8>>
    decreases delivered.len(),
{
    if delivered.len() == 0 {
        Seq::empty()
    } else {
        let head = tally(delivered.drop_last(), id);
        if (delivered.last().channel_id, delivered.last().message_id) == id {
            head.push(delivered.last().payload)
        } else {
            head
        }
    }
}

/// The session is where it was, its times are what they were, and nothing was
/// delivered for it.
pub open spec fn undisturbed<M, F>(a: EngineView<M, F>, b: EngineView<M, F>, id: SessionId) -> bool {
    &&& stage(b, id) == stage(a, id)
    &&& tally(b.delivered, id) == tally(a.delivered, id)
    &&& b.meta.contains_key(id) == a.meta.contains_key(id)
    &&& b.meta[id] == a.meta[id]
    &&& b.config == a.config
}

/// The session was decoded, or never needs decoding.
pub open spec fn is_over(s: Option<SessionState>) -> bool {
    s matches Some(x) && x != SessionState::Consuming && x != SessionState::Decoding
}

/// The channel is still hosted, and the same chunks are parked.
spec fn steady<M, F>(a: EngineView<M, F>, b: EngineView<M, F>, channel: Seq<char>) -> bool {
    &&& a.channels.contains_key(channel) ==> b.channels.contains_key(channel)
    &&& b.parked == a.parked
}

proof fn lemma_sent_undisturbed<S: Strategy, F>(a: EngineView<S::Model, F>, b: EngineView<S::Model, F>, id: SessionId)
    requires
        only_sent::<S, F>(a, b),
    ensures
        undisturbed(a, b, id),
        steady(a, b, id.0),
{
    assert(stage(b, id) == stage(a, id));
    assert(b.channels.dom() == a.channels.dom());
}

proof fn lemma_subscribed_undisturbed<S, F>(
    e: EngineView<S::Model, F::Model>,
    channel: Seq<char>,
    peer: PeerId,
    id: SessionId,
) where S: Strategy<ChunkId = u32, RoutingUpdate = BitMap>, F: StrategyFactory<S>
    ensures
        undisturbed(e, Engine::<S, F>::subscribed(e, channel, peer), id),
        steady(e, Engine::<S, F>::subscribed(e, channel, peer), id.0),
{
}

proof fn lemma_joined_undisturbed<S, F, N>(
    w: World<S::Model, F::Model, N::Model>,
    peer: PeerId,
    channels: Seq<Seq<char>>,
    id: SessionId,
) where
    S: Strategy<ChunkId = u32, RoutingUpdate = BitMap>,
    F: StrategyFactory<S>,
    N: Net,

    ensures
        undisturbed(w.engine, Engine::<S, F>::joined::<N>(w, peer, channels).engine, id),
        steady(w.engine, Engine::<S, F>::joined::<N>(w, peer, channels).engine, id.0),
    decreases channels.len(),
{
    if channels.len() > 0 {
        let w1 = World {
            engine: Engine::<S, F>::subscribed(w.engine, channels[0], peer),
            ..w
        };
        lemma_subscribed_undisturbed::<S, F>(w.engine, channels[0], peer, id);
        lemma_drain_channel::<S, F, N>(w1, channels[0]);
        let w2 = Engine::<S, F>::drain_channel_of::<N>(w1, channels[0]).0;
        lemma_sent_undisturbed::<S, F::Model>(w1.engine, w2.engine, id);
        lemma_joined_undisturbed::<S, F, N>(w2, peer, channels.drop_first(), id);
    }
}

proof fn lemma_taken_undisturbed<S, F>(
    e: EngineView<S::Model, F::Model>,
    other: SessionId,
    chunks: Seq<ParkedView>,
    complete: bool,
    id: SessionId,
) where S: Strategy<ChunkId = u32, RoutingUpdate = BitMap>, F: StrategyFactory<S>
    requires
        other != id || is_over(stage(e, id)),
    ensures
        undisturbed(e, Engine::<S, F>::taken_all(e, other, chunks, complete).0, id),
        steady(e, Engine::<S, F>::taken_all(e, other, chunks, complete).0, id.0),
        other == id ==> Engine::<S, F>::taken_all(e, other, chunks, complete).1 == complete,
    decreases chunks.len(),
{
    if chunks.len() > 0 {
        let (e1, c) = Engine::<S, F>::taken(e, other, chunks[0].chunk_id, chunks[0].payload);
        lemma_taken_one_undisturbed::<S, F>(e, other, chunks[0].chunk_id, chunks[0].payload, id);
        lemma_taken_undisturbed::<S, F>(e1, other, chunks.drop_first(), complete || c, id);
    }
}

proof fn lemma_taken_one_undisturbed<S, F>(
    e: EngineView<S::Model, F::Model>,
    other: SessionId,
    chunk_id: u32,
    payload: Seq<u8>,
    id: SessionId,
) where S: Strategy<ChunkId = u32, RoutingUpdate = BitMap>, F: StrategyFactory<S>
    requires
        other != id || is_over(stage(e, id)),
    ensures
        undisturbed(e, Engine::<S, F>::taken(e, other, chunk_id, payload).0, id),
        steady(e, Engine::<S, F>::taken(e, other, chunk_id, payload).0, id.0),
        other == id ==> !Engine::<S, F>::taken(e, other, chunk_id, payload).1,
{
    let e1 = Engine::<S, F>::taken(e, other, chunk_id, payload).0;
    if other.0 == id.0 && other.1 == id.1 {
        assert(other == id);
    } else {
        assert(e1.session(id) == e.session(id));
    }
}

proof fn lemma_progressed_undisturbed<S, F, N>(
    w: World<S::Model, F::Model, N::Model>,
    other: SessionId,
    complete: bool,
    now: Nanos,
    id: SessionId,
) where
    S: Strategy<ChunkId = u32, RoutingUpdate = BitMap>,
    F: StrategyFactory<S>,
    N: Net,

    requires
        other != id || !complete,
    ensures
        undisturbed(
            w.engine,
            Engine::<S, F>::progressed::<N>(w, other, complete, now).engine,
            id,
        ),
        steady(
            w.engine,
            Engine::<S, F>::progressed::<N>(w, other, complete, now).engine,
            id.0,
        ),
{
    lemma_drain::<S, F, N>(w, other);
    let w1 = Engine::<S, F>::drain::<N>(w, other).0;
    lemma_sent_undisturbed::<S, F::Model>(w.engine, w1.engine, id);
    if complete {
        let b = Engine::<S, F>::decoded::<N>(w1, other, now).engine;
        if let Some(s) = w1.engine.session(other) {
            let s1 = Session::<S>::finished(s).0;
            if other.0 == id.0 && other.1 == id.1 {
                assert(other == id);
            }
            assert(b.channels == w1.engine.with_session(other, s1).channels);
            assert(b.session(id) == w1.engine.session(id));
            if b.delivered != w1.engine.delivered {
                assert(b.delivered.drop_last() =~= w1.engine.delivered);
                assert((b.delivered.last().channel_id, b.delivered.last().message_id) == other);
            }
        }
    }
}

/// The event opens the session or brings a chunk of it.
pub open spec fn concerns(event: NetEventView, id: SessionId) -> bool {
    match event {
        NetEventView::SessionOpen { channel, message_id, .. } => (channel, message_id) == id,
        NetEventView::Chunk { channel, message_id, .. } => (channel, message_id) == id,
        _ => false,
    }
}

proof fn lemma_undisturbed<S, F, N>(
    w: World<S::Model, F::Model, N::Model>,
    event: NetEventView,
    now: Nanos,
    reading: u32,
    id: SessionId,
) where
    S: Strategy<ChunkId = u32, RoutingUpdate = BitMap>,
    F: StrategyFactory<S>,
    N: Net,

    requires
        ({
            ||| is_over(stage(w.engine, id))
            ||| w.engine.session(id) is None && w.engine.tombstoned(id)
            ||| !concerns(event, id)
        }),
    ensures
        ({
            let b = Engine::<S, F>::handled::<N>(w, event, now, reading).engine;
            &&& undisturbed(w.engine, b, id)
            &&& b.tombstones == w.engine.tombstones
            &&& w.engine.channels.contains_key(id.0) ==> b.channels.contains_key(id.0)
            &&& !concerns(event, id) ==> b.parked.contains_key(id) == w.engine.parked.contains_key(id)
        }),
{
    let e = w.engine;
    let b = Engine::<S, F>::handled::<N>(w, event, now, reading).engine;
    lemma_handled::<S, F, N>(w, event, now, reading);
    match event {
        NetEventView::Handshake { peer, version, channels, .. } => {
            let e1 = EngineView { connected: e.connected.insert(peer), ..e };
            let e2 = EngineView { connected: e.connected.remove(peer), ..e };
            assert(e1.session(id) == e.session(id));
            assert(e2.session(id) == e.session(id));
            lemma_joined_undisturbed::<S, F, N>(World { engine: e1, ..w }, peer, channels, id);
        },
        NetEventView::Subscribe { peer, channel } => {
            let w1 = World { engine: Engine::<S, F>::subscribed(e, channel, peer), ..w };
            lemma_subscribed_undisturbed::<S, F>(e, channel, peer, id);
            lemma_drain_channel::<S, F, N>(w1, channel);
            lemma_sent_undisturbed::<S, F::Model>(w1.engine, b, id);
        },
        NetEventView::SessionOpen { channel, message_id, preamble, .. } => {
            let other = (channel, message_id);
            if !e.tombstoned(other) && e.channels.contains_key(other.0) {
                let (c, r) = Channel::<S, F>::opened(e.channels[other.0], other.1, preamble, reading);
                let e1 = EngineView { channels: e.channels.insert(other.0, c), ..e };
                if r is Err {
                    assert(e1.session(id) == e.session(id));
                } else {
                    assert(other != id);
                    assert(e1.session(id) == e.session(id)) by {
                        if other.0 == id.0 {
                            assert(other.1 != id.1);
                        }
                    }
                    let e2 = EngineView { preambles: e1.preambles.insert(other, preamble), ..e1 };
                    let w3 = World { engine: e2.created(other, now), ..w };
                    assert(w3.engine.session(id) == e1.session(id));
                    lemma_drain::<S, F, N>(w3, other);
                    let w4 = Engine::<S, F>::drain::<N>(w3, other).0;
                    lemma_sent_undisturbed::<S, F::Model>(w3.engine, w4.engine, id);
                    if w4.engine.parked.contains_key(other) {
                        let e4 = EngineView { parked: w4.engine.parked.remove(other), ..w4.engine };
                        let chunks = w4.engine.parked[other];
                        assert(e4.session(id) == w4.engine.session(id));
                        lemma_taken_undisturbed::<S, F>(e4, other, chunks, false, id);
                        let (e5, complete) = Engine::<S, F>::taken_all(e4, other, chunks, false);
                        lemma_progressed_undisturbed::<S, F, N>(
                            World { engine: e5, ..w4 },
                            other,
                            complete,
                            now,
                            id,
                        );
                    }
                }
            }
        },
        NetEventView::Chunk { channel, message_id, chunk_id, payload, .. } => {
            let other = (channel, message_id);
            if !e.tombstoned(other) {
                if e.session(other) is Some {
                    let (e1, complete) = Engine::<S, F>::taken(e, other, chunk_id, payload);
                    lemma_taken_one_undisturbed::<S, F>(e, other, chunk_id, payload, id);
                    lemma_progressed_undisturbed::<S, F, N>(
                        World { engine: e1, ..w },
                        other,
                        complete,
                        now,
                        id,
                    );
                } else {
                    assert(b.session(id) == e.session(id));
                }
            }
        },
        NetEventView::ChunkSendResult { peer, channel, message_id, token, ok } => {
            let other = (channel, message_id);
            let key = (channel, message_id, token);
            if e.pending.contains_key(key) {
                let e1 = EngineView { pending: e.pending.remove(key), ..e };
                let e2 = Engine::<S, F>::reported(e1, other, peer, token, ok);
                lemma_bookkeeping::<S, F::Model>(e, e1);
                lemma_reported::<S, F>(e1, other, peer, token, ok);
                lemma_drain::<S, F, N>(World { engine: e2, ..w }, other);
                lemma_only_sent_trans::<S, F::Model>(e, e1, e2);
                lemma_only_sent_trans::<S, F::Model>(e, e2, b);
                lemma_sent_undisturbed::<S, F::Model>(e, b, id);
            }
        },
        NetEventView::PeerConnected { peer } => {
            assert(b.session(id) == e.session(id));
        },
        NetEventView::PeerReconstructed { peer, channel, message_id } => {
            let other = (channel, message_id);
            if !(other.0 == id.0 && other.1 == id.1) {
                assert(b.session(id) == e.session(id));
            }
        },
        NetEventView::SessionClosed { peer, channel, message_id } => {
            let other = (channel, message_id);
            if !(other.0 == id.0 && other.1 == id.1) {
                assert(b.session(id) == e.session(id));
            }
        },
        _ => {},
    }
}

/// A session that is over, or is disposed and has its tombstone, stays as it
/// is, whatever comes: nothing more is delivered for it, and its times stand.
pub proof fn law_finished_session_delivers_no_more<S, F, N>(
    w: World<S::Model, F::Model, N::Model>,
    event: NetEventView,
    now: Nanos,
    reading: u32,
    id: SessionId,
) where
    S: Strategy<ChunkId = u32, RoutingUpdate = BitMap>,
    F: StrategyFactory<S>,
    N: Net,

    requires
        is_over(stage(w.engine, id)) || (w.engine.session(id) is None && w.engine.tombstoned(id)),
    ensures
        undisturbed(
            w.engine,
            Engine::<S, F>::handled::<N>(w, event, now, reading).engine,
            id,
        ),
        Engine::<S, F>::handled::<N>(w, event, now, reading).engine.tombstones == w.engine.tombstones,
{
    lemma_undisturbed::<S, F, N>(w, event, now, reading, id);
}

/// An event that neither opens a session nor brings a chunk of it leaves the
/// session where it is: nothing is delivered or parked for it.
pub proof fn law_other_events_leave_session_alone<S, F, N>(
    w: World<S::Model, F::Model, N::Model>,
    event: NetEventView,
    now: Nanos,
    reading: u32,
    id: SessionId,
) where
    S: Strategy<ChunkId = u32, RoutingUpdate = BitMap>,
    F: StrategyFactory<S>,
    N: Net,

    requires
        !concerns(event, id),
    ensures
        ({
            let b = Engine::<S, F>::handled::<N>(w, event, now, reading).engine;
            &&& undisturbed(w.engine, b, id)
            &&& b.tombstones == w.engine.tombstones
            &&& w.engine.channels.contains_key(id.0) ==> b.channels.contains_key(id.0)
            &&& b.parked.contains_key(id) == w.engine.parked.contains_key(id)
        }),
{
    lemma_undisturbed::<S, F, N>(w, event, now, reading, id);
}

} // verus!
