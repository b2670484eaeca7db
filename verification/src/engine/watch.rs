//! What holds of an engine and its transport through whatever the engine
//! does.

use vstd::prelude::*;

use crate::channel::{Channel, StrategyFactory};
use crate::engine::laws;
use crate::engine::model;
use crate::engine::model::{EngineView, FrameView, ParkedView, SessionId, World};
use crate::engine::{Engine, Nanos};
use crate::order;
use crate::runtime::{Net, NetEventView, NetSendView};
use crate::session::Session;
use crate::strategy::bitmap;
use crate::strategy::bitmap::BitMap;
use crate::strategy::dispatch::DispatchView;
use crate::strategy::{PeerId, Strategy};

verus! {

/// The message goes to `peer` on the stream of the session, or as a chunk of
/// it.
pub open spec fn uses(msg: NetSendView, id: SessionId, peer: PeerId) -> bool {
    match msg {
        NetSendView::RoutingUpdate { peer: p, channel, message_id, .. } => p == peer && id == (
            channel,
            message_id,
        ),
        NetSendView::Chunk { peer: p, channel, message_id, .. } => p == peer && id == (
            channel,
            message_id,
        ),
        _ => false,
    }
}

/// The message belongs to no session stream.
pub open spec fn aside(msg: NetSendView) -> bool {
    msg is Handshake || msg is Subscribe || msg is SessionReconstructed
}

/// A property of an engine and its transport that rests on what the
/// transport is handed, on who has which session open, and on the preamble
/// of one session.
pub trait Watch<S, F, N>: Sized where
    S: Strategy<ChunkId = u32, RoutingUpdate = BitMap>,
    F: StrategyFactory<S>,
    N: Net,
 {
    spec fn holds(self, w: World<S::Model, F::Model, N::Model>) -> bool;

    /// The session whose preamble matters.
    spec fn subject(self) -> SessionId;

    /// No preamble matters.
    spec fn loose(self) -> bool;

    proof fn keeps_engine(
        self,
        w: World<S::Model, F::Model, N::Model>,
        e: EngineView<S::Model, F::Model>,
    )
        requires
            self.holds(w),
            e.opened == w.engine.opened,
            self.loose() || same_preamble(w.engine, e, self.subject()),
        ensures
            self.holds(World { engine: e, ..w }),
    ;

    proof fn keeps_open(
        self,
        w: World<S::Model, F::Model, N::Model>,
        id: SessionId,
        peer: PeerId,
    )
        requires
            self.holds(w),
        ensures
            self.holds(Engine::<S, F>::ensured::<N>(w, id, peer).0),
    ;

    proof fn keeps_use(
        self,
        w: World<S::Model, F::Model, N::Model>,
        id: SessionId,
        peer: PeerId,
        msg: NetSendView,
    )
        requires
            self.holds(w),
            uses(msg, id, peer),
            w.engine.opened_to(id).contains(peer) || !w.engine.preambles.contains_key(id),
        ensures
            self.holds(model::submitted::<S::Model, F::Model, N>(w, msg).0),
    ;

    proof fn keeps_aside(self, w: World<S::Model, F::Model, N::Model>, msg: NetSendView)
        requires
            self.holds(w),
            aside(msg),
        ensures
            self.holds(model::submitted::<S::Model, F::Model, N>(w, msg).0),
    ;
}

/// The engines retain the same preamble of a session, or none.
pub open spec fn same_preamble<M, F>(a: EngineView<M, F>, b: EngineView<M, F>, id: SessionId) -> bool {
    &&& a.preambles.contains_key(id) == b.preambles.contains_key(id)
    &&& a.preambles.contains_key(id) ==> a.preambles[id] == b.preambles[id]
}

/// The property holds, and the session that it tracks, if it tracks one, is
/// live.
pub open spec fn stands<S, F, N, W>(x: W, w: World<S::Model, F::Model, N::Model>) -> bool where
    S: Strategy<ChunkId = u32, RoutingUpdate = BitMap>,
    F: StrategyFactory<S>,
    N: Net,
    W: Watch<S, F, N>,
 {
    &&& x.holds(w)
    &&& x.loose() || w.engine.session(x.subject()) is Some
}

proof fn lemma_frame<S, F, N, W>(x: W, w: World<S::Model, F::Model, N::Model>, f: FrameView) where
    S: Strategy<ChunkId = u32, RoutingUpdate = BitMap>,
    F: StrategyFactory<S>,
    N: Net,
    W: Watch<S, F, N>,

    requires
        x.holds(w),
    ensures
        x.holds(Engine::<S, F>::frame_sent::<N>(w, f).0),
        Engine::<S, F>::frame_sent::<N>(w, f).0.engine.channels == w.engine.channels,
{
    let msg = Engine::<S, F>::frame_message(w.engine, f);
    x.keeps_aside(w, msg);
    let w1 = model::submitted::<S::Model, F::Model, N>(w, msg).0;
    x.keeps_engine(w1, Engine::<S, F>::frame_sent::<N>(w, f).0.engine);
}

proof fn lemma_frames<S, F, N, W>(
    x: W,
    w: World<S::Model, F::Model, N::Model>,
    frames: Seq<FrameView>,
) where
    S: Strategy<ChunkId = u32, RoutingUpdate = BitMap>,
    F: StrategyFactory<S>,
    N: Net,
    W: Watch<S, F, N>,

    requires
        x.holds(w),
    ensures
        x.holds(Engine::<S, F>::frames_sent::<N>(w, frames)),
    decreases frames.len(),
{
    if frames.len() > 0 {
        lemma_frame::<S, F, N, W>(x, w, frames[0]);
        let w1 = Engine::<S, F>::frame_sent::<N>(w, frames[0]).0;
        lemma_frames::<S, F, N, W>(x, w1, frames.drop_first());
    }
}

proof fn lemma_caught_up<S, F, N, W>(x: W, w: World<S::Model, F::Model, N::Model>) where
    S: Strategy<ChunkId = u32, RoutingUpdate = BitMap>,
    F: StrategyFactory<S>,
    N: Net,
    W: Watch<S, F, N>,

    requires
        x.holds(w),
    ensures
        x.holds(Engine::<S, F>::caught_up::<N>(w)),
{
    let e = EngineView { owed: Seq::empty(), ..w.engine };
    x.keeps_engine(w, e);
    lemma_frames::<S, F, N, W>(x, World { engine: e, ..w }, w.engine.owed);
}

proof fn lemma_update<S, F, N, W>(
    x: W,
    w: World<S::Model, F::Model, N::Model>,
    id: SessionId,
    peer: PeerId,
    payload: Seq<u8>,
) where
    S: Strategy<ChunkId = u32, RoutingUpdate = BitMap>,
    F: StrategyFactory<S>,
    N: Net,
    W: Watch<S, F, N>,

    requires
        x.holds(w),
    ensures
        x.holds(Engine::<S, F>::update_sent::<N>(w, id, peer, payload).0),
{
    x.keeps_open(w, id, peer);
    let (w1, r1) = Engine::<S, F>::ensured::<N>(w, id, peer);
    let b = Engine::<S, F>::update_sent::<N>(w, id, peer, payload).0;
    if r1 is Ok {
        let msg = NetSendView::RoutingUpdate { peer, channel: id.0, message_id: id.1, payload };
        assert(id == (id.0, id.1));
        x.keeps_use(w1, id, peer, msg);
        let w2 = model::submitted::<S::Model, F::Model, N>(w1, msg).0;
        x.keeps_engine(w2, b.engine);
    } else {
        x.keeps_engine(w1, b.engine);
    }
}

proof fn lemma_routing<S, F, N, W>(
    x: W,
    w: World<S::Model, F::Model, N::Model>,
    id: SessionId,
    peers: Seq<PeerId>,
    payload: Seq<u8>,
) where
    S: Strategy<ChunkId = u32, RoutingUpdate = BitMap>,
    F: StrategyFactory<S>,
    N: Net,
    W: Watch<S, F, N>,

    requires
        x.holds(w),
    ensures
        x.holds(Engine::<S, F>::routing_sent::<N>(w, id, peers, payload).0),
    decreases peers.len(),
{
    if peers.len() > 0 {
        lemma_update::<S, F, N, W>(x, w, id, peers[0], payload);
        let w1 = Engine::<S, F>::update_sent::<N>(w, id, peers[0], payload).0;
        lemma_routing::<S, F, N, W>(x, w1, id, peers.drop_first(), payload);
    }
}

proof fn lemma_due<S, F, N, W>(
    x: W,
    w: World<S::Model, F::Model, N::Model>,
    id: SessionId,
    peers: Seq<PeerId>,
) where
    S: Strategy<ChunkId = u32, RoutingUpdate = BitMap>,
    F: StrategyFactory<S>,
    N: Net,
    W: Watch<S, F, N>,

    requires
        x.holds(w),
    ensures
        x.holds(Engine::<S, F>::due_sent::<N>(w, id, peers).0),
    decreases peers.len(),
{
    if peers.len() > 0 {
        let key = (id.0, id.1, peers[0]);
        if w.engine.due.contains_key(key) {
            lemma_update::<S, F, N, W>(x, w, id, peers[0], w.engine.due[key]);
            let w1 = Engine::<S, F>::update_sent::<N>(w, id, peers[0], w.engine.due[key]).0;
            lemma_due::<S, F, N, W>(x, w1, id, peers.drop_first());
        } else {
            lemma_due::<S, F, N, W>(x, w, id, peers.drop_first());
        }
    }
}

proof fn lemma_refund<S, F>(
    e: EngineView<S::Model, F::Model>,
    id: SessionId,
    ds: Seq<DispatchView<u32>>,
) where S: Strategy<ChunkId = u32, RoutingUpdate = BitMap>, F: StrategyFactory<S>
    ensures
        ({
            let b = Engine::<S, F>::refunded(e, id, ds);
            b == EngineView { channels: b.channels, ..e }
        }),
    decreases ds.len(),
{
    if ds.len() > 0 {
        let e1 = Engine::<S, F>::reported(e, id, ds[0].peer, ds[0].handle, false);
        lemma_refund::<S, F>(e1, id, ds.drop_first());
    }
}

proof fn lemma_chunks<S, F, N, W>(
    x: W,
    w: World<S::Model, F::Model, N::Model>,
    id: SessionId,
    ds: Seq<DispatchView<u32>>,
    stalled: bool,
) where
    S: Strategy<ChunkId = u32, RoutingUpdate = BitMap>,
    F: StrategyFactory<S>,
    N: Net,
    W: Watch<S, F, N>,

    requires
        x.holds(w),
    ensures
        x.holds(Engine::<S, F>::chunks_sent::<N>(w, id, ds, stalled).0),
    decreases ds.len(),
{
    if ds.len() > 0 {
        let d = ds[0];
        x.keeps_open(w, id, d.peer);
        let (w1, r) = Engine::<S, F>::ensured::<N>(w, id, d.peer);
        if r is Ok {
            let msg = NetSendView::Chunk {
                peer: d.peer,
                channel: id.0,
                message_id: id.1,
                chunk_id: d.chunk_id,
                payload: d.payload,
                token: d.handle,
            };
            assert(id == (id.0, id.1));
            x.keeps_use(w1, id, d.peer, msg);
            let sent = model::submitted::<S::Model, F::Model, N>(w1, msg).0;
            let (w2, refunded) = Engine::<S, F>::chunk_sent::<N>(w1, id, d);
            x.keeps_engine(sent, w2.engine);
            lemma_chunks::<S, F, N, W>(x, w2, id, ds.drop_first(), stalled || refunded);
        } else {
            lemma_refund::<S, F>(w1.engine, id, ds);
            x.keeps_engine(w1, Engine::<S, F>::refunded(w1.engine, id, ds));
        }
    }
}

proof fn lemma_work<S, F, N, W>(
    x: W,
    w: World<S::Model, F::Model, N::Model>,
    id: SessionId,
    routing: Option<Seq<bool>>,
    ds: Seq<DispatchView<u32>>,
) where
    S: Strategy<ChunkId = u32, RoutingUpdate = BitMap>,
    F: StrategyFactory<S>,
    N: Net,
    W: Watch<S, F, N>,

    requires
        x.holds(w),
    ensures
        x.holds(Engine::<S, F>::work_sent::<N>(w, id, routing, ds).0),
{
    match routing {
        Some(bits) => {
            let peers = order::ascending(w.engine.channels[id.0].subscribers);
            let payload = bitmap::packed(bits);
            lemma_routing::<S, F, N, W>(x, w, id, peers, payload);
            let w1 = Engine::<S, F>::routing_sent::<N>(w, id, peers, payload).0;
            lemma_chunks::<S, F, N, W>(x, w1, id, ds, false);
            lemma_refund::<S, F>(w1.engine, id, ds);
            x.keeps_engine(w1, Engine::<S, F>::refunded(w1.engine, id, ds));
        },
        None => {
            lemma_chunks::<S, F, N, W>(x, w, id, ds, false);
        },
    }
}

proof fn lemma_drained<S, F, N, W>(
    x: W,
    w: World<S::Model, F::Model, N::Model>,
    id: SessionId,
    rounds: nat,
) where
    S: Strategy<ChunkId = u32, RoutingUpdate = BitMap>,
    F: StrategyFactory<S>,
    N: Net,
    W: Watch<S, F, N>,

    requires
        x.holds(w),
    ensures
        x.holds(Engine::<S, F>::drained::<N>(w, id, rounds).0),
    decreases rounds,
{
    if rounds > 0 {
        if let Some(s) = w.engine.session(id) {
            let (s1, routing, ds) = Session::<S>::polled(s);
            let w1 = World { engine: w.engine.with_session(id, s1), ..w };
            x.keeps_engine(w, w1.engine);
            if !(routing is None && ds.len() == 0) {
                lemma_work::<S, F, N, W>(x, w1, id, routing, ds);
                let w2 = Engine::<S, F>::work_sent::<N>(w1, id, routing, ds).0;
                lemma_drained::<S, F, N, W>(x, w2, id, (rounds - 1) as nat);
            }
        }
    }
}

/// Draining a session keeps the property.
pub(crate) proof fn lemma_drain<S, F, N, W>(
    x: W,
    w: World<S::Model, F::Model, N::Model>,
    id: SessionId,
) where
    S: Strategy<ChunkId = u32, RoutingUpdate = BitMap>,
    F: StrategyFactory<S>,
    N: Net,
    W: Watch<S, F, N>,

    requires
        stands::<S, F, N, W>(x, w),
    ensures
        stands::<S, F, N, W>(x, Engine::<S, F>::drain::<N>(w, id).0),
{
    laws::lemma_drain::<S, F, N>(w, id);
    let b = Engine::<S, F>::drain::<N>(w, id).0.engine;
    assert(laws::stage(b, x.subject()) == laws::stage(w.engine, x.subject()));
    if let Some(s) = w.engine.session(id) {
        let peers = order::ascending(w.engine.channels[id.0].subscribers);
        lemma_caught_up::<S, F, N, W>(x, w);
        let w0 = Engine::<S, F>::caught_up::<N>(w);
        lemma_due::<S, F, N, W>(x, w0, id, peers);
        let w1 = Engine::<S, F>::due_sent::<N>(w0, id, peers).0;
        lemma_drained::<S, F, N, W>(x, w1, id, S::backlog(s.strategy) + 1);
    }
}

proof fn lemma_drained_all<S, F, N, W>(
    x: W,
    w: World<S::Model, F::Model, N::Model>,
    channel: Seq<char>,
    messages: Seq<Seq<char>>,
) where
    S: Strategy<ChunkId = u32, RoutingUpdate = BitMap>,
    F: StrategyFactory<S>,
    N: Net,
    W: Watch<S, F, N>,

    requires
        stands::<S, F, N, W>(x, w),
    ensures
        stands::<S, F, N, W>(x, Engine::<S, F>::drained_all::<N>(w, channel, messages).0),
    decreases messages.len(),
{
    if messages.len() > 0 {
        lemma_drain::<S, F, N, W>(x, w, (channel, messages[0]));
        let w1 = Engine::<S, F>::drain::<N>(w, (channel, messages[0])).0;
        lemma_drained_all::<S, F, N, W>(x, w1, channel, messages.drop_first());
    }
}

proof fn lemma_drain_channel<S, F, N, W>(
    x: W,
    w: World<S::Model, F::Model, N::Model>,
    channel: Seq<char>,
) where
    S: Strategy<ChunkId = u32, RoutingUpdate = BitMap>,
    F: StrategyFactory<S>,
    N: Net,
    W: Watch<S, F, N>,

    requires
        stands::<S, F, N, W>(x, w),
    ensures
        stands::<S, F, N, W>(x, Engine::<S, F>::drain_channel_of::<N>(w, channel).0),
{
    if w.engine.channels.contains_key(channel) {
        lemma_caught_up::<S, F, N, W>(x, w);
        laws::lemma_caught_up::<S, F, N>(w);
        let w0 = Engine::<S, F>::caught_up::<N>(w);
        assert(w0.engine.session(x.subject()) == w.engine.session(x.subject()));
        lemma_drained_all::<S, F, N, W>(
            x,
            w0,
            channel,
            order::alphabetical(w.engine.channels[channel].sessions.dom()),
        );
    }
}

proof fn lemma_subscribed<S, F, N, W>(
    x: W,
    w: World<S::Model, F::Model, N::Model>,
    channel: Seq<char>,
    peer: PeerId,
) where
    S: Strategy<ChunkId = u32, RoutingUpdate = BitMap>,
    F: StrategyFactory<S>,
    N: Net,
    W: Watch<S, F, N>,

    requires
        stands::<S, F, N, W>(x, w),
    ensures
        stands::<S, F, N, W>(
            x,
            World { engine: Engine::<S, F>::subscribed(w.engine, channel, peer), ..w },
        ),
{
    x.keeps_engine(w, Engine::<S, F>::subscribed(w.engine, channel, peer));
}

proof fn lemma_joined<S, F, N, W>(
    x: W,
    w: World<S::Model, F::Model, N::Model>,
    peer: PeerId,
    channels: Seq<Seq<char>>,
) where
    S: Strategy<ChunkId = u32, RoutingUpdate = BitMap>,
    F: StrategyFactory<S>,
    N: Net,
    W: Watch<S, F, N>,

    requires
        stands::<S, F, N, W>(x, w),
    ensures
        stands::<S, F, N, W>(x, Engine::<S, F>::joined::<N>(w, peer, channels)),
    decreases channels.len(),
{
    if channels.len() > 0 {
        lemma_subscribed::<S, F, N, W>(x, w, channels[0], peer);
        let w1 = World { engine: Engine::<S, F>::subscribed(w.engine, channels[0], peer), ..w };
        lemma_drain_channel::<S, F, N, W>(x, w1, channels[0]);
        let w2 = Engine::<S, F>::drain_channel_of::<N>(w1, channels[0]).0;
        lemma_joined::<S, F, N, W>(x, w2, peer, channels.drop_first());
    }
}

/// Introducing the engine to a peer keeps the property.
pub(crate) proof fn lemma_introduced<S, F, N, W>(
    x: W,
    w: World<S::Model, F::Model, N::Model>,
    peer: PeerId,
) where
    S: Strategy<ChunkId = u32, RoutingUpdate = BitMap>,
    F: StrategyFactory<S>,
    N: Net,
    W: Watch<S, F, N>,

    requires
        stands::<S, F, N, W>(x, w),
    ensures
        stands::<S, F, N, W>(x, Engine::<S, F>::introduced::<N>(w, peer).0),
{
    if !w.engine.connected.contains(peer) {
        let e = EngineView { connected: w.engine.connected.insert(peer), ..w.engine };
        x.keeps_engine(w, e);
        assert(e.session(x.subject()) == w.engine.session(x.subject()));
        lemma_frame::<S, F, N, W>(x, World { engine: e, ..w }, FrameView::Handshake { peer });
        let b = Engine::<S, F>::introduced::<N>(w, peer).0;
        assert(b.engine.session(x.subject()) == e.session(x.subject()));
    }
}

proof fn lemma_decoded<S, F, N, W>(
    x: W,
    w: World<S::Model, F::Model, N::Model>,
    id: SessionId,
    now: Nanos,
) where
    S: Strategy<ChunkId = u32, RoutingUpdate = BitMap>,
    F: StrategyFactory<S>,
    N: Net,
    W: Watch<S, F, N>,

    requires
        stands::<S, F, N, W>(x, w),
    ensures
        stands::<S, F, N, W>(x, Engine::<S, F>::decoded::<N>(w, id, now)),
{
    let b = Engine::<S, F>::decoded::<N>(w, id, now);
    if let Some(s) = w.engine.session(id) {
        x.keeps_engine(w, b.engine);
        let w1 = World { engine: b.engine, ..w };
        let (s1, r) = Session::<S>::finished(s);
        if r is Ok {
            x.keeps_aside(
                w1,
                NetSendView::SessionReconstructed { channel: id.0, message_id: id.1 },
            );
        }
        assert(w.engine.with_session(id, s1).session(x.subject()) is Some
            == w.engine.session(x.subject()) is Some);
        assert(b.engine.channels == w.engine.with_session(id, s1).channels);
        assert(b.engine.session(x.subject()) == w.engine.with_session(id, s1).session(x.subject()));
    }
}

proof fn lemma_progressed<S, F, N, W>(
    x: W,
    w: World<S::Model, F::Model, N::Model>,
    id: SessionId,
    complete: bool,
    now: Nanos,
) where
    S: Strategy<ChunkId = u32, RoutingUpdate = BitMap>,
    F: StrategyFactory<S>,
    N: Net,
    W: Watch<S, F, N>,

    requires
        stands::<S, F, N, W>(x, w),
    ensures
        stands::<S, F, N, W>(x, Engine::<S, F>::progressed::<N>(w, id, complete, now)),
{
    lemma_drain::<S, F, N, W>(x, w, id);
    lemma_decoded::<S, F, N, W>(x, Engine::<S, F>::drain::<N>(w, id).0, id, now);
}

proof fn lemma_taken<S, F>(
    e: EngineView<S::Model, F::Model>,
    id: SessionId,
    chunks: Seq<ParkedView>,
    complete: bool,
    t: SessionId,
) where S: Strategy<ChunkId = u32, RoutingUpdate = BitMap>, F: StrategyFactory<S>
    ensures
        Engine::<S, F>::taken_all(e, id, chunks, complete).0.session(t) is Some == e.session(t) is Some,
    decreases chunks.len(),
{
    if chunks.len() > 0 {
        let (e1, c) = Engine::<S, F>::taken(e, id, chunks[0].chunk_id, chunks[0].payload);
        lemma_taken::<S, F>(e1, id, chunks.drop_first(), complete || c, t);
    }
}

pub(crate) proof fn lemma_replayed<S, F, N, W>(
    x: W,
    w: World<S::Model, F::Model, N::Model>,
    id: SessionId,
    now: Nanos,
) where
    S: Strategy<ChunkId = u32, RoutingUpdate = BitMap>,
    F: StrategyFactory<S>,
    N: Net,
    W: Watch<S, F, N>,

    requires
        stands::<S, F, N, W>(x, w),
    ensures
        stands::<S, F, N, W>(x, Engine::<S, F>::replayed::<N>(w, id, now)),
{
    if w.engine.parked.contains_key(id) {
        let e = EngineView { parked: w.engine.parked.remove(id), ..w.engine };
        let (e1, complete) = Engine::<S, F>::taken_all(e, id, w.engine.parked[id], false);
        laws::lemma_taken_all::<S, F>(e, id, w.engine.parked[id], false);
        lemma_taken::<S, F>(e, id, w.engine.parked[id], false, x.subject());
        assert(e.session(x.subject()) == w.engine.session(x.subject()));
        x.keeps_engine(w, e1);
        lemma_progressed::<S, F, N, W>(x, World { engine: e1, ..w }, id, complete, now);
    }
}

proof fn lemma_opened<S, F, N, W>(
    x: W,
    w: World<S::Model, F::Model, N::Model>,
    id: SessionId,
    preamble: Seq<u8>,
    now: Nanos,
    reading: u32,
) where
    S: Strategy<ChunkId = u32, RoutingUpdate = BitMap>,
    F: StrategyFactory<S>,
    N: Net,
    W: Watch<S, F, N>,

    requires
        stands::<S, F, N, W>(x, w),
    ensures
        stands::<S, F, N, W>(x, Engine::<S, F>::opened::<N>(w, id, preamble, now, reading)),
{
    let e = w.engine;
    let t = x.subject();
    if !e.tombstoned(id) && e.channels.contains_key(id.0) {
        let (c, r) = Channel::<S, F>::opened(e.channels[id.0], id.1, preamble, reading);
        let e1 = EngineView { channels: e.channels.insert(id.0, c), ..e };
        assert(e.session(t) is Some ==> e1.session(t) is Some);
        if r is Err {
            x.keeps_engine(w, e1);
        } else {
            let e2 = EngineView { preambles: e1.preambles.insert(id, preamble), ..e1 };
            let e3 = e2.created(id, now);
            assert(!x.loose() ==> id != t) by {
                if id == t {
                    assert(e.session(id) is None);
                }
            }
            x.keeps_engine(w, e3);
            assert(e3.channels == e1.channels);
            assert(e3.session(t) == e1.session(t));
            let w3 = World { engine: e3, ..w };
            lemma_drain::<S, F, N, W>(x, w3, id);
            lemma_replayed::<S, F, N, W>(x, Engine::<S, F>::drain::<N>(w3, id).0, id, now);
        }
    }
}

/// Handling an event keeps the property, unless a peer is gone.
pub(crate) proof fn lemma_handled<S, F, N, W>(
    x: W,
    w: World<S::Model, F::Model, N::Model>,
    event: NetEventView,
    now: Nanos,
    reading: u32,
) where
    S: Strategy<ChunkId = u32, RoutingUpdate = BitMap>,
    F: StrategyFactory<S>,
    N: Net,
    W: Watch<S, F, N>,

    requires
        stands::<S, F, N, W>(x, w),
        !(event is PeerDisconnected),
    ensures
        stands::<S, F, N, W>(x, Engine::<S, F>::handled::<N>(w, event, now, reading)),
{
    let e = w.engine;
    let t = x.subject();
    let b = Engine::<S, F>::handled::<N>(w, event, now, reading);
    match event {
        NetEventView::Handshake { peer, version, channels, .. } => {
            let e1 = EngineView { connected: e.connected.insert(peer), ..e };
            let e2 = EngineView { connected: e.connected.remove(peer), ..e };
            x.keeps_engine(w, e1);
            x.keeps_engine(w, e2);
            assert(e1.session(t) == e.session(t));
            assert(e2.session(t) == e.session(t));
            lemma_joined::<S, F, N, W>(x, World { engine: e1, ..w }, peer, channels);
        },
        NetEventView::Subscribe { peer, channel } => {
            lemma_subscribed::<S, F, N, W>(x, w, channel, peer);
            lemma_drain_channel::<S, F, N, W>(
                x,
                World { engine: Engine::<S, F>::subscribed(e, channel, peer), ..w },
                channel,
            );
        },
        NetEventView::Unsubscribe { peer, channel } => {
            x.keeps_engine(w, b.engine);
        },
        NetEventView::SessionOpen { channel, message_id, preamble, .. } => {
            lemma_opened::<S, F, N, W>(x, w, (channel, message_id), preamble, now, reading);
        },
        NetEventView::Chunk { channel, message_id, chunk_id, payload, .. } => {
            let id = (channel, message_id);
            if !e.tombstoned(id) {
                if e.session(id) is None {
                    x.keeps_engine(w, b.engine);
                    assert(b.engine.session(t) == e.session(t));
                } else {
                    let (e1, complete) = Engine::<S, F>::taken(e, id, chunk_id, payload);
                    x.keeps_engine(w, e1);
                    lemma_progressed::<S, F, N, W>(x, World { engine: e1, ..w }, id, complete, now);
                }
            }
        },
        NetEventView::PeerConnected { peer } => {
            lemma_introduced::<S, F, N, W>(x, w, peer);
        },
        NetEventView::ChunkSendResult { peer, channel, message_id, token, ok } => {
            let id = (channel, message_id);
            let key = (channel, message_id, token);
            if e.pending.contains_key(key) {
                let e1 = EngineView { pending: e.pending.remove(key), ..e };
                let e2 = Engine::<S, F>::reported(e1, id, peer, token, ok);
                assert(e1.session(t) == e.session(t));
                assert(e2.session(t) is Some == e1.session(t) is Some);
                x.keeps_engine(w, e2);
                lemma_drain::<S, F, N, W>(x, World { engine: e2, ..w }, id);
            }
        },
        NetEventView::PeerReconstructed { .. } => {
            x.keeps_engine(w, b.engine);
        },
        NetEventView::SessionClosed { .. } => {
            x.keeps_engine(w, b.engine);
        },
        _ => {},
    }
}

pub(crate) proof fn lemma_ensured_all<S, F, N, W>(
    x: W,
    w: World<S::Model, F::Model, N::Model>,
    id: SessionId,
    peers: Seq<PeerId>,
) where
    S: Strategy<ChunkId = u32, RoutingUpdate = BitMap>,
    F: StrategyFactory<S>,
    N: Net,
    W: Watch<S, F, N>,

    requires
        stands::<S, F, N, W>(x, w),
    ensures
        stands::<S, F, N, W>(x, Engine::<S, F>::ensured_all::<N>(w, id, peers).0),
    decreases peers.len(),
{
    if peers.len() > 0 {
        x.keeps_open(w, id, peers[0]);
        let w1 = Engine::<S, F>::ensured::<N>(w, id, peers[0]).0;
        assert(w1.engine.session(x.subject()) == w.engine.session(x.subject()));
        lemma_ensured_all::<S, F, N, W>(x, w1, id, peers.drop_first());
    }
}

/// Publishing keeps the property.
pub(crate) proof fn lemma_published<S, F, N, W>(
    x: W,
    w: World<S::Model, F::Model, N::Model>,
    id: SessionId,
    strategy: S::Model,
    preamble: Seq<u8>,
    now: Nanos,
) where
    S: Strategy<ChunkId = u32, RoutingUpdate = BitMap>,
    F: StrategyFactory<S>,
    N: Net,
    W: Watch<S, F, N>,

    requires
        stands::<S, F, N, W>(x, w),
    ensures
        stands::<S, F, N, W>(
            x,
            Engine::<S, F>::published::<N>(w, id, strategy, preamble, now).0,
        ),
{
    let e = w.engine;
    let t = x.subject();
    if e.channels.contains_key(id.0) {
        let (c, r) = Channel::<S, F>::started(e.channels[id.0], id.1, strategy);
        if r is Ok {
            let e1 = EngineView {
                channels: e.channels.insert(id.0, c),
                preambles: e.preambles.insert(id, preamble),
                ..e
            };
            let e2 = e1.created(id, now);
            assert(!x.loose() ==> id != t) by {
                if id == t {
                    assert(e.session(id) is None);
                }
            }
            assert(e.session(t) is Some ==> e1.session(t) is Some);
            assert(e2.session(t) == e1.session(t));
            x.keeps_engine(w, e2);
            let w1 = World { engine: e2, ..w };
            let peers = order::ascending(c.subscribers);
            lemma_ensured_all::<S, F, N, W>(x, w1, id, peers);
            lemma_drain::<S, F, N, W>(x, Engine::<S, F>::ensured_all::<N>(w1, id, peers).0, id);
        }
    }
}

/// Announcing a local subscription keeps the property.
pub(crate) proof fn lemma_announced<S, F, N, W>(
    x: W,
    w: World<S::Model, F::Model, N::Model>,
    channel: Seq<char>,
    peers: Seq<PeerId>,
) where
    S: Strategy<ChunkId = u32, RoutingUpdate = BitMap>,
    F: StrategyFactory<S>,
    N: Net,
    W: Watch<S, F, N>,

    requires
        stands::<S, F, N, W>(x, w),
    ensures
        stands::<S, F, N, W>(x, Engine::<S, F>::announced::<N>(w, channel, peers).0),
    decreases peers.len(),
{
    if peers.len() > 0 {
        let f = FrameView::Subscribe { peer: peers[0], channel };
        lemma_frame::<S, F, N, W>(x, w, f);
        let w1 = Engine::<S, F>::frame_sent::<N>(w, f).0;
        assert(w1.engine.session(x.subject()) == w.engine.session(x.subject()));
        lemma_announced::<S, F, N, W>(x, w1, channel, peers.drop_first());
    }
}

} // verus!
