//! A session is opened to a peer before anything else of it goes there.

use vstd::prelude::*;

use crate::channel::{Channel, StrategyFactory};
use crate::engine::model;
use crate::engine::model::{EngineView, FrameView, SessionId, World};
use crate::engine::watch;
use crate::engine::watch::Watch;
use crate::engine::{Engine, Nanos};
use crate::order;
use crate::runtime::{Net, NetError, NetEventView, NetSend, NetSendView};
use crate::session::Session;
use crate::strategy::bitmap;
use crate::strategy::bitmap::BitMap;
use crate::strategy::dispatch::DispatchView;
use crate::strategy::{PeerId, Strategy};

verus! {

/// A message handed to a transport, and whether the transport took it.
pub ghost struct Post {
    pub msg: NetSendView,
    pub ok: bool,
}

/// A transport that remembers, for proofs, what it was handed.
pub struct Logged<N> {
    net: N,
    log: Ghost<Seq<Post>>,
}

impl<N: Net> Logged<N> {
    /// Remembers from now on what `net` is handed.
    pub fn new(net: N) -> (r: Self)
        ensures
            r.model() == (net.model(), Seq::<Post>::empty()),
    {
        Logged { net, log: Ghost(Seq::empty()) }
    }
}

impl<N: Net> Net for Logged<N> {
    type Model = (N::Model, Seq<Post>);

    closed spec fn model(&self) -> (N::Model, Seq<Post>) {
        (self.net.model(), self.log@)
    }

    open spec fn sent(m: (N::Model, Seq<Post>), msg: NetSendView) -> (
        (N::Model, Seq<Post>),
        Result<(), NetError>,
    ) {
        let (n, r) = N::sent(m.0, msg);
        ((n, m.1.push(Post { msg, ok: r is Ok })), r)
    }

    fn send(&mut self, msg: NetSend) -> (r: Result<(), NetError>) {
        let ghost handed = msg@;
        let r = self.net.send(msg);
        proof {
            self.log@ = self.log@.push(Post { msg: handed, ok: r is Ok });
        }
        r
    }
}

/// The transport took the message, which opens the session to `peer`.
pub open spec fn opens(p: Post, id: SessionId, peer: PeerId) -> bool {
    p.ok && announces(p.msg, id, peer)
}

/// The message opens the session to `peer`.
pub open spec fn announces(msg: NetSendView, id: SessionId, peer: PeerId) -> bool {
    msg matches NetSendView::SessionOpen { peer: p, channel, message_id, .. } && p == peer && id == (
        channel,
        message_id,
    )
}

/// One of the first `n` messages opened the session to `peer`.
pub open spec fn opened_within(log: Seq<Post>, id: SessionId, peer: PeerId, n: int) -> bool {
    exists|j: int| 0 <= j < n && #[trigger] opens(log[j], id, peer)
}

/// What an engine hands to its transport of one session and for one peer is
/// in order: at most one `SessionOpen` was taken, none if the session was open
/// to the peer before; it carries the retained preamble; and it comes before
/// every routing update and every chunk.
pub ghost struct OpensFirst {
    pub id: SessionId,
    pub peer: PeerId,
    /// Whether the session was open to the peer before the log began.
    pub before: bool,
    pub preamble: Seq<u8>,
}

impl OpensFirst {
    pub open spec fn in_order<M, F>(self, e: EngineView<M, F>, log: Seq<Post>) -> bool {
        &&& e.preambles.contains_key(self.id)
        &&& e.preambles[self.id] == self.preamble
        &&& e.opened_to(self.id).contains(self.peer) <==> self.before || opened_within(
            log,
            self.id,
            self.peer,
            log.len() as int,
        )
        &&& forall|j: int|
            0 <= j < log.len() && #[trigger] opens(log[j], self.id, self.peer) ==> !self.before
        &&& forall|j: int, k: int|
            0 <= j < k < log.len() ==> !(#[trigger] opens(log[j], self.id, self.peer)
                && #[trigger] opens(log[k], self.id, self.peer))
        &&& forall|j: int|
            0 <= j < log.len() && announces((#[trigger] log[j]).msg, self.id, self.peer)
                ==> log[j].msg->SessionOpen_preamble == self.preamble
        &&& forall|k: int|
            0 <= k < log.len() && watch::uses((#[trigger] log[k]).msg, self.id, self.peer)
                ==> self.before || opened_within(log, self.id, self.peer, k)
    }

    /// One more message, which neither opens the session to the peer nor uses
    /// it before it is open.
    proof fn lemma_push<M, F>(self, e: EngineView<M, F>, log: Seq<Post>, p: Post)
        requires
            self.in_order(e, log),
            !opens(p, self.id, self.peer),
            announces(p.msg, self.id, self.peer) ==> p.msg->SessionOpen_preamble == self.preamble,
            watch::uses(p.msg, self.id, self.peer) ==> e.opened_to(self.id).contains(self.peer),
        ensures
            self.in_order(e, log.push(p)),
    {
        let now = log.push(p);
        let n = log.len() as int;
        assert forall|k: int| 0 <= k <= n implies opened_within(now, self.id, self.peer, k)
            == opened_within(log, self.id, self.peer, k) by {
            if opened_within(now, self.id, self.peer, k) {
                let j = choose|j: int| 0 <= j < k && #[trigger] opens(now[j], self.id, self.peer);
                assert(opens(log[j], self.id, self.peer));
            }
            if opened_within(log, self.id, self.peer, k) {
                let j = choose|j: int| 0 <= j < k && #[trigger] opens(log[j], self.id, self.peer);
                assert(opens(now[j], self.id, self.peer));
            }
        }
        assert(opened_within(now, self.id, self.peer, n + 1) == opened_within(
            now,
            self.id,
            self.peer,
            n,
        )) by {
            if opened_within(now, self.id, self.peer, n + 1) {
                let j = choose|j: int| 0 <= j < n + 1 && #[trigger] opens(now[j], self.id, self.peer);
                assert(j < n);
            }
        }
        assert forall|j: int| 0 <= j < now.len() && #[trigger] opens(now[j], self.id, self.peer) implies !self.before by {
            assert(opens(log[j], self.id, self.peer));
        }
        assert forall|j: int, k: int| 0 <= j < k < now.len() implies !(#[trigger] opens(
            now[j],
            self.id,
            self.peer,
        ) && #[trigger] opens(now[k], self.id, self.peer)) by {
            if k < n {
                assert(log[j] == now[j] && log[k] == now[k]);
                assert(!(opens(log[j], self.id, self.peer) && opens(log[k], self.id, self.peer)));
            }
        }
        assert forall|j: int|
            0 <= j < now.len() && announces((#[trigger] now[j]).msg, self.id, self.peer) implies now[j].msg->SessionOpen_preamble
            == self.preamble by {
            if j < n {
                assert(log[j] == now[j]);
            }
        }
        assert forall|k: int|
            0 <= k < now.len() && watch::uses((#[trigger] now[k]).msg, self.id, self.peer) implies self.before
            || opened_within(now, self.id, self.peer, k) by {
            if k < n {
                assert(log[k] == now[k]);
            }
        }
    }
}

impl<S, F, N> Watch<S, F, Logged<N>> for OpensFirst where
    S: Strategy<ChunkId = u32, RoutingUpdate = BitMap>,
    F: StrategyFactory<S>,
    N: Net,
 {
    open spec fn holds(self, w: World<S::Model, F::Model, (N::Model, Seq<Post>)>) -> bool {
        self.in_order(w.engine, w.net.1)
    }

    open spec fn subject(self) -> SessionId {
        self.id
    }

    open spec fn loose(self) -> bool {
        false
    }

    proof fn keeps_engine(
        self,
        w: World<S::Model, F::Model, (N::Model, Seq<Post>)>,
        e: EngineView<S::Model, F::Model>,
    ) {
        assert(e.opened_to(self.id) == w.engine.opened_to(self.id));
    }

    proof fn keeps_open(
        self,
        w: World<S::Model, F::Model, (N::Model, Seq<Post>)>,
        id: SessionId,
        peer: PeerId,
    ) {
        let e = w.engine;
        let log = w.net.1;
        let b = Engine::<S, F>::ensured::<Logged<N>>(w, id, peer).0;
        if !(e.opened_to(id).contains(peer) || !e.preambles.contains_key(id)) {
            let p = b.net.1.last();
            let n = log.len() as int;
            assert(b.net.1 == log.push(p));
            if id == self.id && peer == self.peer && p.ok {
                let now = log.push(p);
                assert(opens(now[n], self.id, self.peer));
                assert(opened_within(now, self.id, self.peer, n + 1));
                assert(b.engine.opened_to(self.id).contains(self.peer));
                assert forall|j: int| 0 <= j < n implies !#[trigger] opens(now[j], self.id, self.peer) by {
                    if opens(now[j], self.id, self.peer) {
                        assert(opens(log[j], self.id, self.peer));
                    }
                }
                assert forall|j: int, k: int| 0 <= j < k < now.len() implies !(#[trigger] opens(
                    now[j],
                    self.id,
                    self.peer,
                ) && #[trigger] opens(now[k], self.id, self.peer)) by {}
                assert forall|j: int|
                    0 <= j < now.len() && announces((#[trigger] now[j]).msg, self.id, self.peer) implies now[j].msg->SessionOpen_preamble
                    == self.preamble by {
                    if j < n {
                        assert(log[j] == now[j]);
                    }
                }
                assert forall|k: int|
                    0 <= k < now.len() && watch::uses((#[trigger] now[k]).msg, self.id, self.peer) implies self.before
                    || opened_within(now, self.id, self.peer, k) by {
                    if k < n {
                        assert(log[k] == now[k]);
                        let j = choose|j: int| 0 <= j < k && #[trigger] opens(log[j], self.id, self.peer);
                        assert(opens(log[j], self.id, self.peer));
                        assert(opened_within(log, self.id, self.peer, n));
                    }
                }
                assert forall|j: int|
                    0 <= j < now.len() && #[trigger] opens(now[j], self.id, self.peer) implies !self.before by {}
            } else {
                assert(!opens(p, self.id, self.peer)) by {
                    assert(id == (id.0, id.1));
                }
                self.lemma_push(e, log, p);
                assert(b.engine.opened_to(self.id).contains(self.peer) == e.opened_to(
                    self.id,
                ).contains(self.peer));
            }
        }
    }

    proof fn keeps_use(
        self,
        w: World<S::Model, F::Model, (N::Model, Seq<Post>)>,
        id: SessionId,
        peer: PeerId,
        msg: NetSendView,
    ) {
        let b = model::submitted::<S::Model, F::Model, Logged<N>>(w, msg).0;
        self.lemma_push(w.engine, w.net.1, b.net.1.last());
        assert(b.net.1 == w.net.1.push(b.net.1.last()));
    }

    proof fn keeps_aside(self, w: World<S::Model, F::Model, (N::Model, Seq<Post>)>, msg: NetSendView) {
        let b = model::submitted::<S::Model, F::Model, Logged<N>>(w, msg).0;
        self.lemma_push(w.engine, w.net.1, b.net.1.last());
        assert(b.net.1 == w.net.1.push(b.net.1.last()));
    }
}

/// An engine and a transport whose log is forgotten.
pub open spec fn forgot<S, F, N>(w: World<S::Model, F::Model, (N::Model, Seq<Post>)>) -> World<S::Model, F::Model, N::Model> where
    S: Strategy<ChunkId = u32, RoutingUpdate = BitMap>,
    F: StrategyFactory<S>,
    N: Net,
 {
    World { engine: w.engine, net: w.net.0 }
}

proof fn lemma_plain_update<S, F, N>(
    w: World<S::Model, F::Model, (N::Model, Seq<Post>)>,
    id: SessionId,
    peer: PeerId,
    payload: Seq<u8>,
) where
    S: Strategy<ChunkId = u32, RoutingUpdate = BitMap>,
    F: StrategyFactory<S>,
    N: Net,

    ensures
        ({
            let (a, r) = Engine::<S, F>::update_sent::<Logged<N>>(w, id, peer, payload);
            (forgot::<S, F, N>(a), r) == Engine::<S, F>::update_sent::<N>(forgot::<S, F, N>(w), id, peer, payload)
        }),
{

}

proof fn lemma_plain_frames<S, F, N>(
    w: World<S::Model, F::Model, (N::Model, Seq<Post>)>,
    frames: Seq<FrameView>,
) where
    S: Strategy<ChunkId = u32, RoutingUpdate = BitMap>,
    F: StrategyFactory<S>,
    N: Net,

    ensures
        forgot::<S, F, N>(Engine::<S, F>::frames_sent::<Logged<N>>(w, frames)) == Engine::<S, F>::frames_sent::<N>(forgot::<S, F, N>(w), frames),
    decreases frames.len(),
{
    if frames.len() > 0 {
        let w1 = Engine::<S, F>::frame_sent::<Logged<N>>(w, frames[0]).0;
        lemma_plain_frames::<S, F, N>(w1, frames.drop_first());
    }
}

proof fn lemma_plain_caught_up<S, F, N>(w: World<S::Model, F::Model, (N::Model, Seq<Post>)>) where
    S: Strategy<ChunkId = u32, RoutingUpdate = BitMap>,
    F: StrategyFactory<S>,
    N: Net,

    ensures
        forgot::<S, F, N>(Engine::<S, F>::caught_up::<Logged<N>>(w)) == Engine::<S, F>::caught_up::<N>(forgot::<S, F, N>(w)),
{
    let e = EngineView { owed: Seq::empty(), ..w.engine };
    lemma_plain_frames::<S, F, N>(World { engine: e, ..w }, w.engine.owed);
}

proof fn lemma_plain_routing<S, F, N>(
    w: World<S::Model, F::Model, (N::Model, Seq<Post>)>,
    id: SessionId,
    peers: Seq<PeerId>,
    payload: Seq<u8>,
) where
    S: Strategy<ChunkId = u32, RoutingUpdate = BitMap>,
    F: StrategyFactory<S>,
    N: Net,

    ensures
        ({
            let (a, r) = Engine::<S, F>::routing_sent::<Logged<N>>(w, id, peers, payload);
            (forgot::<S, F, N>(a), r) == Engine::<S, F>::routing_sent::<N>(forgot::<S, F, N>(w), id, peers, payload)
        }),
    decreases peers.len(),
{
    if peers.len() > 0 {
        lemma_plain_update::<S, F, N>(w, id, peers[0], payload);
        let w1 = Engine::<S, F>::update_sent::<Logged<N>>(w, id, peers[0], payload).0;
        lemma_plain_routing::<S, F, N>(w1, id, peers.drop_first(), payload);
    }
}

proof fn lemma_plain_due<S, F, N>(
    w: World<S::Model, F::Model, (N::Model, Seq<Post>)>,
    id: SessionId,
    peers: Seq<PeerId>,
) where
    S: Strategy<ChunkId = u32, RoutingUpdate = BitMap>,
    F: StrategyFactory<S>,
    N: Net,

    ensures
        ({
            let (a, r) = Engine::<S, F>::due_sent::<Logged<N>>(w, id, peers);
            (forgot::<S, F, N>(a), r) == Engine::<S, F>::due_sent::<N>(forgot::<S, F, N>(w), id, peers)
        }),
    decreases peers.len(),
{
    if peers.len() > 0 {
        let key = (id.0, id.1, peers[0]);
        if w.engine.due.contains_key(key) {
            lemma_plain_update::<S, F, N>(w, id, peers[0], w.engine.due[key]);
            let w1 = Engine::<S, F>::update_sent::<Logged<N>>(w, id, peers[0], w.engine.due[key]).0;
            lemma_plain_due::<S, F, N>(w1, id, peers.drop_first());
        } else {
            lemma_plain_due::<S, F, N>(w, id, peers.drop_first());
        }
    }
}

proof fn lemma_plain_chunks<S, F, N>(
    w: World<S::Model, F::Model, (N::Model, Seq<Post>)>,
    id: SessionId,
    ds: Seq<DispatchView<u32>>,
    stalled: bool,
) where
    S: Strategy<ChunkId = u32, RoutingUpdate = BitMap>,
    F: StrategyFactory<S>,
    N: Net,

    ensures
        ({
            let (a, r) = Engine::<S, F>::chunks_sent::<Logged<N>>(w, id, ds, stalled);
            (forgot::<S, F, N>(a), r) == Engine::<S, F>::chunks_sent::<N>(forgot::<S, F, N>(w), id, ds, stalled)
        }),
    decreases ds.len(),
{
    if ds.len() > 0 {
        let (w1, r) = Engine::<S, F>::ensured::<Logged<N>>(w, id, ds[0].peer);
        if r is Ok {
            let (w2, refunded) = Engine::<S, F>::chunk_sent::<Logged<N>>(w1, id, ds[0]);
            lemma_plain_chunks::<S, F, N>(w2, id, ds.drop_first(), stalled || refunded);
        }
    }
}

proof fn lemma_plain_work<S, F, N>(
    w: World<S::Model, F::Model, (N::Model, Seq<Post>)>,
    id: SessionId,
    routing: Option<Seq<bool>>,
    ds: Seq<DispatchView<u32>>,
) where
    S: Strategy<ChunkId = u32, RoutingUpdate = BitMap>,
    F: StrategyFactory<S>,
    N: Net,

    ensures
        ({
            let (a, r) = Engine::<S, F>::work_sent::<Logged<N>>(w, id, routing, ds);
            (forgot::<S, F, N>(a), r) == Engine::<S, F>::work_sent::<N>(forgot::<S, F, N>(w), id, routing, ds)
        }),
{
    match routing {
        Some(bits) => {
            let peers = order::ascending(w.engine.channels[id.0].subscribers);
            let payload = bitmap::packed(bits);
            lemma_plain_routing::<S, F, N>(w, id, peers, payload);
            let w1 = Engine::<S, F>::routing_sent::<Logged<N>>(w, id, peers, payload).0;
            lemma_plain_chunks::<S, F, N>(w1, id, ds, false);
        },
        None => {
            lemma_plain_chunks::<S, F, N>(w, id, ds, false);
        },
    }
}

proof fn lemma_plain_drained<S, F, N>(
    w: World<S::Model, F::Model, (N::Model, Seq<Post>)>,
    id: SessionId,
    rounds: nat,
) where
    S: Strategy<ChunkId = u32, RoutingUpdate = BitMap>,
    F: StrategyFactory<S>,
    N: Net,

    ensures
        ({
            let (a, r) = Engine::<S, F>::drained::<Logged<N>>(w, id, rounds);
            (forgot::<S, F, N>(a), r) == Engine::<S, F>::drained::<N>(forgot::<S, F, N>(w), id, rounds)
        }),
    decreases rounds,
{
    if rounds > 0 {
        if let Some(s) = w.engine.session(id) {
            let (s1, routing, ds) = Session::<S>::polled(s);
            let w1 = World { engine: w.engine.with_session(id, s1), ..w };
            if !(routing is None && ds.len() == 0) {
                lemma_plain_work::<S, F, N>(w1, id, routing, ds);
                let w2 = Engine::<S, F>::work_sent::<Logged<N>>(w1, id, routing, ds).0;
                lemma_plain_drained::<S, F, N>(w2, id, (rounds - 1) as nat);
            }
        }
    }
}

proof fn lemma_plain_drain<S, F, N>(
    w: World<S::Model, F::Model, (N::Model, Seq<Post>)>,
    id: SessionId,
) where
    S: Strategy<ChunkId = u32, RoutingUpdate = BitMap>,
    F: StrategyFactory<S>,
    N: Net,

    ensures
        ({
            let (a, r) = Engine::<S, F>::drain::<Logged<N>>(w, id);
            (forgot::<S, F, N>(a), r) == Engine::<S, F>::drain::<N>(forgot::<S, F, N>(w), id)
        }),
{
    if let Some(s) = w.engine.session(id) {
        let peers = order::ascending(w.engine.channels[id.0].subscribers);
        lemma_plain_caught_up::<S, F, N>(w);
        let w0 = Engine::<S, F>::caught_up::<Logged<N>>(w);
        lemma_plain_due::<S, F, N>(w0, id, peers);
        let w1 = Engine::<S, F>::due_sent::<Logged<N>>(w0, id, peers).0;
        lemma_plain_drained::<S, F, N>(w1, id, S::backlog(s.strategy) + 1);
    }
}

proof fn lemma_plain_drained_all<S, F, N>(
    w: World<S::Model, F::Model, (N::Model, Seq<Post>)>,
    channel: Seq<char>,
    messages: Seq<Seq<char>>,
) where
    S: Strategy<ChunkId = u32, RoutingUpdate = BitMap>,
    F: StrategyFactory<S>,
    N: Net,

    ensures
        ({
            let (a, r) = Engine::<S, F>::drained_all::<Logged<N>>(w, channel, messages);
            (forgot::<S, F, N>(a), r) == Engine::<S, F>::drained_all::<N>(forgot::<S, F, N>(w), channel, messages)
        }),
    decreases messages.len(),
{
    if messages.len() > 0 {
        lemma_plain_drain::<S, F, N>(w, (channel, messages[0]));
        let w1 = Engine::<S, F>::drain::<Logged<N>>(w, (channel, messages[0])).0;
        lemma_plain_drained_all::<S, F, N>(w1, channel, messages.drop_first());
    }
}

proof fn lemma_plain_drain_channel<S, F, N>(
    w: World<S::Model, F::Model, (N::Model, Seq<Post>)>,
    channel: Seq<char>,
) where
    S: Strategy<ChunkId = u32, RoutingUpdate = BitMap>,
    F: StrategyFactory<S>,
    N: Net,

    ensures
        ({
            let (a, r) = Engine::<S, F>::drain_channel_of::<Logged<N>>(w, channel);
            (forgot::<S, F, N>(a), r) == Engine::<S, F>::drain_channel_of::<N>(forgot::<S, F, N>(w), channel)
        }),
{
    if w.engine.channels.contains_key(channel) {
        lemma_plain_caught_up::<S, F, N>(w);
        lemma_plain_drained_all::<S, F, N>(
            Engine::<S, F>::caught_up::<Logged<N>>(w),
            channel,
            order::alphabetical(w.engine.channels[channel].sessions.dom()),
        );
    }
}

proof fn lemma_plain_joined<S, F, N>(
    w: World<S::Model, F::Model, (N::Model, Seq<Post>)>,
    peer: PeerId,
    channels: Seq<Seq<char>>,
) where
    S: Strategy<ChunkId = u32, RoutingUpdate = BitMap>,
    F: StrategyFactory<S>,
    N: Net,

    ensures
        forgot::<S, F, N>(Engine::<S, F>::joined::<Logged<N>>(w, peer, channels)) == Engine::<S, F>::joined::<N>(forgot::<S, F, N>(w), peer, channels),
    decreases channels.len(),
{
    if channels.len() > 0 {
        let w1 = World { engine: Engine::<S, F>::subscribed(w.engine, channels[0], peer), ..w };
        lemma_plain_drain_channel::<S, F, N>(w1, channels[0]);
        let w2 = Engine::<S, F>::drain_channel_of::<Logged<N>>(w1, channels[0]).0;
        lemma_plain_joined::<S, F, N>(w2, peer, channels.drop_first());
    }
}

proof fn lemma_plain_progressed<S, F, N>(
    w: World<S::Model, F::Model, (N::Model, Seq<Post>)>,
    id: SessionId,
    complete: bool,
    now: Nanos,
) where
    S: Strategy<ChunkId = u32, RoutingUpdate = BitMap>,
    F: StrategyFactory<S>,
    N: Net,

    ensures
        forgot::<S, F, N>(Engine::<S, F>::progressed::<Logged<N>>(w, id, complete, now)) == Engine::<S, F>::progressed::<N>(forgot::<S, F, N>(w), id, complete, now),
{
    lemma_plain_drain::<S, F, N>(w, id);
}

proof fn lemma_plain_opened<S, F, N>(
    w: World<S::Model, F::Model, (N::Model, Seq<Post>)>,
    id: SessionId,
    preamble: Seq<u8>,
    now: Nanos,
    reading: u32,
) where
    S: Strategy<ChunkId = u32, RoutingUpdate = BitMap>,
    F: StrategyFactory<S>,
    N: Net,

    ensures
        forgot::<S, F, N>(Engine::<S, F>::opened::<Logged<N>>(w, id, preamble, now, reading)) == Engine::<S, F>::opened::<N>(forgot::<S, F, N>(w), id, preamble, now, reading),
{
    let e = w.engine;
    if !e.tombstoned(id) && e.channels.contains_key(id.0) {
        let (c, r) = Channel::<S, F>::opened(e.channels[id.0], id.1, preamble, reading);
        let e2 = EngineView {
            channels: e.channels.insert(id.0, c),
            preambles: e.preambles.insert(id, preamble),
            ..e
        };
        let w3 = World { engine: e2.created(id, now), ..w };
        lemma_plain_drain::<S, F, N>(w3, id);
        let w4 = Engine::<S, F>::drain::<Logged<N>>(w3, id).0;
        if w4.engine.parked.contains_key(id) {
            let e5 = EngineView { parked: w4.engine.parked.remove(id), ..w4.engine };
            let (e6, complete) = Engine::<S, F>::taken_all(e5, id, w4.engine.parked[id], false);
            lemma_plain_progressed::<S, F, N>(World { engine: e6, ..w4 }, id, complete, now);
        }
    }
}

/// Remembering what a transport is handed changes nothing: handling an event
/// does to the engine and to the transport what it does without the log.
pub proof fn law_logging_changes_nothing<S, F, N>(
    w: World<S::Model, F::Model, (N::Model, Seq<Post>)>,
    event: NetEventView,
    now: Nanos,
    reading: u32,
) where
    S: Strategy<ChunkId = u32, RoutingUpdate = BitMap>,
    F: StrategyFactory<S>,
    N: Net,

    ensures
        forgot::<S, F, N>(Engine::<S, F>::handled::<Logged<N>>(w, event, now, reading)) == Engine::<S, F>::handled::<N>(forgot::<S, F, N>(w), event, now, reading),
{
    let e = w.engine;
    match event {
        NetEventView::Handshake { peer, version, channels, .. } => {
            let e1 = EngineView { connected: e.connected.insert(peer), ..e };
            lemma_plain_joined::<S, F, N>(World { engine: e1, ..w }, peer, channels);
        },
        NetEventView::Subscribe { peer, channel } => {
            lemma_plain_drain_channel::<S, F, N>(
                World { engine: Engine::<S, F>::subscribed(e, channel, peer), ..w },
                channel,
            );
        },
        NetEventView::SessionOpen { channel, message_id, preamble, .. } => {
            lemma_plain_opened::<S, F, N>(w, (channel, message_id), preamble, now, reading);
        },
        NetEventView::Chunk { channel, message_id, chunk_id, payload, .. } => {
            let id = (channel, message_id);
            let (e1, complete) = Engine::<S, F>::taken(e, id, chunk_id, payload);
            lemma_plain_progressed::<S, F, N>(World { engine: e1, ..w }, id, complete, now);
        },
        NetEventView::ChunkSendResult { peer, channel, message_id, token, ok } => {
            let id = (channel, message_id);
            let e1 = EngineView { pending: e.pending.remove((channel, message_id, token)), ..e };
            let e2 = Engine::<S, F>::reported(e1, id, peer, token, ok);
            lemma_plain_drain::<S, F, N>(World { engine: e2, ..w }, id);
        },
        _ => {},
    }
}

/// Before the engine hands anything to its transport, all is in order of every
/// live session.
pub proof fn law_silence_is_in_order<S, F>(e: EngineView<S::Model, F::Model>, id: SessionId, peer: PeerId) where
    S: Strategy<ChunkId = u32, RoutingUpdate = BitMap>,
    F: StrategyFactory<S>,

    requires
        Engine::<S, F>::valid(e),
        e.session(id) is Some,
    ensures
        (OpensFirst {
            id,
            peer,
            before: e.opened_to(id).contains(peer),
            preamble: e.preambles[id],
        }).in_order(e, Seq::empty()),
{
    assert(e.channels[id.0].sessions.contains_key(id.1));
    assert((id.0, id.1) == id);
}

/// A session that is published is in order from its first message on.
pub proof fn law_published_session_is_in_order<S, F, N>(
    w: World<S::Model, F::Model, (N::Model, Seq<Post>)>,
    id: SessionId,
    peer: PeerId,
    strategy: S::Model,
    preamble: Seq<u8>,
    now: Nanos,
) where
    S: Strategy<ChunkId = u32, RoutingUpdate = BitMap>,
    F: StrategyFactory<S>,
    N: Net,

    requires
        w.engine.channels.contains_key(id.0),
        w.engine.session(id) is None,
        w.net.1.len() == 0,
    ensures
        ({
            let after = Engine::<S, F>::published::<Logged<N>>(w, id, strategy, preamble, now).0;
            let x = OpensFirst {
                id,
                peer,
                before: w.engine.opened_to(id).contains(peer),
                preamble,
            };
            x.in_order(after.engine, after.net.1) && after.engine.session(id) is Some
        }),
{
    let e = w.engine;
    let (c, r) = Channel::<S, F>::started(e.channels[id.0], id.1, strategy);
    let e1 = EngineView {
        channels: e.channels.insert(id.0, c),
        preambles: e.preambles.insert(id, preamble),
        ..e
    };
    let w1 = World { engine: e1.created(id, now), ..w };
    let x = OpensFirst { id, peer, before: e.opened_to(id).contains(peer), preamble };
    assert(w1.engine.opened_to(id) == e.opened_to(id));
    assert(w1.engine.session(id) is Some);
    assert(x.in_order(w1.engine, w1.net.1));
    let peers = order::ascending(c.subscribers);
    watch::lemma_ensured_all::<S, F, Logged<N>, OpensFirst>(x, w1, id, peers);
    let w2 = Engine::<S, F>::ensured_all::<Logged<N>>(w1, id, peers).0;
    watch::lemma_drain::<S, F, Logged<N>, OpensFirst>(x, w2, id);
}

/// A session that a peer announces is in order from its first message on: a
/// relay opens it to its own subscribers before it forwards anything.
pub proof fn law_relayed_session_is_in_order<S, F, N>(
    w: World<S::Model, F::Model, (N::Model, Seq<Post>)>,
    id: SessionId,
    peer: PeerId,
    preamble: Seq<u8>,
    now: Nanos,
    reading: u32,
) where
    S: Strategy<ChunkId = u32, RoutingUpdate = BitMap>,
    F: StrategyFactory<S>,
    N: Net,

    requires
        !w.engine.tombstoned(id),
        w.engine.channels.contains_key(id.0),
        Channel::<S, F>::opened(w.engine.channels[id.0], id.1, preamble, reading).1 is Ok,
        w.net.1.len() == 0,
    ensures
        ({
            let after = Engine::<S, F>::opened::<Logged<N>>(w, id, preamble, now, reading);
            let x = OpensFirst {
                id,
                peer,
                before: w.engine.opened_to(id).contains(peer),
                preamble,
            };
            x.in_order(after.engine, after.net.1) && after.engine.session(id) is Some
        }),
{
    let e = w.engine;
    let (c, r) = Channel::<S, F>::opened(e.channels[id.0], id.1, preamble, reading);
    let e2 = EngineView {
        channels: e.channels.insert(id.0, c),
        preambles: e.preambles.insert(id, preamble),
        ..e
    };
    let w3 = World { engine: e2.created(id, now), ..w };
    let x = OpensFirst { id, peer, before: e.opened_to(id).contains(peer), preamble };
    assert(w3.engine.opened_to(id) == e.opened_to(id));
    assert(w3.engine.session(id) is Some);
    assert(x.in_order(w3.engine, w3.net.1));
    watch::lemma_drain::<S, F, Logged<N>, OpensFirst>(x, w3, id);
    let w4 = Engine::<S, F>::drain::<Logged<N>>(w3, id).0;
    watch::lemma_replayed::<S, F, Logged<N>, OpensFirst>(x, w4, id, now);
}

/// While a session is live and the peer does not disconnect, the messages of
/// the session to the peer stay in order, over whatever transport and through
/// every event that the engine handles and the sweep that follows: at most
/// one `SessionOpen` is taken, it carries the retained preamble, and it comes
/// before every routing update and every chunk.
pub proof fn law_open_comes_first<S, F, N>(
    x: OpensFirst,
    w: World<S::Model, F::Model, (N::Model, Seq<Post>)>,
    event: NetEventView,
    now: Nanos,
    reading: u32,
) where
    S: Strategy<ChunkId = u32, RoutingUpdate = BitMap>,
    F: StrategyFactory<S>,
    N: Net,

    requires
        x.in_order(w.engine, w.net.1),
        w.engine.session(x.id) is Some,
        event != (NetEventView::PeerDisconnected { peer: x.peer }),
    ensures
        ({
            let after = Engine::<S, F>::handled::<Logged<N>>(w, event, now, reading);
            &&& x.in_order(after.engine, after.net.1)
            &&& after.engine.session(x.id) is Some
            &&& !after.engine.expired(x.id, now) ==> x.in_order(
                after.engine.cleaned(now),
                after.net.1,
            )
        }),
{
    let after = Engine::<S, F>::handled::<Logged<N>>(w, event, now, reading);
    if let NetEventView::PeerDisconnected { peer } = event {
        assert(after.engine.opened_to(x.id).contains(x.peer) == w.engine.opened_to(x.id).contains(
            x.peer,
        ));
    } else {
        watch::lemma_handled::<S, F, Logged<N>, OpensFirst>(x, w, event, now, reading);
    }
    let e = after.engine;
    if !e.expired(x.id, now) {
        assert(e.cleaned(now).opened_to(x.id) == e.opened_to(x.id));
    }
}

/// Publishing other messages keeps the messages of a live session in order.
pub proof fn law_publishing_keeps_order<S, F, N>(
    x: OpensFirst,
    w: World<S::Model, F::Model, (N::Model, Seq<Post>)>,
    id: SessionId,
    strategy: S::Model,
    preamble: Seq<u8>,
    now: Nanos,
) where
    S: Strategy<ChunkId = u32, RoutingUpdate = BitMap>,
    F: StrategyFactory<S>,
    N: Net,

    requires
        x.in_order(w.engine, w.net.1),
        w.engine.session(x.id) is Some,
    ensures
        ({
            let after = Engine::<S, F>::published::<Logged<N>>(w, id, strategy, preamble, now).0;
            &&& x.in_order(after.engine, after.net.1)
            &&& after.engine.session(x.id) is Some
        }),
{
    watch::lemma_published::<S, F, Logged<N>, OpensFirst>(x, w, id, strategy, preamble, now);
}

/// The chunk of a dispatch, with the dispatch's handle as its token.
pub open spec fn chunk_of(id: SessionId, d: DispatchView<u32>) -> NetSendView {
    NetSendView::Chunk {
        peer: d.peer,
        channel: id.0,
        message_id: id.1,
        chunk_id: d.chunk_id,
        payload: d.payload,
        token: d.handle,
    }
}

/// Every chunk that sending dispatches hands to the transport is that of one
/// of the dispatches: its token is the dispatch's handle.
pub proof fn law_tokens_are_handles<S, F, N>(
    w: World<S::Model, F::Model, (N::Model, Seq<Post>)>,
    id: SessionId,
    ds: Seq<DispatchView<u32>>,
    stalled: bool,
) where
    S: Strategy<ChunkId = u32, RoutingUpdate = BitMap>,
    F: StrategyFactory<S>,
    N: Net,

    ensures
        ({
            let log = Engine::<S, F>::chunks_sent::<Logged<N>>(w, id, ds, stalled).0.net.1;
            &&& w.net.1.len() <= log.len()
            &&& forall|i: int| 0 <= i < w.net.1.len() ==> #[trigger] log[i] == w.net.1[i]
            &&& forall|i: int|
                w.net.1.len() <= i < log.len() && (#[trigger] log[i]).msg is Chunk ==> exists|k: int|
                    0 <= k < ds.len() && log[i].msg == #[trigger] chunk_of(id, ds[k])
        }),
    decreases ds.len(),
{
    if ds.len() > 0 {
        let (w1, r) = Engine::<S, F>::ensured::<Logged<N>>(w, id, ds[0].peer);
        if r is Ok {
            let (w2, refunded) = Engine::<S, F>::chunk_sent::<Logged<N>>(w1, id, ds[0]);
            let rest = ds.drop_first();
            law_tokens_are_handles::<S, F, N>(w2, id, rest, stalled || refunded);
            let log = Engine::<S, F>::chunks_sent::<Logged<N>>(w, id, ds, stalled).0.net.1;
            assert(w2.net.1 == w1.net.1.push(w2.net.1.last()));
            assert(w2.net.1.last().msg == chunk_of(id, ds[0]));
            assert forall|i: int| 0 <= i < w.net.1.len() implies #[trigger] log[i] == w.net.1[i] by {
                assert(w2.net.1[i] == w.net.1[i]);
            }
            assert forall|i: int|
                w.net.1.len() <= i < log.len() && (#[trigger] log[i]).msg is Chunk implies exists|k: int|
                    0 <= k < ds.len() && log[i].msg == #[trigger] chunk_of(id, ds[k]) by {
                if i < w2.net.1.len() {
                    assert(log[i] == w2.net.1[i]);
                    if i == w2.net.1.len() - 1 {
                        assert(log[i].msg == chunk_of(id, ds[0]));
                    }
                } else {
                    let k = choose|k: int|
                        0 <= k < rest.len() && log[i].msg == #[trigger] chunk_of(id, rest[k]);
                    assert(ds[k + 1] == rest[k]);
                    assert(log[i].msg == chunk_of(id, ds[k + 1]));
                }
            }
        }
    }
}

} // verus!
