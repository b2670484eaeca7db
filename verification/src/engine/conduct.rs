//! How an engine answers to what happens, event by event.

use vstd::prelude::*;

use crate::channel::{Channel, ChannelFault, StrategyFactory};
use crate::engine::laws;
use crate::engine::model;
use crate::engine::model::{
    DeliveredView,
    EngineFault,
    EngineView,
    FrameView,
    ParkedView,
    SessionId,
    World,
};
use crate::engine::{Engine, EngineConfig, Nanos, SessionMeta};
use crate::order;
use crate::runtime;
use crate::runtime::memory_net::{HubView, MemoryNetEndpoint};
use crate::runtime::{Net, NetError, NetEventView, NetSendView};
use crate::session::{Session, SessionState, SessionView};
use crate::strategy::bitmap::BitMap;
use crate::strategy::rs::state::{RsStrategy, RsView};
use crate::strategy::rs::verify;
use crate::strategy::{PeerId, Strategy};

verus! {

/// A chunk that comes before its session is kept, as the newest of at most 32
/// chunks of the message; where there are as many, the oldest goes.
pub proof fn law_early_chunk_is_kept<S, F, N>(
    w: World<S::Model, F::Model, N::Model>,
    id: SessionId,
    peer: PeerId,
    chunk_id: u32,
    payload: Seq<u8>,
    now: Nanos,
    reading: u32,
    i: int,
    other: SessionId,
) where
    S: Strategy<ChunkId = u32, RoutingUpdate = BitMap>,
    F: StrategyFactory<S>,
    N: Net,

    requires
        w.engine.session(id) is None,
        !w.engine.tombstoned(id),
        w.engine.parked_for(id).len() <= 32,
        other != id,
    ensures
        ({
            let e = w.engine;
            let after = Engine::<S, F>::handled::<N>(
                w,
                NetEventView::Chunk { peer, channel: id.0, message_id: id.1, chunk_id, payload },
                now,
                reading,
            );
            let a = e.parked_for(id);
            let b = after.engine.parked_for(id);
            &&& b.len() == if a.len() < 32 {
                a.len() + 1
            } else {
                32
            }
            &&& b.last() == ParkedView { chunk_id, payload, parked_at: now }
            &&& 0 <= i < b.len() - 1 ==> b[b.len() - 2 - i] == a[a.len() - 1 - i]
            &&& after.engine.parked_for(other) == e.parked_for(other)
            &&& after.engine == (EngineView { parked: after.engine.parked, ..e })
            &&& after.net == w.net
        }),
{
    assert((id.0, id.1) == id);
}

proof fn lemma_taken_all(
    s: SessionView<RsView>,
    chunks: Seq<ParkedView>,
    k: int,
)
    requires
        0 <= k < chunks.len(),
    ensures
        replay(s, chunks).state == SessionState::Consuming && chunks[k].chunk_id < s.strategy.chunks.len()
            && verify::authentic(s.strategy.preamble, chunks[k].chunk_id as int, chunks[k].payload)
            ==> replay(s, chunks).strategy.holds(chunks[k].chunk_id),
    decreases chunks.len(),
{
    let s1 = Session::<RsStrategy>::taken(s, chunks[0].chunk_id, chunks[0].payload).0;
    let rest = chunks.drop_first();
    lemma_replay_grows(s1, rest);
    if k > 0 {
        assert(rest[k - 1] == chunks[k]);
        lemma_taken_all(s1, rest, k - 1);
    }
}

/// A session after chunks are delivered to it in turn.
spec fn replay(s: SessionView<RsView>, chunks: Seq<ParkedView>) -> SessionView<RsView>
    decreases chunks.len(),
{
    if chunks.len() == 0 {
        s
    } else {
        replay(
            Session::<RsStrategy>::taken(s, chunks[0].chunk_id, chunks[0].payload).0,
            chunks.drop_first(),
        )
    }
}

proof fn lemma_replay_grows(s: SessionView<RsView>, chunks: Seq<ParkedView>)
    ensures
        replay(s, chunks).strategy.preamble == s.strategy.preamble,
        replay(s, chunks).strategy.chunks.len() == s.strategy.chunks.len(),
        replay(s, chunks).state == SessionState::Consuming ==> s.state == SessionState::Consuming,
        forall|i: u32| s.strategy.holds(i) ==> #[trigger] replay(s, chunks).strategy.holds(i),
    decreases chunks.len(),
{
    if chunks.len() > 0 {
        let s1 = Session::<RsStrategy>::taken(s, chunks[0].chunk_id, chunks[0].payload).0;
        lemma_replay_grows(s1, chunks.drop_first());
        assert forall|i: u32| s.strategy.holds(i) implies #[trigger] replay(s, chunks).strategy.holds(i) by {
            assert(s1.strategy.holds(i));
        }
    }
}

proof fn lemma_replayed<F>(
    e: EngineView<RsView, F::Model>,
    id: SessionId,
    chunks: Seq<ParkedView>,
    complete: bool,
) where F: StrategyFactory<RsStrategy>
    requires
        e.session(id) is Some,
    ensures
        Engine::<RsStrategy, F>::taken_all(e, id, chunks, complete).0.session(id) == Some(
            replay(e.session(id)->Some_0, chunks),
        ),
    decreases chunks.len(),
{
    if chunks.len() > 0 {
        let (e1, c) = Engine::<RsStrategy, F>::taken(e, id, chunks[0].chunk_id, chunks[0].payload);
        let s1 = Session::<RsStrategy>::taken(
            e.session(id)->Some_0,
            chunks[0].chunk_id,
            chunks[0].payload,
        ).0;
        assert(e1.session(id) == Some(s1));
        lemma_replayed::<F>(e1, id, chunks.drop_first(), complete || c);
    }
}

/// A session that opens takes the chunks that came before it: none is kept any
/// more, and the session has every one of them that is what the preamble
/// announces, or is past consuming. It dates from now.
pub proof fn law_opened_session_takes_early_chunks<F, N>(
    w: World<RsView, F::Model, N::Model>,
    id: SessionId,
    peer: PeerId,
    preamble: Seq<u8>,
    update: Seq<u8>,
    now: Nanos,
    reading: u32,
    k: int,
) where F: StrategyFactory<RsStrategy>, N: Net
    requires
        Engine::<RsStrategy, F>::valid(w.engine),
        w.engine.channels.contains_key(id.0),
        w.engine.session(id) is None,
        !w.engine.meta.contains_key(id),
        !w.engine.tombstoned(id),
        F::built(w.engine.channels[id.0].factory, preamble, reading).1 matches Ok(m) && m.valid(),
    ensures
        ({
            let e = w.engine;
            let after = Engine::<RsStrategy, F>::handled::<N>(
                w,
                NetEventView::SessionOpen {
                    peer,
                    channel: id.0,
                    message_id: id.1,
                    preamble,
                    initial_update: update,
                },
                now,
                reading,
            ).engine;
            let built = F::built(e.channels[id.0].factory, preamble, reading).1->Ok_0;
            let early = e.parked_for(id);
            &&& !after.parked.contains_key(id)
            &&& after.session(id) matches Some(s) && {
                &&& s.strategy.preamble == built.preamble
                &&& s.state == SessionState::Consuming && 0 <= k < early.len() && early[k].chunk_id
                    < built.chunks.len() && verify::authentic(
                    built.preamble,
                    early[k].chunk_id as int,
                    early[k].payload,
                ) ==> s.strategy.holds(early[k].chunk_id)
            }
            &&& after.preambles[id] == preamble
            &&& after.meta.contains_key(id)
            &&& after.meta[id].created_at == now
        }),
{
    assert((id.0, id.1) == id);
    let e = w.engine;
    let (c, r) = Channel::<RsStrategy, F>::opened(e.channels[id.0], id.1, preamble, reading);
    let built = F::built(e.channels[id.0].factory, preamble, reading).1->Ok_0;
    let list = order::ascending(e.channels[id.0].subscribers);
    lemma_attaching(SessionView { state: SessionState::Consuming, strategy: built }, list);
    let e2 = EngineView {
        channels: e.channels.insert(id.0, c),
        preambles: e.preambles.insert(id, preamble),
        ..e
    };
    let e3 = e2.created(id, now);
    let w3 = World { engine: e3, ..w };
    let s3 = e3.session(id)->Some_0;
    laws::lemma_drain::<RsStrategy, F, N>(w3, id);
    let w4 = Engine::<RsStrategy, F>::drain::<N>(w3, id).0;
    assert(laws::stage(w4.engine, id) == laws::stage(e3, id));
    assert(laws::holding::<RsStrategy, F::Model>(w4.engine, id) == laws::holding::<
        RsStrategy,
        F::Model,
    >(e3, id));
    let s4 = w4.engine.session(id)->Some_0;
    if w4.engine.parked.contains_key(id) {
        let early = w4.engine.parked[id];
        let e5 = EngineView { parked: w4.engine.parked.remove(id), ..w4.engine };
        assert(e5.session(id) == Some(s4));
        lemma_replayed::<F>(e5, id, early, false);
        laws::lemma_taken_all::<RsStrategy, F>(e5, id, early, false);
        let (e6, complete) = Engine::<RsStrategy, F>::taken_all(e5, id, early, false);
        let w6 = World { engine: e6, ..w4 };
        let s6 = e6.session(id)->Some_0;
        lemma_replay_grows(s4, early);
        if 0 <= k < early.len() {
            lemma_taken_all(s4, early, k);
        }
        laws::lemma_drain::<RsStrategy, F, N>(w6, id);
        let w7 = Engine::<RsStrategy, F>::drain::<N>(w6, id).0;
        assert(laws::stage(w7.engine, id) == laws::stage(e6, id));
        assert(laws::holding::<RsStrategy, F::Model>(w7.engine, id) == laws::holding::<
            RsStrategy,
            F::Model,
        >(e6, id));
    }
}

pub(crate) proof fn lemma_attaching(v: SessionView<RsView>, list: Seq<PeerId>)
    ensures
        ({
            let after = Session::<RsStrategy>::attached_all(v, list);
            &&& after.state == v.state
            &&& after.strategy == (RsView { peers: after.strategy.peers, ..v.strategy })
        }),
    decreases list.len(),
{
    if list.len() > 0 {
        lemma_attaching(v, list.drop_last());
    }
}

/// A chunk that comes for a consuming session and is what the preamble
/// announces is held from then on, with all that was; one that is not, changes
/// nothing of what is held and delivers nothing.
pub proof fn law_chunk_is_held_if_authentic<F, N>(
    w: World<RsView, F::Model, N::Model>,
    id: SessionId,
    peer: PeerId,
    chunk_id: u32,
    payload: Seq<u8>,
    now: Nanos,
    reading: u32,
) where F: StrategyFactory<RsStrategy>, N: Net
    requires
        !w.engine.tombstoned(id),
        w.engine.session(id) matches Some(s) && s.state == SessionState::Consuming && s.strategy.valid(),
    ensures
        ({
            let event = NetEventView::Chunk {
                peer,
                channel: id.0,
                message_id: id.1,
                chunk_id,
                payload,
            };
            let after = Engine::<RsStrategy, F>::handled::<N>(w, event, now, reading).engine;
            let m = w.engine.session(id)->Some_0.strategy;
            &&& after.session(id) matches Some(t) && {
                &&& t.strategy.preamble == m.preamble
                &&& if chunk_id < m.chunks.len() && m.chunks[chunk_id as int] is None
                    && verify::authentic(m.preamble, chunk_id as int, payload) {
                    t.strategy.chunks == m.chunks.update(chunk_id as int, Some(payload))
                } else {
                    t.strategy.chunks == m.chunks
                }
            }
            &&& !m.holds(chunk_id) && !verify::authentic(m.preamble, chunk_id as int, payload)
                ==> after.delivered == w.engine.delivered
        }),
{
    assert((id.0, id.1) == id);
    let (e1, complete) = Engine::<RsStrategy, F>::taken(w.engine, id, chunk_id, payload);
    let w1 = World { engine: e1, ..w };
    assert(e1.session(id) is Some);
    laws::lemma_drain::<RsStrategy, F, N>(w1, id);
    let w2 = Engine::<RsStrategy, F>::drain::<N>(w1, id).0;
    assert(laws::stage(w2.engine, id) == laws::stage(e1, id));
    assert(laws::holding::<RsStrategy, F::Model>(w2.engine, id) == laws::holding::<
        RsStrategy,
        F::Model,
    >(e1, id));
}

/// Decoding a session that is ready delivers its message, after all that was
/// delivered, and tells the transport; without a message it does neither. The
/// session is over in both cases, from now on.
pub proof fn law_decoding_is_told<S, F, N>(
    w: World<S::Model, F::Model, N::Model>,
    id: SessionId,
    now: Nanos,
) where
    S: Strategy<ChunkId = u32, RoutingUpdate = BitMap>,
    F: StrategyFactory<S>,
    N: Net,

    requires
        w.engine.session(id) matches Some(s) && s.state == SessionState::Decoding,
        w.engine.meta.contains_key(id),
        w.engine.meta[id].terminal_at is None,
    ensures
        ({
            let after = Engine::<S, F>::decoded::<N>(w, id, now);
            let e = after.engine;
            &&& e.meta[id] == (SessionMeta { terminal_at: Some(now), ..w.engine.meta[id] })
            &&& match S::message(w.engine.session(id)->Some_0.strategy) {
                Some(payload) => {
                    &&& laws::stage(e, id) == Some(SessionState::Reconstructed)
                    &&& e.delivered == w.engine.delivered.push(
                        DeliveredView { channel_id: id.0, message_id: id.1, payload },
                    )
                    &&& after.net == N::sent(
                        w.net,
                        NetSendView::SessionReconstructed { channel: id.0, message_id: id.1 },
                    ).0
                },
                None => {
                    &&& laws::stage(e, id) == Some(SessionState::Failed)
                    &&& e.delivered == w.engine.delivered
                    &&& after.net == w.net
                },
            }
        }),
{
}

/// Publishing takes a channel that the engine hosts and a message that it has
/// no session for; otherwise it says which of the two is wrong and does
/// nothing.
pub proof fn law_publishing_needs_channel_and_new_message<S, F, N>(
    w: World<S::Model, F::Model, N::Model>,
    id: SessionId,
    strategy: S::Model,
    preamble: Seq<u8>,
    now: Nanos,
) where
    S: Strategy<ChunkId = u32, RoutingUpdate = BitMap>,
    F: StrategyFactory<S>,
    N: Net,

    ensures
        ({
            let e = w.engine;
            let (after, r) = Engine::<S, F>::published::<N>(w, id, strategy, preamble, now);
            &&& !e.channels.contains_key(id.0) ==> after == w && r == Err::<(), EngineFault>(
                EngineFault::UnknownChannel(id.0),
            )
            &&& e.session(id) is Some ==> after == w && r == Err::<(), EngineFault>(
                EngineFault::Channel(ChannelFault::DuplicateSession(id.1)),
            )
            &&& e.channels.contains_key(id.0) && e.session(id) is None ==> {
                &&& laws::stage(after.engine, id) == Some(SessionState::Origin)
                &&& after.engine.preambles.contains_key(id)
                &&& after.engine.preambles[id] == preamble
                &&& after.engine.delivered == e.delivered
                &&& !e.meta.contains_key(id) ==> after.engine.meta.contains_key(id) && after.engine.meta[id]
                    == (SessionMeta { created_at: now, terminal_at: None })
            }
        }),
{
    let e = w.engine;
    if e.channels.contains_key(id.0) && e.session(id) is None {
        let (c, r) = Channel::<S, F>::started(e.channels[id.0], id.1, strategy);
        let e1 = EngineView {
            channels: e.channels.insert(id.0, c),
            preambles: e.preambles.insert(id, preamble),
            ..e
        };
        let w1 = World { engine: e1.created(id, now), ..w };
        let list = order::ascending(c.subscribers);
        lemma_attached_state::<S>(SessionView { state: SessionState::Origin, strategy }, list);
        laws::lemma_ensured_all::<S, F, N>(w1, id, list);
        let w2 = Engine::<S, F>::ensured_all::<N>(w1, id, list).0;
        laws::lemma_drain::<S, F, N>(w2, id);
        let w3 = Engine::<S, F>::drain::<N>(w2, id).0;
        assert(laws::stage(w1.engine, id) == Some(SessionState::Origin));
        assert(laws::stage(w2.engine, id) == laws::stage(w1.engine, id));
        assert(laws::stage(w3.engine, id) == laws::stage(w2.engine, id));
    }
}

/// What an origin holds after publishing.
pub(crate) proof fn lemma_published_holding<S, F, N>(
    w: World<S::Model, F::Model, N::Model>,
    id: SessionId,
    strategy: S::Model,
    preamble: Seq<u8>,
    now: Nanos,
) where
    S: Strategy<ChunkId = u32, RoutingUpdate = BitMap>,
    F: StrategyFactory<S>,
    N: Net,

    requires
        w.engine.channels.contains_key(id.0),
        w.engine.session(id) is None,
    ensures
        ({
            let list = order::ascending(w.engine.channels[id.0].subscribers);
            let s = Session::<S>::attached_all(SessionView { state: SessionState::Origin, strategy }, list);
            laws::holding::<S, F::Model>(
                Engine::<S, F>::published::<N>(w, id, strategy, preamble, now).0.engine,
                id,
            ) == Some(S::holding(s.strategy))
        }),
{
    let e = w.engine;
    let (c, r) = Channel::<S, F>::started(e.channels[id.0], id.1, strategy);
    let e1 = EngineView {
        channels: e.channels.insert(id.0, c),
        preambles: e.preambles.insert(id, preamble),
        ..e
    };
    let w1 = World { engine: e1.created(id, now), ..w };
    let list = order::ascending(c.subscribers);
    laws::lemma_ensured_all::<S, F, N>(w1, id, list);
    let w2 = Engine::<S, F>::ensured_all::<N>(w1, id, list).0;
    laws::lemma_drain::<S, F, N>(w2, id);
    let w3 = Engine::<S, F>::drain::<N>(w2, id).0;
    assert(laws::holding::<S, F::Model>(w2.engine, id) == laws::holding::<S, F::Model>(w1.engine, id));
    assert(laws::holding::<S, F::Model>(w3.engine, id) == laws::holding::<S, F::Model>(w2.engine, id));
}

proof fn lemma_attached_state<S: Strategy>(v: SessionView<S::Model>, list: Seq<PeerId>)
    ensures
        Session::<S>::attached_all(v, list).state == v.state,
    decreases list.len(),
{
    if list.len() > 0 {
        lemma_attached_state::<S>(v, list.drop_last());
    }
}

/// A peer that unsubscribes leaves the channel that it names, as far as the
/// engine hosts it, and nothing else happens.
pub proof fn law_unsubscribe_concerns_one_channel<S, F, N>(
    w: World<S::Model, F::Model, N::Model>,
    peer: PeerId,
    channel: Seq<char>,
    other: Seq<char>,
    now: Nanos,
    reading: u32,
) where
    S: Strategy<ChunkId = u32, RoutingUpdate = BitMap>,
    F: StrategyFactory<S>,
    N: Net,

    requires
        other != channel,
    ensures
        ({
            let e = w.engine;
            let after = Engine::<S, F>::handled::<N>(
                w,
                NetEventView::Unsubscribe { peer, channel },
                now,
                reading,
            );
            &&& after.net == w.net
            &&& after.engine == (EngineView { channels: after.engine.channels, ..e })
            &&& after.engine.channels.dom() == e.channels.dom()
            &&& e.channels.contains_key(other) ==> after.engine.channels[other] == e.channels[other]
            &&& e.channels.contains_key(channel) ==> {
                let (a, b) = (e.channels[channel], after.engine.channels[channel]);
                &&& b.subscribers == a.subscribers.remove(peer)
                &&& b.sessions.dom() == a.sessions.dom()
                &&& forall|m: Seq<char>| #[trigger]
                    a.sessions.contains_key(m) && a.subscribers.contains(peer) ==> b.sessions[m].strategy
                        == S::detached(a.sessions[m].strategy, peer, false)
            }
        }),
{
    let e = w.engine;
    if e.channels.contains_key(channel) {
        let a = e.channels[channel];
        let b = Channel::<S, F>::unsubscribed(a, peer);
        assert(e.channels.insert(channel, b).dom() =~= e.channels.dom());
        assert(b.sessions.dom() =~= a.sessions.dom());
        assert(b.subscribers =~= a.subscribers.remove(peer));
    }
}

/// An engine hosts a channel that it subscribes to, without subscribers and
/// sessions at first; one that it hosts already stays as it is.
pub proof fn law_hosted_channel_stays<S, F>(
    e: EngineView<S::Model, F::Model>,
    channel: Seq<char>,
    factory: F::Model,
    other: Seq<char>,
) where S: Strategy<ChunkId = u32, RoutingUpdate = BitMap>, F: StrategyFactory<S>
    requires
        other != channel,
    ensures
        ({
            let after = Engine::<S, F>::hosting(e, channel, factory);
            &&& after.channels.contains_key(channel)
            &&& e.channels.contains_key(channel) ==> after == e
            &&& !e.channels.contains_key(channel) ==> {
                let c = after.channels[channel];
                c.id == channel && c.factory == factory && c.subscribers == Set::<PeerId>::empty()
                    && c.sessions.dom() == Set::<Seq<char>>::empty()
            }
            &&& after.channels.contains_key(other) == e.channels.contains_key(other)
            &&& e.channels.contains_key(other) ==> after.channels[other] == e.channels[other]
        }),
{
    let after = Engine::<S, F>::hosting(e, channel, factory);
    if !e.channels.contains_key(channel) {
        assert(after.channels[channel].sessions.dom() =~= Set::<Seq<char>>::empty());
    }
}

/// Everyone listens.
pub open spec fn all_listen(hub: HubView, peers: Seq<PeerId>) -> bool {
    forall|i: int|
        0 <= i < peers.len() ==> hub.inboxes.contains_key(#[trigger] peers[i]) && hub.inboxes[peers[i]].open
}

/// Each of the peers to which a subscription is announced, and no other, is
/// told of the channel, once.
pub proof fn law_subscription_is_announced<S, F>(
    w: World<S::Model, F::Model, (PeerId, HubView)>,
    channel: Seq<char>,
    peers: Seq<PeerId>,
    p: PeerId,
) where S: Strategy<ChunkId = u32, RoutingUpdate = BitMap>, F: StrategyFactory<S>
    requires
        peers.no_duplicates(),
        all_listen(w.net.1, peers),
        w.net.1.inboxes.contains_key(p),
    ensures
        ({
            let (after, r) = Engine::<S, F>::announced::<MemoryNetEndpoint>(w, channel, peers);
            let told = NetEventView::Subscribe { peer: w.net.0, channel };
            &&& r == Ok::<(), NetError>(())
            &&& after.engine == w.engine
            &&& after.net.0 == w.net.0
            &&& after.net.1.inboxes.contains_key(p)
            &&& after.net.1.inboxes[p].events == (if peers.contains(p) {
                w.net.1.inboxes[p].events.push(told)
            } else {
                w.net.1.inboxes[p].events
            })
        }),
    decreases peers.len(),
{
    if peers.len() > 0 {
        let rest = peers.drop_first();
        let w1 = Engine::<S, F>::frame_sent::<MemoryNetEndpoint>(
            w,
            FrameView::Subscribe { peer: peers[0], channel },
        ).0;
        assert(w.net.1.inboxes.contains_key(peers[0]));
        assert forall|i: int| 0 <= i < rest.len() implies w1.net.1.inboxes.contains_key(#[trigger] rest[i])
            && w1.net.1.inboxes[rest[i]].open by {
            assert(rest[i] == peers[i + 1]);
        }
        law_subscription_is_announced::<S, F>(w1, channel, rest, p);
        assert(rest.contains(p) ==> peers.contains(p) && p != peers[0]) by {
            if rest.contains(p) {
                let i = choose|i: int| 0 <= i < rest.len() && rest[i] == p;
                assert(peers[i + 1] == p);
            }
        }
        assert(peers.contains(p) && p != peers[0] ==> rest.contains(p)) by {
            if peers.contains(p) && p != peers[0] {
                let i = choose|i: int| 0 <= i < peers.len() && peers[i] == p;
                assert(rest[i - 1] == p);
            }
        }
    }
}

/// A control frame for which there was no room goes out when there is: it is
/// in the queue of its peer, and owed no longer.
pub proof fn law_owed_frames_go_out<S, F>(
    w: World<S::Model, F::Model, (PeerId, HubView)>,
    frames: Seq<FrameView>,
    k: int,
) where S: Strategy<ChunkId = u32, RoutingUpdate = BitMap>, F: StrategyFactory<S>
    requires
        all_listen(w.net.1, frames.map_values(|f: FrameView| f.peer())),
        0 <= k < frames.len(),
    ensures
        ({
            let owing = World { engine: EngineView { owed: frames, ..w.engine }, ..w };
            let after = Engine::<S, F>::caught_up::<MemoryNetEndpoint>(owing);
            let sent = match frames[k] {
                FrameView::Handshake { peer } => NetEventView::Handshake {
                    peer: w.net.0,
                    version: 1,
                    channels: order::alphabetical(w.engine.channels.dom()),
                    peer_id: w.engine.name,
                },
                FrameView::Subscribe { peer, channel } => NetEventView::Subscribe {
                    peer: w.net.0,
                    channel,
                },
            };
            &&& after.engine.owed.len() == 0
            &&& after.net.1.inboxes[frames[k].peer()].events.contains(sent)
        }),
{
    let w0 = World { engine: EngineView { owed: Seq::empty(), ..w.engine }, ..w };
    lemma_frames_out::<S, F>(w0, frames, k);
}

pub(crate) proof fn lemma_frames_out<S, F>(
    w: World<S::Model, F::Model, (PeerId, HubView)>,
    frames: Seq<FrameView>,
    k: int,
) where S: Strategy<ChunkId = u32, RoutingUpdate = BitMap>, F: StrategyFactory<S>
    requires
        all_listen(w.net.1, frames.map_values(|f: FrameView| f.peer())),
        0 <= k,
    ensures
        ({
            let after = Engine::<S, F>::frames_sent::<MemoryNetEndpoint>(w, frames);
            &&& after.engine == w.engine
            &&& after.net.0 == w.net.0
            &&& forall|p: PeerId| #[trigger]
                w.net.1.inboxes.contains_key(p) ==> after.net.1.inboxes.contains_key(p)
            &&& forall|p: PeerId, e: NetEventView|
                w.net.1.inboxes.contains_key(p) && w.net.1.inboxes[p].events.contains(e)
                    ==> #[trigger] after.net.1.inboxes[p].events.contains(e)
            &&& k < frames.len() ==> after.net.1.inboxes[frames[k].peer()].events.contains(
                runtime::event_of(w.net.0, Engine::<S, F>::frame_message(w.engine, frames[k])),
            )
        }),
    decreases frames.len(),
{
    if frames.len() > 0 {
        let rest = frames.drop_first();
        let f = frames[0];
        let msg = Engine::<S, F>::frame_message(w.engine, f);
        let told = runtime::event_of(w.net.0, msg);
        let w1 = Engine::<S, F>::frame_sent::<MemoryNetEndpoint>(w, f).0;
        assert forall|p: PeerId| #[trigger] w.net.1.inboxes.contains_key(p) implies w1.net.1.inboxes.contains_key(
            p,
        ) by {
        }
        let names = frames.map_values(|f: FrameView| f.peer());
        assert(names[0] == f.peer());
        assert(w.net.1.inboxes.contains_key(f.peer()));
        assert(w1.engine == w.engine);
        let rest_names = rest.map_values(|f: FrameView| f.peer());
        assert forall|i: int| 0 <= i < rest_names.len() implies w1.net.1.inboxes.contains_key(
            #[trigger] rest_names[i],
        ) && w1.net.1.inboxes[rest_names[i]].open by {
            assert(rest_names[i] == names[i + 1]);
        }
        let q = w.net.1.inboxes[f.peer()].events;
        assert(w1.net.1.inboxes[f.peer()].events == q.push(told));
        assert(q.push(told)[q.len() as int] == told);
        assert forall|p: PeerId, e: NetEventView|
            w.net.1.inboxes.contains_key(p) && w.net.1.inboxes[p].events.contains(e) implies #[trigger] w1.net.1.inboxes[p].events.contains(e) by {
            let a = w.net.1.inboxes[p].events;
            let i = choose|i: int| 0 <= i < a.len() && a[i] == e;
            assert(w1.net.1.inboxes[p].events[i] == e);
        }
        let next: int = if k > 0 {
            k - 1
        } else {
            0
        };
        lemma_frames_out::<S, F>(w1, rest, next);
        let after = Engine::<S, F>::frames_sent::<MemoryNetEndpoint>(w, frames);
        assert(after == Engine::<S, F>::frames_sent::<MemoryNetEndpoint>(w1, rest));
        assert(w1.net.1.inboxes[f.peer()].events.contains(told));
        if 0 < k < frames.len() {
            assert(rest[next] == frames[k]);
            assert(after.net.1.inboxes[frames[k].peer()].events.contains(
                runtime::event_of(w.net.0, Engine::<S, F>::frame_message(w.engine, frames[k])),
            ));
        } else if k == 0 {
            assert(after.net.1.inboxes[f.peer()].events.contains(told));
        }
        assert forall|p: PeerId, e: NetEventView|
            w.net.1.inboxes.contains_key(p) && w.net.1.inboxes[p].events.contains(e) implies #[trigger] after.net.1.inboxes[p].events.contains(e) by {
            assert(w1.net.1.inboxes[p].events.contains(e));
            assert(w1.net.1.inboxes.contains_key(p));
            assert(after.net.1.inboxes[p].events.contains(e));
        }
    }
}

/// A routing update for which there is no room is due to its peer, as it is;
/// sending what is due sends that update again, and it is due no longer once
/// it went out.
pub proof fn law_refused_update_is_due<S, F, N>(
    w: World<S::Model, F::Model, N::Model>,
    id: SessionId,
    peer: PeerId,
    payload: Seq<u8>,
) where
    S: Strategy<ChunkId = u32, RoutingUpdate = BitMap>,
    F: StrategyFactory<S>,
    N: Net,

    requires
        w.engine.opened_to(id).contains(peer),
    ensures
        ({
            let key = (id.0, id.1, peer);
            let update = NetSendView::RoutingUpdate {
                peer,
                channel: id.0,
                message_id: id.1,
                payload,
            };
            let (after, r) = Engine::<S, F>::update_sent::<N>(w, id, peer, payload);
            let (again, r2) = Engine::<S, F>::due_sent::<N>(after, id, seq![peer]);
            let (net2, taken) = N::sent(after.net, update);
            &&& after.net == N::sent(w.net, update).0
            &&& r == N::sent(w.net, update).1
            &&& after.engine == (EngineView { due: after.engine.due, ..w.engine })
            &&& model::refused(r) ==> {
                &&& after.engine.due.contains_key(key)
                &&& after.engine.due[key] == payload
                &&& again.net == net2
                &&& taken is Ok ==> !again.engine.due.contains_key(key)
            }
            &&& !model::refused(r) ==> !after.engine.due.contains_key(key) && again == after
        }),
{
    let (after, r) = Engine::<S, F>::update_sent::<N>(w, id, peer, payload);
    let list = seq![peer];
    assert(list[0] == peer);
    assert(list.drop_first() =~= Seq::<PeerId>::empty());
    reveal_with_fuel(Engine::<_, _>::due_sent, 2);
    assert(after.engine.opened_to(id) == w.engine.opened_to(id));
}

/// An engine that has just been made leaves the first sweep for an interval.
pub proof fn law_first_sweep_waits<M, F>(local_peer: PeerId, config: EngineConfig, made: Nanos, now: Nanos)
    requires
        made + config.cleanup_interval <= u64::MAX,
    ensures
        ({
            let e = EngineView::<M, F>::idle(local_peer, config, made);
            &&& now < made + config.cleanup_interval ==> e.cleaned(now) == e
            &&& now >= made + config.cleanup_interval && now + config.cleanup_interval <= u64::MAX
                ==> e.cleaned(now).next_cleanup == now + config.cleanup_interval
        }),
{
}

/// A session is dated when it begins, and over from when it ends first:
/// neither date changes afterwards.
pub proof fn law_dates_stand<M, F>(e: EngineView<M, F>, id: SessionId, first: Nanos, again: Nanos)
    ensures
        e.created(id, first).created(id, again) == e.created(id, first),
        e.created(id, first).meta.contains_key(id),
        !e.meta.contains_key(id) ==> e.created(id, first).meta[id] == (SessionMeta {
            created_at: first,
            terminal_at: None,
        }),
        e.ended(id, first).ended(id, again) == e.ended(id, first),
        e.meta.contains_key(id) && e.meta[id].terminal_at is None ==> e.ended(id, first).meta[id] == (
        SessionMeta { terminal_at: Some(first), ..e.meta[id] }),
        e.meta.contains_key(id) && e.meta[id].terminal_at is Some ==> e.ended(id, first) == e,
{
}

/// A session that is open already, one on a channel that the engine does not
/// host, and one whose preamble is refused are not opened: nothing is sent,
/// no session changes, and chunks that came early stay.
pub proof fn law_refused_open_changes_nothing<S, F, N>(
    w: World<S::Model, F::Model, N::Model>,
    id: SessionId,
    peer: PeerId,
    preamble: Seq<u8>,
    update: Seq<u8>,
    now: Nanos,
    reading: u32,
    other: SessionId,
) where
    S: Strategy<ChunkId = u32, RoutingUpdate = BitMap>,
    F: StrategyFactory<S>,
    N: Net,

    requires
        w.engine.session(id) is Some || !w.engine.channels.contains_key(id.0) || F::built(
            w.engine.channels[id.0].factory,
            preamble,
            reading,
        ).1 is Err,
    ensures
        ({
            let after = Engine::<S, F>::handled::<N>(
                w,
                NetEventView::SessionOpen {
                    peer,
                    channel: id.0,
                    message_id: id.1,
                    preamble,
                    initial_update: update,
                },
                now,
                reading,
            );
            &&& after.net == w.net
            &&& after.engine == (EngineView { channels: after.engine.channels, ..w.engine })
            &&& after.engine.session(other) == w.engine.session(other)
            &&& after.engine.channels.dom() == w.engine.channels.dom()
        }),
{
    assert((id.0, id.1) == id);
    let e = w.engine;
    if e.channels.contains_key(id.0) {
        let (c, r) = Channel::<S, F>::opened(e.channels[id.0], id.1, preamble, reading);
        assert(e.channels.insert(id.0, c).dom() =~= e.channels.dom());
    }
}

/// Each of the peers to which a session is open, if they listen, gets a
/// routing update that is sent to them, once, and no one else does.
pub proof fn law_routing_reaches_everyone<S, F>(
    w: World<S::Model, F::Model, (PeerId, HubView)>,
    id: SessionId,
    peers: Seq<PeerId>,
    payload: Seq<u8>,
    p: PeerId,
) where S: Strategy<ChunkId = u32, RoutingUpdate = BitMap>, F: StrategyFactory<S>
    requires
        peers.no_duplicates(),
        all_listen(w.net.1, peers),
        forall|i: int| 0 <= i < peers.len() ==> w.engine.opened_to(id).contains(#[trigger] peers[i]),
        w.net.1.inboxes.contains_key(p),
    ensures
        ({
            let (after, r) = Engine::<S, F>::routing_sent::<MemoryNetEndpoint>(w, id, peers, payload);
            let told = NetEventView::RoutingUpdate {
                peer: w.net.0,
                channel: id.0,
                message_id: id.1,
                payload,
            };
            &&& r == Ok::<(), NetError>(())
            &&& after.net.1.inboxes.contains_key(p)
            &&& after.net.1.inboxes[p].events == (if peers.contains(p) {
                w.net.1.inboxes[p].events.push(told)
            } else {
                w.net.1.inboxes[p].events
            })
        }),
    decreases peers.len(),
{
    if peers.len() > 0 {
        let rest = peers.drop_first();
        let w1 = Engine::<S, F>::update_sent::<MemoryNetEndpoint>(w, id, peers[0], payload).0;
        assert(w.net.1.inboxes.contains_key(peers[0]));
        assert(w1.engine.opened_to(id) == w.engine.opened_to(id));
        assert forall|i: int| 0 <= i < rest.len() implies w1.net.1.inboxes.contains_key(#[trigger] rest[i])
            && w1.net.1.inboxes[rest[i]].open by {
            assert(rest[i] == peers[i + 1]);
        }
        assert forall|i: int| 0 <= i < rest.len() implies w1.engine.opened_to(id).contains(
            #[trigger] rest[i],
        ) by {
            assert(rest[i] == peers[i + 1]);
        }
        law_routing_reaches_everyone::<S, F>(w1, id, rest, payload, p);
        assert(rest.contains(p) ==> peers.contains(p) && p != peers[0]) by {
            if rest.contains(p) {
                let i = choose|i: int| 0 <= i < rest.len() && rest[i] == p;
                assert(peers[i + 1] == p);
            }
        }
        assert(peers.contains(p) && p != peers[0] ==> rest.contains(p)) by {
            if peers.contains(p) && p != peers[0] {
                let i = choose|i: int| 0 <= i < peers.len() && peers[i] == p;
                assert(rest[i - 1] == p);
            }
        }
    }
}

proof fn lemma_completes_all<S, F>(
    e: EngineView<S::Model, F::Model>,
    id: SessionId,
    chunks: Seq<ParkedView>,
    complete: bool,
) where S: Strategy<ChunkId = u32, RoutingUpdate = BitMap>, F: StrategyFactory<S>
    requires
        laws::stage(e, id) == Some(SessionState::Decoding) ==> complete,
    ensures
        ({
            let (b, c) = Engine::<S, F>::taken_all(e, id, chunks, complete);
            &&& laws::stage(b, id) == Some(SessionState::Decoding) ==> c
            &&& e.session(id) is Some ==> b.session(id) is Some
        }),
    decreases chunks.len(),
{
    if chunks.len() > 0 {
        let (e1, c) = Engine::<S, F>::taken(e, id, chunks[0].chunk_id, chunks[0].payload);
        lemma_completes_all::<S, F>(e1, id, chunks.drop_first(), complete || c);
    }
}

proof fn lemma_progress_decodes<S, F, N>(
    w: World<S::Model, F::Model, N::Model>,
    id: SessionId,
    complete: bool,
    now: Nanos,
) where
    S: Strategy<ChunkId = u32, RoutingUpdate = BitMap>,
    F: StrategyFactory<S>,
    N: Net,

    requires
        laws::stage(w.engine, id) == Some(SessionState::Decoding) ==> complete,
    ensures
        laws::stage(Engine::<S, F>::progressed::<N>(w, id, complete, now).engine, id) != Some(
            SessionState::Decoding,
        ),
{
    laws::lemma_drain::<S, F, N>(w, id);
    let w1 = Engine::<S, F>::drain::<N>(w, id).0;
    assert(laws::stage(w1.engine, id) == laws::stage(w.engine, id));
}

/// A session that has become complete is decoded at once, whether the chunk
/// that completes it just came or came before the session: no event leaves a
/// session decoding.
pub proof fn law_complete_session_is_decoded<S, F, N>(
    w: World<S::Model, F::Model, N::Model>,
    id: SessionId,
    event: NetEventView,
    now: Nanos,
    reading: u32,
) where
    S: Strategy<ChunkId = u32, RoutingUpdate = BitMap>,
    F: StrategyFactory<S>,
    N: Net,

    requires
        laws::stage(w.engine, id) != Some(SessionState::Decoding),
        event is Chunk || event is SessionOpen,
        event is Chunk ==> (event->Chunk_channel, event->Chunk_message_id) == id,
        event is SessionOpen ==> (event->SessionOpen_channel, event->SessionOpen_message_id) == id,
    ensures
        laws::stage(Engine::<S, F>::handled::<N>(w, event, now, reading).engine, id) != Some(
            SessionState::Decoding,
        ),
{
    let e = w.engine;
    match event {
        NetEventView::Chunk { chunk_id, payload, .. } => {
            if !e.tombstoned(id) && e.session(id) is Some {
                let (e1, complete) = Engine::<S, F>::taken(e, id, chunk_id, payload);
                lemma_progress_decodes::<S, F, N>(World { engine: e1, ..w }, id, complete, now);
            }
        },
        NetEventView::SessionOpen { preamble, .. } => {
            if !e.tombstoned(id) && e.channels.contains_key(id.0) {
                let (c, r) = Channel::<S, F>::opened(e.channels[id.0], id.1, preamble, reading);
                if r is Ok {
                    let e2 = EngineView {
                        channels: e.channels.insert(id.0, c),
                        preambles: e.preambles.insert(id, preamble),
                        ..e
                    };
                    let w3 = World { engine: e2.created(id, now), ..w };
                    let built = F::built(e.channels[id.0].factory, preamble, reading).1->Ok_0;
                    lemma_attached_state::<S>(
                        SessionView { state: SessionState::Consuming, strategy: built },
                        order::ascending(e.channels[id.0].subscribers),
                    );
                    laws::lemma_drain::<S, F, N>(w3, id);
                    let w4 = Engine::<S, F>::drain::<N>(w3, id).0;
                    assert(laws::stage(w4.engine, id) == laws::stage(w3.engine, id));
                    if w4.engine.parked.contains_key(id) {
                        let e5 = EngineView { parked: w4.engine.parked.remove(id), ..w4.engine };
                        assert(laws::stage(e5, id) == laws::stage(w4.engine, id));
                        lemma_completes_all::<S, F>(e5, id, w4.engine.parked[id], false);
                        let (e6, complete) = Engine::<S, F>::taken_all(
                            e5,
                            id,
                            w4.engine.parked[id],
                            false,
                        );
                        lemma_progress_decodes::<S, F, N>(
                            World { engine: e6, ..w4 },
                            id,
                            complete,
                            now,
                        );
                    }
                }
            }
        },
        _ => {},
    }
}

/// Times add up, and the time between two is their difference; neither leaves
/// the range of times.
pub proof fn law_times_stay_in_range(a: Nanos, b: Nanos)
    ensures
        a + b <= u64::MAX ==> model::later(a, b) == a + b,
        a + b > u64::MAX ==> model::later(a, b) == u64::MAX,
        a >= b ==> model::elapsed(a, b) == a - b,
        a < b ==> model::elapsed(a, b) == 0,
{
}

/// Sends that go on after a lack of room end well only where none failed. A
/// failure other than that tells more than a lack of room before it; of two
/// lacks of room the first is told.
pub proof fn law_failures_are_told(a: Result<(), NetError>, b: Result<(), NetError>)
    ensures
        model::overall(a, b) is Ok <==> a is Ok && b is Ok,
        b is Err && !(b matches Err(NetError::Backpressure(_))) ==> model::overall(a, b) == b,
        a is Ok ==> model::overall(a, b) == b,
        a is Err && (b is Ok || b matches Err(NetError::Backpressure(_))) ==> model::overall(a, b) == a,
{
}

} // verus!
