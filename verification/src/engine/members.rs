//! Who takes part in the sessions of an engine.

use vstd::prelude::*;

use crate::channel::{Channel, ChannelView, StrategyFactory};
use crate::engine::laws;
use crate::engine::model::{EngineView, FrameView, SessionId, World};
use crate::engine::{Engine, Nanos};
use crate::order;
use crate::runtime::{Net, NetEventView, NetSendView};
use crate::session::{Session, SessionState, SessionView};
use crate::strategy::rs;
use crate::strategy::rs::state::{Flight, RsStrategy, RsView};
use crate::strategy::PeerId;

verus! {

/// A peer that subscribes takes part in every session of the channel from
/// then on, along with whoever does already. Nothing else about the sessions
/// changes.
pub proof fn law_subscriber_joins_every_session<F>(
    v: ChannelView<RsView, F::Model>,
    peer: PeerId,
    message_id: Seq<char>,
) where F: StrategyFactory<RsStrategy>
    requires
        !v.subscribers.contains(peer),
        v.sessions.contains_key(message_id),
    ensures
        ({
            let after = Channel::<RsStrategy, F>::subscribed(v, peer);
            let a = v.sessions[message_id];
            let b = after.sessions[message_id];
            &&& after.subscribers == v.subscribers.insert(peer)
            &&& after.sessions.dom() == v.sessions.dom()
            &&& b.strategy.peers == a.strategy.peers.insert(peer)
            &&& b.state == a.state
            &&& b.strategy == (RsView { peers: b.strategy.peers, ..a.strategy })
        }),
{
    assert(Channel::<RsStrategy, F>::subscribed(v, peer).sessions.dom() =~= v.sessions.dom());
}

/// A peer that unsubscribes takes part in no session of the channel any more,
/// and nothing is in flight to it. The others stay, and so do the flights to
/// them and what is held.
pub proof fn law_unsubscriber_leaves_every_session<F>(
    v: ChannelView<RsView, F::Model>,
    peer: PeerId,
    message_id: Seq<char>,
    other: PeerId,
) where F: StrategyFactory<RsStrategy>
    requires
        Channel::<RsStrategy, F>::valid(v),
        v.subscribers.contains(peer),
        v.sessions.contains_key(message_id),
    ensures
        ({
            let after = Channel::<RsStrategy, F>::unsubscribed(v, peer);
            let a = v.sessions[message_id];
            let b = after.sessions[message_id];
            &&& after.subscribers == v.subscribers.remove(peer)
            &&& after.sessions.dom() == v.sessions.dom()
            &&& !b.strategy.peers.contains(peer)
            &&& other != peer ==> b.strategy.peers.contains(other) == a.strategy.peers.contains(other)
            &&& b.strategy.flights == a.strategy.flights.filter(|f: Flight| f.peer != peer)
            &&& b.strategy.chunks == a.strategy.chunks
            &&& b.state == a.state
        }),
{
    assert(Channel::<RsStrategy, F>::unsubscribed(v, peer).sessions.dom() =~= v.sessions.dom());
    rs::laws::law_detach_clears_flights(v.sessions[message_id].strategy, peer);
}

/// Subscribing again, or unsubscribing without being subscribed, changes
/// nothing.
pub proof fn law_membership_counts_once<F>(v: ChannelView<RsView, F::Model>, peer: PeerId) where
    F: StrategyFactory<RsStrategy>,

    ensures
        ({
            let joined = Channel::<RsStrategy, F>::subscribed(v, peer);
            let left = Channel::<RsStrategy, F>::unsubscribed(v, peer);
            &&& joined.subscribers.contains(peer)
            &&& !left.subscribers.contains(peer)
            &&& Channel::<RsStrategy, F>::subscribed(joined, peer) == joined
            &&& Channel::<RsStrategy, F>::unsubscribed(left, peer) == left
            &&& v.subscribers.contains(peer) ==> joined == v
            &&& !v.subscribers.contains(peer) ==> left == v
        }),
{
}

proof fn lemma_all_attached(v: SessionView<RsView>, list: Seq<PeerId>)
    ensures
        ({
            let after = Session::<RsStrategy>::attached_all(v, list);
            &&& after.state == v.state
            &&& after.strategy == (RsView { peers: after.strategy.peers, ..v.strategy })
            &&& forall|p: PeerId| #[trigger]
                after.strategy.peers.contains(p) <==> v.strategy.peers.contains(p) || list.contains(p)
        }),
    decreases list.len(),
{
    if list.len() > 0 {
        let head = list.drop_last();
        lemma_all_attached(v, head);
        let mid = Session::<RsStrategy>::attached_all(v, head);
        let after = Session::<RsStrategy>::attached_all(v, list);
        assert forall|p: PeerId| #[trigger]
            after.strategy.peers.contains(p) <==> v.strategy.peers.contains(p) || list.contains(p) by {
            assert(mid.strategy.peers.contains(p) <==> v.strategy.peers.contains(p) || head.contains(p));
            if head.contains(p) {
                let i = choose|i: int| 0 <= i < head.len() && head[i] == p;
                assert(list[i] == p);
            }
            if list.contains(p) && p != list.last() {
                let i = choose|i: int| 0 <= i < list.len() && list[i] == p;
                assert(head[i] == p);
            }
            assert(list[list.len() - 1] == list.last());
        }
    }
}

/// A session that an origin starts has the subscribers of the channel taking
/// part, and no one else. A channel starts no session twice, and starting one
/// leaves the others as they are.
pub proof fn law_started_session_serves_subscribers<F>(
    v: ChannelView<RsView, F::Model>,
    message_id: Seq<char>,
    strategy: RsView,
    p: PeerId,
    other: Seq<char>,
) where F: StrategyFactory<RsStrategy>
    requires
        v.subscribers.finite(),
        strategy.peers == Set::<PeerId>::empty(),
        other != message_id,
    ensures
        ({
            let (after, r) = Channel::<RsStrategy, F>::started(v, message_id, strategy);
            let s = after.sessions[message_id];
            &&& r is Ok <==> !v.sessions.contains_key(message_id)
            &&& r is Err ==> after == v
            &&& r is Ok ==> {
                &&& after.sessions.contains_key(message_id)
                &&& s.state == SessionState::Origin
                &&& s.strategy.peers.contains(p) <==> v.subscribers.contains(p)
                &&& s.strategy == (RsView { peers: s.strategy.peers, ..strategy })
                &&& after.sessions.contains_key(other) == v.sessions.contains_key(other)
                &&& v.sessions.contains_key(other) ==> after.sessions[other] == v.sessions[other]
                &&& after.subscribers == v.subscribers
            }
        }),
{
    let list = order::ascending(v.subscribers);
    order::lemma_ascending(v.subscribers);
    lemma_all_attached(SessionView { state: SessionState::Origin, strategy }, list);
    assert(list.to_set().contains(p) <==> list.contains(p));
}

/// A session that a peer opens takes what the factory builds, and has the
/// subscribers of the channel taking part, and no one else. A channel opens no
/// session twice, and opening one leaves the others as they are.
pub proof fn law_opened_session_serves_subscribers<F>(
    v: ChannelView<RsView, F::Model>,
    message_id: Seq<char>,
    preamble: Seq<u8>,
    reading: u32,
    p: PeerId,
    other: Seq<char>,
) where F: StrategyFactory<RsStrategy>
    requires
        v.subscribers.finite(),
        other != message_id,
        F::built(v.factory, preamble, reading).1 matches Ok(m) ==> m.peers == Set::<PeerId>::empty(),
    ensures
        ({
            let (after, r) = Channel::<RsStrategy, F>::opened(v, message_id, preamble, reading);
            let s = after.sessions[message_id];
            let built = F::built(v.factory, preamble, reading).1;
            &&& r is Ok <==> !v.sessions.contains_key(message_id) && built is Ok
            &&& v.sessions.contains_key(message_id) ==> after == v
            &&& r is Err ==> after.sessions == v.sessions
            &&& r is Ok ==> {
                &&& after.sessions.contains_key(message_id)
                &&& s.state == SessionState::Consuming
                &&& s.strategy.peers.contains(p) <==> v.subscribers.contains(p)
                &&& s.strategy == (RsView { peers: s.strategy.peers, ..built->Ok_0 })
            }
            &&& after.sessions.contains_key(other) == v.sessions.contains_key(other)
            &&& v.sessions.contains_key(other) ==> after.sessions[other] == v.sessions[other]
            &&& after.subscribers == v.subscribers
        }),
{
    let list = order::ascending(v.subscribers);
    order::lemma_ascending(v.subscribers);
    if let Ok(m) = F::built(v.factory, preamble, reading).1 {
        lemma_all_attached(SessionView { state: SessionState::Consuming, strategy: m }, list);
    }
    assert(list.to_set().contains(p) <==> list.contains(p));
}

/// A peer that introduces itself with channels subscribes to each of them in
/// turn. One that speaks another version is not connected, and subscribes to
/// nothing.
pub proof fn law_handshake_subscribes<F, N>(
    w: World<RsView, F::Model, N::Model>,
    peer: PeerId,
    version: u32,
    channels: Seq<Seq<char>>,
    peer_id: Seq<char>,
    now: Nanos,
    reading: u32,
) where F: StrategyFactory<RsStrategy>, N: Net
    ensures
        ({
            let e = w.engine;
            let met = World {
                engine: EngineView { connected: e.connected.insert(peer), ..e },
                ..w
            };
            let after = Engine::<RsStrategy, F>::handled::<N>(
                w,
                NetEventView::Handshake { peer, version, channels, peer_id },
                now,
                reading,
            );
            let first = Engine::<RsStrategy, F>::handled::<N>(
                met,
                NetEventView::Subscribe { peer, channel: channels[0] },
                now,
                reading,
            );
            let rest = NetEventView::Handshake {
                peer,
                version,
                channels: channels.drop_first(),
                peer_id,
            };
            &&& version != 1 ==> after == World {
                engine: EngineView { connected: e.connected.remove(peer), ..e },
                ..w
            }
            &&& version == 1 && channels.len() == 0 ==> after == met
            &&& version == 1 && channels.len() > 0 ==> after == Engine::<RsStrategy, F>::handled::<N>(first, rest, now, reading)
        }),
{
    if version == 1 && channels.len() > 0 {
        let met = World {
            engine: EngineView { connected: w.engine.connected.insert(peer), ..w.engine },
            ..w
        };
        let first = Engine::<RsStrategy, F>::handled::<N>(
            met,
            NetEventView::Subscribe { peer, channel: channels[0] },
            now,
            reading,
        );
        let joined = World {
            engine: Engine::<RsStrategy, F>::subscribed(met.engine, channels[0], peer),
            ..met
        };
        laws::lemma_drain_channel::<RsStrategy, F, N>(joined, channels[0]);
        assert(first.engine.connected.insert(peer) =~= first.engine.connected);
        assert(EngineView { connected: first.engine.connected.insert(peer), ..first.engine }
            =~= first.engine);
    }
}

/// A peer that connects is told the version, the channels that the engine
/// hosts and its name, unless that happened before.
pub proof fn law_introduction_names_channels<F, N>(
    w: World<RsView, F::Model, N::Model>,
    peer: PeerId,
    now: Nanos,
    reading: u32,
) where F: StrategyFactory<RsStrategy>, N: Net
    ensures
        ({
            let after = Engine::<RsStrategy, F>::handled::<N>(
                w,
                NetEventView::PeerConnected { peer },
                now,
                reading,
            );
            let (net, r) = N::sent(
                w.net,
                NetSendView::Handshake {
                    peer,
                    version: 1,
                    channels: order::alphabetical(w.engine.channels.dom()),
                    peer_id: w.engine.name,
                },
            );
            &&& after.engine.connected.contains(peer)
            &&& w.engine.connected.contains(peer) ==> after == w
            &&& !w.engine.connected.contains(peer) ==> after.net == net && after.engine.connected
                == w.engine.connected.insert(peer)
            &&& r is Ok ==> after.engine.owed == w.engine.owed
            &&& after.engine.channels == w.engine.channels
        }),
{
}

/// A peer that disconnects is forgotten: it is connected and subscribed to
/// nothing, takes part in no session, is open to none, and nothing is pending,
/// in flight, due or owed to it. Nothing is forgotten of the others.
pub proof fn law_departed_peer_is_forgotten<F, N>(
    w: World<RsView, F::Model, N::Model>,
    peer: PeerId,
    now: Nanos,
    reading: u32,
    other: PeerId,
    channel: Seq<char>,
    message_id: Seq<char>,
    token: u64,
) where F: StrategyFactory<RsStrategy>, N: Net
    requires
        Engine::<RsStrategy, F>::valid(w.engine),
        other != peer,
    ensures
        ({
            let e = w.engine;
            let after = Engine::<RsStrategy, F>::handled::<N>(
                w,
                NetEventView::PeerDisconnected { peer },
                now,
                reading,
            );
            let b = after.engine;
            let id = (channel, message_id);
            let key = (channel, message_id, token);
            &&& after.net == w.net
            &&& !b.connected.contains(peer)
            &&& b.connected.contains(other) == e.connected.contains(other)
            &&& b.channels.dom() == e.channels.dom()
            &&& e.channels.contains_key(channel) ==> {
                &&& !b.channels[channel].subscribers.contains(peer)
                &&& b.channels[channel].subscribers.contains(other)
                    == e.channels[channel].subscribers.contains(other)
            }
            &&& !b.opened_to(id).contains(peer)
            &&& b.opened_to(id).contains(other) == e.opened_to(id).contains(other)
            &&& b.pending.contains_key(key) <==> e.pending.contains_key(key) && e.pending[key] != peer
            &&& b.pending.contains_key(key) ==> b.pending[key] == e.pending[key]
            &&& !b.due.contains_key((channel, message_id, peer))
            &&& b.due.contains_key((channel, message_id, other)) == e.due.contains_key(
                (channel, message_id, other),
            )
            &&& forall|f: FrameView|
                #![trigger b.owed.contains(f)]
                b.owed.contains(f) <==> e.owed.contains(f) && f.peer() != peer
            &&& e.session(id) matches Some(s) ==> (b.session(id) matches Some(t) && {
                &&& e.channels[channel].subscribers.contains(peer) ==> !t.strategy.peers.contains(peer)
                    && t.strategy.flights == s.strategy.flights.filter(|f: Flight| f.peer != peer)
                &&& t.strategy.peers.contains(other) == s.strategy.peers.contains(other)
                &&& t.strategy.chunks == s.strategy.chunks
                &&& t.state == s.state
            })
            &&& b.delivered == e.delivered
            &&& b.meta == e.meta
            &&& b.tombstones == e.tombstones
            &&& b.parked == e.parked
        }),
{
    let e = w.engine;
    let b = Engine::<RsStrategy, F>::left(e, peer);
    let id = (channel, message_id);
    assert(b.channels.dom() =~= e.channels.dom());
    if e.channels.contains_key(channel) {
        let c = e.channels[channel];
        assert(Channel::<RsStrategy, F>::valid(c));
        law_membership_counts_once::<F>(c, peer);
        if c.sessions.contains_key(message_id) && c.subscribers.contains(peer) {
            law_unsubscriber_leaves_every_session::<F>(c, peer, message_id, other);
        }
    }
    let keep = |f: FrameView| f.peer() != peer;
    assert forall|f: FrameView| #![trigger b.owed.contains(f)] b.owed.contains(f) <==> e.owed.contains(f)
        && f.peer() != peer by {
        e.owed.filter_lemma(keep);
        if b.owed.contains(f) {
            e.owed.lemma_filter_contains_rev(keep, f);
        }
    }
}

/// A peer that has the message, or closes the session, takes no further part
/// in that session, and in that only: nothing is in flight to it there, and
/// all else stays.
pub proof fn law_finished_peer_leaves_one_session<F, N>(
    w: World<RsView, F::Model, N::Model>,
    peer: PeerId,
    id: SessionId,
    event: NetEventView,
    now: Nanos,
    reading: u32,
    other: SessionId,
) where F: StrategyFactory<RsStrategy>, N: Net
    requires
        Engine::<RsStrategy, F>::valid(w.engine),
        w.engine.session(id) is Some,
        event == (NetEventView::PeerReconstructed { peer, channel: id.0, message_id: id.1 }) || event
            == (NetEventView::SessionClosed { peer, channel: id.0, message_id: id.1 }),
        other != id,
    ensures
        ({
            let e = w.engine;
            let after = Engine::<RsStrategy, F>::handled::<N>(w, event, now, reading);
            let s = e.session(id)->Some_0;
            &&& after.net == w.net
            &&& after.engine == (EngineView { channels: after.engine.channels, ..e })
            &&& after.engine.session(other) == e.session(other)
            &&& after.engine.session(id) matches Some(t) && {
                &&& t.state == s.state
                &&& t.strategy.chunks == s.strategy.chunks
                &&& t.strategy.peers == s.strategy.peers.remove(peer)
                &&& t.strategy.flights == s.strategy.flights.filter(|f: Flight| f.peer != peer)
            }
            &&& e.channels.contains_key(other.0) ==> after.engine.channels[other.0].subscribers
                == e.channels[other.0].subscribers
        }),
{
    assert((id.0, id.1) == id);
    let s = w.engine.session(id)->Some_0;
    assert(Channel::<RsStrategy, F>::valid(w.engine.channels[id.0]));
    assert(w.engine.channels[id.0].sessions.contains_key(id.1));
    rs::laws::law_detach_clears_flights(s.strategy, peer);
    let b = w.engine.with_session(id, Session::<RsStrategy>::detached(s, peer, true));
    if other.0 == id.0 {
        assert(other.1 != id.1) by {
            if other.1 == id.1 {
                assert(other == id);
            }
        }
    }
    let left = RsView { peers: s.strategy.peers.remove(peer), ..s.strategy };
    assert(s.strategy.detached(peer).peers == left.peers);
}

} // verus!
