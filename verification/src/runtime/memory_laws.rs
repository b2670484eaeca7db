//! What a run of the in-process transport delivers.

use vstd::prelude::*;

use crate::order;
use crate::runtime;
use crate::runtime::memory_net;
use crate::runtime::memory_net::{HubView, InboxView};
use crate::runtime::{NetEventView, NetSendView};
use crate::strategy::PeerId;

verus! {

/// One call on a hub.
pub ghost enum HubAct {
    /// `src` submits a message.
    Send { src: PeerId, msg: NetSendView },
    /// `peer` takes its next event, if one waits.
    Take { peer: PeerId },
    Register { peer: PeerId },
    Disconnect { peer: PeerId },
    Close { peer: PeerId },
}

/// The hub after a call.
pub open spec fn acted(m: HubView, act: HubAct) -> HubView {
    match act {
        HubAct::Send { src, msg } => m.sent(src, msg).0,
        HubAct::Take { peer } => if took(m, act, peer).len() > 0 {
            let q = m.inboxes[peer];
            HubView {
                inboxes: m.inboxes.insert(
                    peer,
                    InboxView { events: q.events.drop_first(), ..q },
                ),
                ..m
            }
        } else {
            m
        },
        HubAct::Register { peer } => HubView {
            inboxes: m.inboxes.insert(peer, InboxView { open: true, events: Seq::empty() }),
            ..m
        },
        HubAct::Disconnect { peer } => HubView { inboxes: m.inboxes.remove(peer), ..m },
        HubAct::Close { peer } => if m.inboxes.contains_key(peer) {
            HubView {
                inboxes: m.inboxes.insert(peer, InboxView { open: false, events: Seq::empty() }),
                ..m
            }
        } else {
            m
        },
    }
}

/// What `p` takes in a call: one event at most.
pub open spec fn took(m: HubView, act: HubAct, p: PeerId) -> Seq<NetEventView> {
    if act == (HubAct::Take { peer: p }) && m.inboxes.contains_key(p) && m.inboxes[p].events.len() > 0 {
        seq![m.inboxes[p].events[0]]
    } else {
        Seq::empty()
    }
}

/// The hub after a run of calls.
pub open spec fn run(m: HubView, acts: Seq<HubAct>) -> HubView
    decreases acts.len(),
{
    if acts.len() == 0 {
        m
    } else {
        acted(run(m, acts.drop_last()), acts.last())
    }
}

/// What `p` took over a run.
pub open spec fn got(m: HubView, acts: Seq<HubAct>, p: PeerId) -> Seq<NetEventView>
    decreases acts.len(),
{
    if acts.len() == 0 {
        Seq::empty()
    } else {
        got(m, acts.drop_last(), p) + took(run(m, acts.drop_last()), acts.last(), p)
    }
}

/// The events of `p` over a run: those it took, and those that wait for it.
pub open spec fn stream(m: HubView, acts: Seq<HubAct>, p: PeerId) -> Seq<NetEventView> {
    got(m, acts, p) + run(m, acts).inboxes[p].events
}

/// `p` listens, and no call of the run registers it anew, disconnects it or
/// makes it stop listening.
pub open spec fn stays(m: HubView, acts: Seq<HubAct>, p: PeerId) -> bool {
    &&& m.inboxes.contains_key(p)
    &&& m.inboxes[p].open
    &&& forall|i: int|
        0 <= i < acts.len() ==> {
            &&& #[trigger] acts[i] != (HubAct::Register { peer: p })
            &&& acts[i] != (HubAct::Disconnect { peer: p })
            &&& acts[i] != (HubAct::Close { peer: p })
        }
}

/// The event is a message that `a` addressed to the peer that sees it.
pub open spec fn comes_from(a: PeerId) -> spec_fn(NetEventView) -> bool {
    |e: NetEventView|
        match e {
            NetEventView::Handshake { peer, .. } => peer == a,
            NetEventView::Subscribe { peer, .. } => peer == a,
            NetEventView::Unsubscribe { peer, .. } => peer == a,
            NetEventView::SessionOpen { peer, .. } => peer == a,
            NetEventView::RoutingUpdate { peer, .. } => peer == a,
            NetEventView::Chunk { peer, .. } => peer == a,
            _ => false,
        }
}

/// The event reports on a chunk sent to `b`.
pub open spec fn reports_on(b: PeerId) -> spec_fn(NetEventView) -> bool {
    |e: NetEventView|
        match e {
            NetEventView::ChunkSendResult { peer, .. } => peer == b,
            _ => false,
        }
}

/// The messages that `a` addresses to `b` in a run, as `b` is to see them.
pub open spec fn addressed(acts: Seq<HubAct>, a: PeerId, b: PeerId) -> Seq<NetEventView>
    decreases acts.len(),
{
    if acts.len() == 0 {
        Seq::empty()
    } else {
        let head = addressed(acts.drop_last(), a, b);
        match acts.last() {
            HubAct::Send { src, msg } => if src == a && runtime::destination_of(msg) == Some(b) {
                head.push(runtime::event_of(a, msg))
            } else {
                head
            },
            _ => head,
        }
    }
}

/// A report for each chunk that `a` sends to `b` in a run.
pub open spec fn reports(acts: Seq<HubAct>, a: PeerId, b: PeerId) -> Seq<NetEventView>
    decreases acts.len(),
{
    if acts.len() == 0 {
        Seq::empty()
    } else {
        let head = reports(acts.drop_last(), a, b);
        match acts.last() {
            HubAct::Send { src, msg } => if src == a && runtime::destination_of(msg) == Some(b)
                && memory_net::ack(msg) is Some {
                head.push(memory_net::ack(msg)->Some_0)
            } else {
                head
            },
            _ => head,
        }
    }
}

/// What a call adds to the queue of a listening `p`, other than news of a
/// reconstruction.
spec fn added(m: HubView, act: HubAct, p: PeerId) -> Seq<NetEventView> {
    match act {
        HubAct::Send { src, msg } => {
            let dst = runtime::destination_of(msg);
            if dst is Some && m.sent(src, msg).1 is Ok {
                (if dst == Some(p) {
                    seq![runtime::event_of(src, msg)]
                } else {
                    Seq::empty()
                }) + (if src == p && memory_net::ack(msg) is Some {
                    seq![memory_net::ack(msg)->Some_0]
                } else {
                    Seq::empty()
                })
            } else {
                Seq::empty()
            }
        },
        _ => Seq::empty(),
    }
}

proof fn lemma_split(a: Seq<NetEventView>, b: Seq<NetEventView>, f: spec_fn(NetEventView) -> bool)
    ensures
        (a + b).filter(f) == a.filter(f) + b.filter(f),
{
    Seq::filter_distributes_over_add(a, b, f);
}

proof fn lemma_one(e: NetEventView, f: spec_fn(NetEventView) -> bool)
    ensures
        seq![e].filter(f) == (if f(e) {
            seq![e]
        } else {
            Seq::empty()
        }),
        Seq::<NetEventView>::empty().filter(f) == Seq::<NetEventView>::empty(),
{
    reveal(Seq::filter);
    assert(seq![e].drop_last() =~= Seq::<NetEventView>::empty());
    assert(seq![e].last() == e);
    assert(Seq::<NetEventView>::empty().filter(f) =~= Seq::<NetEventView>::empty());
    assert(seq![e].filter(f) =~= (if f(e) {
        seq![e]
    } else {
        Seq::empty()
    }));
}

/// News that `f` does not watch does not show in what it watches.
proof fn lemma_news(
    inboxes: Map<PeerId, InboxView>,
    peers: Seq<PeerId>,
    event: NetEventView,
    p: PeerId,
    f: spec_fn(NetEventView) -> bool,
)
    requires
        inboxes.contains_key(p),
        !f(event),
    ensures
        ({
            let after = memory_net::delivered_all(inboxes, peers, event);
            &&& after.contains_key(p)
            &&& after[p].open == inboxes[p].open
            &&& after[p].events.filter(f) == inboxes[p].events.filter(f)
        }),
    decreases peers.len(),
{
    if peers.len() > 0 {
        let next = memory_net::delivered(inboxes, peers[0], event);
        let was = inboxes[p].events;
        assert(was.push(event) =~= was + seq![event]);
        lemma_split(was, seq![event], f);
        lemma_one(event, f);
        assert(was.filter(f) + Seq::<NetEventView>::empty() =~= was.filter(f));
        lemma_news(next, peers.drop_first(), event, p, f);
    }
}

/// A call keeps what is in the stream of `p` and adds to its end.
proof fn lemma_step(m: HubView, act: HubAct, p: PeerId, f: spec_fn(NetEventView) -> bool)
    requires
        stays(m, seq![act], p),
        forall|peer: PeerId, channel: Seq<char>, message_id: Seq<char>|
            !#[trigger] f(NetEventView::PeerReconstructed { peer, channel, message_id }),
    ensures
        acted(m, act).inboxes.contains_key(p),
        acted(m, act).inboxes[p].open,
        (took(m, act, p) + acted(m, act).inboxes[p].events).filter(f) == m.inboxes[p].events.filter(f)
            + added(m, act, p).filter(f),
{
    assert(seq![act][0] == act);
    let was = m.inboxes[p].events;
    let now = acted(m, act).inboxes[p].events;
    let none = Seq::<NetEventView>::empty();
    lemma_one(NetEventView::PeerConnected { peer: 0 }, f);
    assert(was.filter(f) + none =~= was.filter(f));
    match act {
        HubAct::Send { src, msg } => {
            assert(took(m, act, p) + now =~= now);
            if let NetSendView::SessionReconstructed { channel, message_id } = msg {
                let event = runtime::event_of(src, msg);
                let peers = order::ascending(
                    memory_net::openers_of(m.openers, (src, channel, message_id)),
                );
                lemma_news(m.inboxes, peers, event, p, f);
            } else {
                assert(now =~= was + added(m, act, p));
                lemma_split(was, added(m, act, p), f);
            }
        },
        HubAct::Take { peer } => {
            if peer == p && was.len() > 0 {
                assert(took(m, act, p) + now =~= was);
            } else {
                assert(took(m, act, p) + now =~= was);
            }
        },
        _ => {
            assert(took(m, act, p) + now =~= was);
        },
    }
}

proof fn lemma_run(
    m: HubView,
    acts: Seq<HubAct>,
    p: PeerId,
    f: spec_fn(NetEventView) -> bool,
)
    requires
        stays(m, acts, p),
        acts.len() > 0,
        forall|peer: PeerId, channel: Seq<char>, message_id: Seq<char>|
            !#[trigger] f(NetEventView::PeerReconstructed { peer, channel, message_id }),
    ensures
        stays(m, acts.drop_last(), p),
        ({
            let mid = run(m, acts.drop_last());
            &&& stays(mid, seq![acts.last()], p)
            &&& stream(m, acts, p).filter(f) == stream(m, acts.drop_last(), p).filter(f) + added(
                mid,
                acts.last(),
                p,
            ).filter(f)
        }),
    decreases acts.len(),
{
    let head = acts.drop_last();
    let act = acts.last();
    let mid = run(m, head);
    assert forall|i: int| 0 <= i < head.len() implies {
        &&& #[trigger] head[i] != (HubAct::Register { peer: p })
        &&& head[i] != (HubAct::Disconnect { peer: p })
        &&& head[i] != (HubAct::Close { peer: p })
    } by {
        assert(head[i] == acts[i]);
    }
    assert(acts[acts.len() - 1] == act);
    lemma_listens(m, head, p);
    lemma_step(mid, act, p, f);
    let before = got(m, head, p);
    let w = mid.inboxes[p].events;
    let t = took(mid, act, p);
    let now = acted(mid, act).inboxes[p].events;
    assert(stream(m, acts, p) =~= before + (t + now));
    lemma_split(before, t + now, f);
    lemma_split(before, w, f);
    assert(before.filter(f) + (w.filter(f) + added(mid, act, p).filter(f)) =~= (before.filter(f)
        + w.filter(f)) + added(mid, act, p).filter(f));
}

/// A peer that stays, listens.
proof fn lemma_listens(m: HubView, acts: Seq<HubAct>, p: PeerId)
    requires
        stays(m, acts, p),
    ensures
        run(m, acts).inboxes.contains_key(p),
        run(m, acts).inboxes[p].open,
    decreases acts.len(),
{
    if acts.len() > 0 {
        let head = acts.drop_last();
        assert forall|i: int| 0 <= i < head.len() implies {
            &&& #[trigger] head[i] != (HubAct::Register { peer: p })
            &&& head[i] != (HubAct::Disconnect { peer: p })
            &&& head[i] != (HubAct::Close { peer: p })
        } by {
            assert(head[i] == acts[i]);
        }
        lemma_listens(m, head, p);
        assert(acts[acts.len() - 1] == acts.last());
        assert(stays(run(m, head), seq![acts.last()], p));
        lemma_step(run(m, head), acts.last(), p, |e: NetEventView| false);
    }
}

/// Whatever else happens on the hub, a listening peer `b` sees the messages
/// that `a` addresses to it exactly once each and in the order in which `a`
/// sent them: none is lost, doubled, delayed or reordered. Each of the sends
/// succeeds.
pub proof fn law_messages_arrive_in_order(m: HubView, acts: Seq<HubAct>, a: PeerId, b: PeerId)
    requires
        stays(m, acts, b),
    ensures
        stream(m, acts, b).filter(comes_from(a)) == m.inboxes[b].events.filter(comes_from(a))
            + addressed(acts, a, b),
        forall|i: int, msg: NetSendView|
            0 <= i < acts.len() && #[trigger] acts[i] == (HubAct::Send { src: a, msg })
                && runtime::destination_of(msg) == Some(b) ==> #[trigger] run(m, acts.take(i)).sent(
                a,
                msg,
            ).1 is Ok,
    decreases acts.len(),
{
    let f = comes_from(a);
    let none = Seq::<NetEventView>::empty();
    if acts.len() == 0 {
        assert(stream(m, acts, b) =~= m.inboxes[b].events);
        assert(m.inboxes[b].events.filter(f) + none =~= m.inboxes[b].events.filter(f));
    } else {
        let head = acts.drop_last();
        let act = acts.last();
        let mid = run(m, head);
        lemma_run(m, acts, b, f);
        lemma_listens(m, head, b);
        law_messages_arrive_in_order(m, head, a, b);
        let base = m.inboxes[b].events.filter(f);
        let sent = addressed(head, a, b);
        let new = added(mid, act, b);
        if let HubAct::Send { src, msg } = act {
            let e = runtime::event_of(src, msg);
            let k = memory_net::ack(msg)->Some_0;
            lemma_one(e, f);
            lemma_one(k, f);
            let x = if runtime::destination_of(msg) == Some(b) {
                seq![e]
            } else {
                none
            };
            let y = if src == b && memory_net::ack(msg) is Some {
                seq![k]
            } else {
                none
            };
            lemma_split(x, y, f);
            assert(y.filter(f) == none);
            assert(x.filter(f) + none =~= x.filter(f));
            if src == a && runtime::destination_of(msg) == Some(b) {
                assert(new.filter(f) == seq![e]);
                assert(base + sent + seq![e] =~= base + sent.push(e));
            } else {
                assert(new.filter(f) == none);
                assert(base + sent + none =~= base + sent);
            }
        } else {
            lemma_one(NetEventView::PeerConnected { peer: 0 }, f);
            assert(base + sent + none =~= base + sent);
        }
        assert forall|i: int, msg: NetSendView|
            0 <= i < acts.len() && #[trigger] acts[i] == (HubAct::Send { src: a, msg })
                && runtime::destination_of(msg) == Some(b) implies #[trigger] run(m, acts.take(i)).sent(
            a,
            msg,
        ).1 is Ok by {
            if i < head.len() {
                assert(head[i] == acts[i]);
                assert(head.take(i) =~= acts.take(i));
            } else {
                assert(acts.take(i) =~= head);
            }
        }
    }
}

/// Whatever else happens on the hub, a listening peer `a` gets exactly one
/// report, that it went out, for each chunk that it sends to a listening
/// peer `b`, in the order in which it sent them.
pub proof fn law_chunks_are_reported_once(m: HubView, acts: Seq<HubAct>, a: PeerId, b: PeerId)
    requires
        stays(m, acts, a),
        stays(m, acts, b),
    ensures
        stream(m, acts, a).filter(reports_on(b)) == m.inboxes[a].events.filter(reports_on(b))
            + reports(acts, a, b),
    decreases acts.len(),
{
    let f = reports_on(b);
    let none = Seq::<NetEventView>::empty();
    if acts.len() == 0 {
        assert(stream(m, acts, a) =~= m.inboxes[a].events);
        assert(m.inboxes[a].events.filter(f) + none =~= m.inboxes[a].events.filter(f));
    } else {
        let head = acts.drop_last();
        let act = acts.last();
        let mid = run(m, head);
        lemma_run(m, acts, a, f);
        lemma_run(m, acts, b, f);
        lemma_listens(m, head, b);
        law_chunks_are_reported_once(m, head, a, b);
        let base = m.inboxes[a].events.filter(f);
        let told = reports(head, a, b);
        let new = added(mid, act, a);
        if let HubAct::Send { src, msg } = act {
            let e = runtime::event_of(src, msg);
            let k = memory_net::ack(msg)->Some_0;
            lemma_one(e, f);
            lemma_one(k, f);
            let x = if runtime::destination_of(msg) == Some(a) {
                seq![e]
            } else {
                none
            };
            let y = if src == a && memory_net::ack(msg) is Some {
                seq![k]
            } else {
                none
            };
            lemma_split(x, y, f);
            assert(x.filter(f) == none);
            assert(none + y.filter(f) =~= y.filter(f));
            if src == a && runtime::destination_of(msg) == Some(b) && memory_net::ack(msg) is Some {
                assert(new.filter(f) == seq![k]);
                assert(base + told + seq![k] =~= base + told.push(k));
            } else {
                assert(new.filter(f) == none);
                assert(base + told + none =~= base + told);
            }
        } else {
            lemma_one(NetEventView::PeerConnected { peer: 0 }, f);
            assert(base + told + none =~= base + told);
        }
    }
}

} // verus!
