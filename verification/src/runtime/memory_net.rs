//! In-process [`Net`] impl for tests and simulations.
//!
//! A [`MemoryNetHub`] is a switchboard. Each peer registers with
//! [`MemoryNetHub::register`]; what a peer sends through its
//! [`MemoryNetEndpoint`] is delivered to the destination's inbound queue via
//! the hub's lookup table.
//!
//! Deterministic FIFO per (sender, receiver). No drops, delays, or reorders.

use vstd::prelude::*;

use crate::order;
use crate::runtime;
use crate::runtime::{Net, NetError, NetEvent, NetEventView, NetSend, NetSendView};
use crate::strategy::PeerId;
use crate::table::{KeySet, Table};

verus! {

/// Inbound queue of a peer.
#[derive(Debug)]
pub struct Inbox {
    /// Whether the peer still listens.
    open: bool,
    /// What waits for it, oldest first.
    events: Vec<NetEvent>,
}

/// Contents of an [`Inbox`].
#[verifier::ext_equal]
pub ghost struct InboxView {
    pub open: bool,
    pub events: Seq<NetEventView>,
}

impl View for Inbox {
    type V = InboxView;

    closed spec fn view(&self) -> InboxView {
        InboxView { open: self.open, events: runtime::events_of(self.events@) }
    }
}

impl Inbox {
    /// An empty queue with a listener.
    pub(crate) fn new() -> (r: Self)
        ensures
            r@ == (InboxView { open: true, events: Seq::empty() }),
    {
        let r = Inbox { open: true, events: Vec::new() };
        assert(r@.events =~= Seq::<NetEventView>::empty());
        r
    }

    pub(crate) fn is_open(&self) -> (r: bool)
        ensures
            r == self@.open,
    {
        self.open
    }

    /// Drops what waits; nobody listens any more.
    pub(crate) fn close(&mut self)
        ensures
            final(self)@ == (InboxView { open: false, events: Seq::empty() }),
    {
        self.open = false;
        self.events = Vec::new();
        assert(self@.events =~= Seq::<NetEventView>::empty());
    }

    /// Appends an event; it is lost when nobody listens.
    pub(crate) fn push(&mut self, event: NetEvent)
        ensures
            final(self)@ == put(old(self)@, event@),
    {
        if self.open {
            let ghost before = self@.events;
            self.events.push(event);
            assert(self@.events =~= before.push(event@));
        }
    }

    /// Takes the oldest event.
    pub(crate) fn pop(&mut self) -> (r: Option<NetEvent>)
        ensures
            final(self)@.open == old(self)@.open,
            match r {
                Some(e) => {
                    &&& old(self)@.events.len() > 0
                    &&& e@ == old(self)@.events[0]
                    &&& final(self)@.events == old(self)@.events.drop_first()
                },
                None => old(self)@.events.len() == 0 && final(self)@ == old(self)@,
            },
    {
        if self.events.len() == 0 {
            None
        } else {
            let ghost before = self@.events;
            let e = self.events.remove(0);
            assert(self@.events =~= before.drop_first());
            Some(e)
        }
    }
}

/// A queue after an event was offered to it.
pub open spec fn put(q: InboxView, event: NetEventView) -> InboxView {
    if q.open {
        InboxView { events: q.events.push(event), ..q }
    } else {
        q
    }
}

/// The inbound queues after `peer` was sent an event; an unknown peer gets
/// nothing.
pub open spec fn delivered(
    inboxes: Map<PeerId, InboxView>,
    peer: PeerId,
    event: NetEventView,
) -> Map<PeerId, InboxView> {
    if inboxes.contains_key(peer) {
        inboxes.insert(peer, put(inboxes[peer], event))
    } else {
        inboxes
    }
}

/// The inbound queues after each of `peers` was sent an event.
pub open spec fn delivered_all(
    inboxes: Map<PeerId, InboxView>,
    peers: Seq<PeerId>,
    event: NetEventView,
) -> Map<PeerId, InboxView>
    decreases peers.len(),
{
    if peers.len() == 0 {
        inboxes
    } else {
        delivered_all(delivered(inboxes, peers[0], event), peers.drop_first(), event)
    }
}

/// Per `(receiver, channel, message_id)`, the peers that opened an inbound
/// session to the receiver.
pub type Openers = Map<(PeerId, Seq<char>, Seq<char>), Set<PeerId>>;

/// The openers after `src` submitted a message: opening a session records it.
pub open spec fn opened(openers: Openers, src: PeerId, msg: NetSendView) -> Openers {
    match msg {
        NetSendView::SessionOpen { peer, channel, message_id, .. } => {
            let key = (peer, channel, message_id);
            openers.insert(key, openers_of(openers, key).insert(src))
        },
        _ => openers,
    }
}

/// Who opened a session to a receiver.
pub open spec fn openers_of(openers: Openers, key: (PeerId, Seq<char>, Seq<char>)) -> Set<PeerId> {
    if openers.contains_key(key) {
        openers[key]
    } else {
        Set::empty()
    }
}

/// The report on a chunk that its sender gets.
pub open spec fn ack(msg: NetSendView) -> Option<NetEventView> {
    match msg {
        NetSendView::Chunk { peer, channel, message_id, token, .. } => Some(
            NetEventView::ChunkSendResult { peer, channel, message_id, token, ok: true },
        ),
        _ => None,
    }
}

/// State of a [`MemoryNetHub`].
#[verifier::ext_equal]
pub ghost struct HubView {
    pub inboxes: Map<PeerId, InboxView>,
    pub openers: Openers,
}

impl HubView {
    /// State and answer after `src` submitted a message.
    ///
    /// A reconstructed session is told to every peer that opened it, in the
    /// order of their IDs. Any other message goes to its destination; a chunk
    /// that went out is reported back to its sender.
    pub open spec fn sent(self, src: PeerId, msg: NetSendView) -> (HubView, Result<(), NetError>) {
        match msg {
            NetSendView::SessionReconstructed { channel, message_id } => {
                let key = (src, channel, message_id);
                (
                    HubView {
                        inboxes: delivered_all(
                            self.inboxes,
                            order::ascending(openers_of(self.openers, key)),
                            runtime::event_of(src, msg),
                        ),
                        openers: self.openers.remove(key),
                    },
                    Ok(()),
                )
            },
            _ => {
                let dst = runtime::destination_of(msg)->Some_0;
                let noted = HubView { openers: opened(self.openers, src, msg), ..self };
                if !self.inboxes.contains_key(dst) {
                    (noted, Err(NetError::PeerNotFound(dst)))
                } else if !self.inboxes[dst].open {
                    (noted, Err(NetError::Closed))
                } else {
                    let reached = delivered(self.inboxes, dst, runtime::event_of(src, msg));
                    (
                        HubView {
                            inboxes: match ack(msg) {
                                Some(e) => delivered(reached, src, e),
                                None => reached,
                            },
                            ..noted
                        },
                        Ok(()),
                    )
                }
            },
        }
    }
}

/// A copy of a string.
pub(crate) fn same_text(s: &String) -> (r: String)
    ensures
        r@ == s@,
{
    s.clone()
}

/// Records that `src` opened a session, when `msg` opens one.
pub(crate) fn note_opener(
    openers: &mut Table<(PeerId, String, String), KeySet<PeerId>>,
    src: PeerId,
    msg: &NetSend,
)
    ensures
        final(openers)@ == opened(old(openers)@, src, msg@),
{
    if let NetSend::SessionOpen { peer, channel, message_id, .. } = msg {
        let set = openers.entry(
            (*peer, same_text(channel), same_text(message_id)),
            KeySet::new(),
        );
        set.insert(src);
    }
}

/// The report on a chunk that its sender gets.
pub(crate) fn ack_of(msg: &NetSend) -> (r: Option<NetEvent>)
    ensures
        match r {
            Some(e) => ack(msg@) == Some(e@),
            None => ack(msg@) is None,
        },
{
    match msg {
        NetSend::Chunk { peer, channel, message_id, token, .. } => Some(
            NetEvent::ChunkSendResult {
                peer: *peer,
                channel: same_text(channel),
                message_id: same_text(message_id),
                token: *token,
                ok: true,
            },
        ),
        _ => None,
    }
}

/// Switchboard shared across in-process engines.
pub struct MemoryNetHub {
    inboxes: Table<PeerId, Inbox>,
    /// Per `(receiver, channel, message_id)`, the peers that opened an inbound
    /// session to the receiver. A `SessionReconstructed` from the receiver
    /// delivers a `PeerReconstructed` to each opener.
    openers: Table<(PeerId, String, String), KeySet<PeerId>>,
}

impl View for MemoryNetHub {
    type V = HubView;

    closed spec fn view(&self) -> HubView {
        HubView { inboxes: self.inboxes@, openers: self.openers@ }
    }
}

impl MemoryNetHub {
    /// Construct an empty hub.
    #[must_use]
    pub fn new() -> (r: Self)
        ensures
            r@ == (HubView { inboxes: Map::empty(), openers: Map::empty() }),
    {
        MemoryNetHub { inboxes: Table::new(), openers: Table::new() }
    }

    /// Register `peer_id` with this hub. What other peers send
    /// to it will arrive in its inbound queue, which starts empty.
    pub fn register(&mut self, peer_id: PeerId)
        ensures
            final(self)@ == (HubView {
                inboxes: old(self)@.inboxes.insert(
                    peer_id,
                    InboxView { open: true, events: Seq::empty() },
                ),
                ..old(self)@
            }),
    {
        self.inboxes.insert(peer_id, Inbox::new());
    }

    /// Register `peer_id` with this hub and return its endpoint.
    pub fn endpoint(self, peer_id: PeerId) -> (r: MemoryNetEndpoint)
        ensures
            r.model() == (
                peer_id,
                HubView {
                    inboxes: self@.inboxes.insert(
                        peer_id,
                        InboxView { open: true, events: Seq::empty() },
                    ),
                    ..self@
                },
            ),
    {
        let mut hub = self;
        hub.register(peer_id);
        MemoryNetEndpoint { peer_id, hub }
    }

    /// Mark a peer as disconnected. Any pending events for the peer
    /// are dropped; future `send`s targeting it return
    /// [`NetError::PeerNotFound`].
    pub fn disconnect(&mut self, peer_id: PeerId)
        ensures
            final(self)@ == (HubView { inboxes: old(self)@.inboxes.remove(peer_id), ..old(self)@ }),
    {
        self.inboxes.remove(&peer_id);
    }

    /// The peer stops listening: `send`s targeting it return
    /// [`NetError::Closed`].
    pub fn close(&mut self, peer_id: PeerId)
        ensures
            final(self)@ == (HubView {
                inboxes: if old(self)@.inboxes.contains_key(peer_id) {
                    old(self)@.inboxes.insert(
                        peer_id,
                        InboxView { open: false, events: Seq::empty() },
                    )
                } else {
                    old(self)@.inboxes
                },
                ..old(self)@
            }),
    {
        if let Some(inbox) = self.inboxes.get_mut(&peer_id) {
            inbox.close();
        }
    }

    /// The next event that waits for a peer.
    pub fn next_event(&mut self, peer_id: PeerId) -> (r: Option<NetEvent>)
        ensures
            final(self)@.openers == old(self)@.openers,
            match r {
                Some(e) => {
                    let q = old(self)@.inboxes[peer_id];
                    &&& old(self)@.inboxes.contains_key(peer_id)
                    &&& q.events.len() > 0
                    &&& e@ == q.events[0]
                    &&& final(self)@.inboxes == old(self)@.inboxes.insert(
                        peer_id,
                        InboxView { events: q.events.drop_first(), ..q },
                    )
                },
                None => {
                    &&& old(self)@.inboxes.contains_key(peer_id)
                        ==> old(self)@.inboxes[peer_id].events.len() == 0
                    &&& final(self)@.inboxes == old(self)@.inboxes
                },
            },
    {
        match self.inboxes.get_mut(&peer_id) {
            Some(inbox) => {
                let r = inbox.pop();
                assert(r is None ==> self@.inboxes =~= old(self)@.inboxes);
                r
            },
            None => None,
        }
    }

    /// Offers an event to a peer.
    fn deliver(&mut self, peer: PeerId, event: NetEvent)
        ensures
            final(self)@ == (HubView {
                inboxes: delivered(old(self)@.inboxes, peer, event@),
                ..old(self)@
            }),
    {
        if let Some(inbox) = self.inboxes.get_mut(&peer) {
            inbox.push(event);
        }
    }

    /// Submit an outbound message of `src`.
    pub fn send_from(&mut self, src: PeerId, msg: NetSend) -> (r: Result<(), NetError>)
        ensures
            (final(self)@, r) == old(self)@.sent(src, msg@),
    {
        if let NetSend::SessionReconstructed { channel, message_id } = &msg {
            let removed = self.openers.remove(&(src, same_text(channel), same_text(message_id)));
            let set = match removed {
                Some(s) => s,
                None => KeySet::new(),
            };
            let peers = order::ascending_items(&set);
            let ghost event = runtime::event_of(src, msg@);
            let ghost before = self@;
            let mut i: usize = 0;
            assert(peers@.skip(0) =~= peers@);
            while i < peers.len()
                invariant
                    i <= peers@.len(),
                    event == (NetEventView::PeerReconstructed {
                        peer: src,
                        channel: channel@,
                        message_id: message_id@,
                    }),
                    self@.openers == before.openers,
                    delivered_all(self@.inboxes, peers@.skip(i as int), event) == delivered_all(
                        before.inboxes,
                        peers@,
                        event,
                    ),
                decreases peers@.len() - i,
            {
                assert(peers@.skip(i as int).drop_first() =~= peers@.skip(i + 1));
                self.deliver(
                    peers[i],
                    NetEvent::PeerReconstructed {
                        peer: src,
                        channel: same_text(channel),
                        message_id: same_text(message_id),
                    },
                );
                i = i + 1;
            }
            return Ok(());
        }
        let dst: PeerId = match runtime::destination(&msg) {
            Some(p) => p,
            None => {
                return Ok(());
            },
        };
        note_opener(&mut self.openers, src, &msg);
        let open = match self.inboxes.get(&dst) {
            None => {
                return Err(NetError::PeerNotFound(dst));
            },
            Some(inbox) => inbox.is_open(),
        };
        if !open {
            return Err(NetError::Closed);
        }
        let report = ack_of(&msg);
        self.deliver(dst, runtime::into_event(src, msg));
        if let Some(e) = report {
            self.deliver(src, e);
        }
        Ok(())
    }
}

/// Per-engine view of a [`MemoryNetHub`]: it speaks for one peer at a time.
pub struct MemoryNetEndpoint {
    peer_id: PeerId,
    hub: MemoryNetHub,
}

impl MemoryNetEndpoint {
    /// The peer ID this endpoint speaks for.
    #[must_use]
    pub fn peer_id(&self) -> (r: PeerId)
        ensures
            r == self.model().0,
    {
        self.peer_id
    }

    /// Speaks for another peer from now on.
    pub fn switch_to(&mut self, peer_id: PeerId)
        ensures
            final(self).model() == (peer_id, old(self).model().1),
    {
        self.peer_id = peer_id;
    }

    /// The hub behind this endpoint.
    pub fn hub_mut(&mut self) -> (r: &mut MemoryNetHub)
        ensures
            (*r)@ == old(self).model().1,
            final(self).model() == (old(self).model().0, (*final(r))@),
    {
        &mut self.hub
    }
}

impl Net for MemoryNetEndpoint {
    type Model = (PeerId, HubView);

    closed spec fn model(&self) -> (PeerId, HubView) {
        (self.peer_id, self.hub@)
    }

    open spec fn sent(m: (PeerId, HubView), msg: NetSendView) -> (
        (PeerId, HubView),
        Result<(), NetError>,
    ) {
        let (hub, r) = m.1.sent(m.0, msg);
        ((m.0, hub), r)
    }

    fn send(&mut self, msg: NetSend) -> (r: Result<(), NetError>) {
        self.hub.send_from(self.peer_id, msg)
    }
}

/// A message that the hub accepts for a listening peer is the last in its
/// queue, behind all that was sent to it before; a chunk to oneself is
/// followed by its report.
pub proof fn law_delivery_is_fifo(m: HubView, src: PeerId, msg: NetSendView)
    requires
        !(msg is SessionReconstructed),
    ensures
        ({
            let dst = runtime::destination_of(msg)->Some_0;
            let (after, r) = m.sent(src, msg);
            &&& r is Ok <==> m.inboxes.contains_key(dst) && m.inboxes[dst].open
            &&& r is Ok && dst != src ==> after.inboxes[dst].events == m.inboxes[dst].events.push(
                runtime::event_of(src, msg),
            )
            &&& r is Err ==> after.inboxes == m.inboxes
            &&& forall|p: PeerId|
                p != dst && p != src && #[trigger] m.inboxes.contains_key(p) ==> after.inboxes[p]
                    == m.inboxes[p]
        }),
{
}

proof fn lemma_delivered_all(
    inboxes: Map<PeerId, InboxView>,
    peers: Seq<PeerId>,
    event: NetEventView,
    p: PeerId,
)
    requires
        peers.no_duplicates(),
        inboxes.contains_key(p),
    ensures
        delivered_all(inboxes, peers, event).contains_key(p),
        delivered_all(inboxes, peers, event)[p] == (if peers.contains(p) {
            put(inboxes[p], event)
        } else {
            inboxes[p]
        }),
    decreases peers.len(),
{
    if peers.len() > 0 {
        let rest = peers.drop_first();
        let next = delivered(inboxes, peers[0], event);
        assert(rest.no_duplicates());
        lemma_delivered_all(next, rest, event, p);
        if rest.contains(p) {
            let i = choose|i: int| 0 <= i < rest.len() && rest[i] == p;
            assert(peers[i + 1] == p);
            assert(peers[0] != p);
        } else if peers.contains(p) {
            let i = choose|i: int| 0 <= i < peers.len() && peers[i] == p;
            if i > 0 {
                assert(rest[i - 1] == p);
            }
        }
    }
}

/// When a peer reconstructs a session, each listening peer that opened it to
/// that peer is told once, nobody else is, and it is not told again.
pub proof fn law_reconstruction_reaches_openers(
    m: HubView,
    src: PeerId,
    channel: Seq<char>,
    message_id: Seq<char>,
    p: PeerId,
)
    requires
        m.inboxes.contains_key(p),
        openers_of(m.openers, (src, channel, message_id)).finite(),
    ensures
        ({
            let msg = NetSendView::SessionReconstructed { channel, message_id };
            let told = openers_of(m.openers, (src, channel, message_id));
            let (after, r) = m.sent(src, msg);
            &&& r is Ok
            &&& after.inboxes[p] == (if told.contains(p) {
                put(m.inboxes[p], NetEventView::PeerReconstructed { peer: src, channel, message_id })
            } else {
                m.inboxes[p]
            })
            &&& openers_of(after.openers, (src, channel, message_id)) == Set::<PeerId>::empty()
        }),
{
    let told = openers_of(m.openers, (src, channel, message_id));
    let peers = order::ascending(told);
    order::lemma_ascending(told);
    lemma_delivered_all(
        m.inboxes,
        peers,
        NetEventView::PeerReconstructed { peer: src, channel, message_id },
        p,
    );
}

/// Who opens a session to a peer hears when the peer has reconstructed the
/// message, once: a second report reaches nobody. Whoever did not open it
/// hears nothing.
pub proof fn law_opener_hears_of_reconstruction(
    m: HubView,
    a: PeerId,
    b: PeerId,
    channel: Seq<char>,
    message_id: Seq<char>,
    preamble: Seq<u8>,
    update: Seq<u8>,
    c: PeerId,
)
    requires
        m.inboxes.contains_key(a),
        m.inboxes[a].open,
        m.inboxes.contains_key(c),
        a != b,
        c != b,
        openers_of(m.openers, (b, channel, message_id)).finite(),
        !openers_of(m.openers, (b, channel, message_id)).contains(c),
        c != a,
    ensures
        ({
            let open = NetSendView::SessionOpen {
                peer: b,
                channel,
                message_id,
                preamble,
                initial_update: update,
            };
            let done = NetSendView::SessionReconstructed { channel, message_id };
            let m1 = m.sent(a, open).0;
            let m2 = m1.sent(b, done).0;
            let m3 = m2.sent(b, done).0;
            &&& m2.inboxes[a].events == m.inboxes[a].events.push(
                NetEventView::PeerReconstructed { peer: b, channel, message_id },
            )
            &&& m2.inboxes[c].events == m.inboxes[c].events
            &&& m3.inboxes[a].events == m2.inboxes[a].events
        }),
{
    let open = NetSendView::SessionOpen {
        peer: b,
        channel,
        message_id,
        preamble,
        initial_update: update,
    };
    let done = NetSendView::SessionReconstructed { channel, message_id };
    let m1 = m.sent(a, open).0;
    let key = (b, channel, message_id);
    assert(openers_of(m1.openers, key) == openers_of(m.openers, key).insert(a));
    law_reconstruction_reaches_openers(m1, b, channel, message_id, a);
    law_reconstruction_reaches_openers(m1, b, channel, message_id, c);
    let m2 = m1.sent(b, done).0;
    assert(openers_of(m2.openers, key) == Set::<PeerId>::empty());
    let told = openers_of(m1.openers, key);
    order::lemma_ascending(told);
    lemma_delivered_all(m1.inboxes, order::ascending(told), runtime::event_of(b, done), a);
    law_reconstruction_reaches_openers(m2, b, channel, message_id, a);
}

} // verus!
