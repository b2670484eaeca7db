//! Discrete-event core.
//!
//! All deliveries and clock wakeups flow through one queue keyed
//! `(virtual_deliver_time, sequence_number)`. Entries are popped in that
//! order, advancing virtual time to each entry.

use vstd::prelude::*;

use crate::engine::model;
use crate::engine::Nanos;
use crate::order;
use crate::runtime;
use crate::runtime::memory_net;
use crate::runtime::memory_net::{Inbox, InboxView, Openers};
use crate::runtime::{NetError, NetEvent, NetEventView, NetSend, NetSendView};
use crate::sim::net;
use crate::sim::net::{Classification, FaultPlan, Passage, PlanView, SendPredicate};
use crate::sim::trace;
use crate::sim::trace::{Disposition, MsgKind, TraceEntry, TraceKind};
use crate::strategy::PeerId;
use crate::table::{KeySet, Table};

verus! {

/// What a single pump step did.
#[derive(Debug, Clone, Copy, PartialEq, Eq, Structural)]
pub enum PumpStep {
    /// An event was moved into `peer`'s inbound queue; the engine for
    /// that peer should now be stepped.
    DeliveredTo(PeerId),
    /// A clock wakeup fired.
    Woke,
}

/// What an entry of the queue does when its time comes.
#[derive(Debug)]
pub enum Pending {
    Delivery { dst: PeerId, event: NetEvent },
    /// Fires the sleeper of this number.
    Wakeup(usize),
}

/// Contents of a [`Pending`].
#[verifier::ext_equal]
pub ghost enum PendingView {
    Delivery { dst: PeerId, event: NetEventView },
    Wakeup(nat),
}

/// An entry of the queue.
#[derive(Debug)]
pub struct Entry {
    pub at: Nanos,
    pub seq: u64,
    pub pending: Pending,
}

/// Contents of an [`Entry`].
#[verifier::ext_equal]
pub ghost struct EntryView {
    pub at: Nanos,
    pub seq: u64,
    pub pending: PendingView,
}

impl View for Entry {
    type V = EntryView;

    open spec fn view(&self) -> EntryView {
        EntryView {
            at: self.at,
            seq: self.seq,
            pending: match self.pending {
                Pending::Delivery { dst, event } => PendingView::Delivery { dst, event: event@ },
                Pending::Wakeup(n) => PendingView::Wakeup(n as nat),
            },
        }
    }
}

/// Whether `a` is due before `b`: it is earlier, or at the same time and of
/// a smaller sequence number.
pub open spec fn before(a: EntryView, b: EntryView) -> bool {
    a.at < b.at || (a.at == b.at && a.seq < b.seq)
}

/// Position of the entry that is due next; of several with the same key the
/// first.
pub open spec fn earliest(q: Seq<EntryView>) -> int
    decreases q.len(),
{
    if q.len() <= 1 {
        0
    } else {
        let i = earliest(q.drop_last());
        if before(q.last(), q[i]) {
            q.len() - 1
        } else {
            i
        }
    }
}

/// No entry is due before the one that is taken next, and those queued
/// before it are due after it.
pub proof fn law_earliest_is_due_first(q: Seq<EntryView>)
    requires
        q.len() > 0,
    ensures
        0 <= earliest(q) < q.len(),
        forall|j: int| 0 <= j < q.len() ==> !before(#[trigger] q[j], q[earliest(q)]),
        forall|j: int| 0 <= j < earliest(q) ==> before(q[earliest(q)], #[trigger] q[j]),
    decreases q.len(),
{
    if q.len() > 1 {
        let front = q.drop_last();
        law_earliest_is_due_first(front);
        let i = earliest(front);
        assert forall|j: int| 0 <= j < q.len() implies !before(#[trigger] q[j], q[earliest(q)]) by {
            if j < front.len() {
                assert(front[j] == q[j]);
                assert(!before(front[j], front[i]));
            }
        }
        assert forall|j: int| 0 <= j < earliest(q) implies before(q[earliest(q)], #[trigger] q[j]) by {
            assert(front[j] == q[j]);
            assert(!before(front[j], front[i]));
        }
    }
}

/// Queue of entries that gives out the one due first.
#[derive(Debug)]
pub struct EventQueue {
    entries: Vec<Entry>,
}

impl View for EventQueue {
    type V = Seq<EntryView>;

    closed spec fn view(&self) -> Seq<EntryView> {
        self.entries@.map_values(|e: Entry| e@)
    }
}

impl EventQueue {
    pub fn new() -> (r: Self)
        ensures
            r@ == Seq::<EntryView>::empty(),
    {
        let r = EventQueue { entries: Vec::new() };
        assert(r@ =~= Seq::<EntryView>::empty());
        r
    }

    pub fn push(&mut self, entry: Entry)
        ensures
            final(self)@ == old(self)@.push(entry@),
    {
        self.entries.push(entry);
        assert(self@ =~= old(self)@.push(entry@));
    }

    /// Position of the entry that is due next.
    fn find(&self) -> (r: usize)
        requires
            self@.len() > 0,
        ensures
            r == earliest(self@),
            r < self@.len(),
    {
        let mut best: usize = 0;
        let mut i: usize = 1;
        while i < self.entries.len()
            invariant
                1 <= i <= self.entries@.len(),
                best < i,
                best == earliest(self@.take(i as int)),
            decreases self.entries@.len() - i,
        {
            proof {
                let q = self@.take(i + 1);
                assert(q.drop_last() =~= self@.take(i as int));
                assert(q.last() == self.entries@[i as int]@);
                assert(q[best as int] == self.entries@[best as int]@);
            }
            if self.entries[i].at < self.entries[best].at || (self.entries[i].at
                == self.entries[best].at && self.entries[i].seq < self.entries[best].seq) {
                best = i;
            }
            i = i + 1;
        }
        assert(self@.take(i as int) =~= self@);
        best
    }

    /// Takes the entry that is due next.
    pub fn pop(&mut self) -> (r: Option<Entry>)
        ensures
            match r {
                Some(e) => {
                    &&& old(self)@.len() > 0
                    &&& e@ == old(self)@[earliest(old(self)@)]
                    &&& final(self)@ == old(self)@.remove(earliest(old(self)@))
                },
                None => old(self)@.len() == 0 && final(self)@ == old(self)@,
            },
    {
        if self.entries.len() == 0 {
            return None;
        }
        let i: usize = self.find();
        let e = self.entries.remove(i);
        assert(self@ =~= old(self)@.remove(i as int));
        Some(e)
    }

    /// When the next entry is due.
    pub fn next_at(&self) -> (r: Option<Nanos>)
        ensures
            r == (if self@.len() == 0 {
                None::<Nanos>
            } else {
                Some(self@[earliest(self@)].at)
            }),
    {
        if self.entries.len() == 0 {
            return None;
        }
        let i: usize = self.find();
        Some(self.entries[i].at)
    }
}

/// A wakeup that was asked for. It is over when virtual time has
/// passed the wakeup point.
#[derive(Debug)]
pub struct Sleep {
    id: usize,
}

impl View for Sleep {
    type V = nat;

    closed spec fn view(&self) -> nat {
        self.id as nat
    }
}

/// Simulation state: virtual clock, event queue, fault plan,
/// inbound queues, and the trace.
pub struct SimState<P> {
    now: Nanos,
    next_seq: u64,
    queue: EventQueue,
    plan: FaultPlan<P>,
    trace: Vec<TraceEntry>,
    inboxes: Table<PeerId, Inbox>,
    openers: Table<(PeerId, String, String), KeySet<PeerId>>,
    woken: Vec<bool>,
}

/// Contents of a [`SimState`].
#[verifier::ext_equal]
pub ghost struct SimView<M> {
    pub now: Nanos,
    /// Sequence number of the next event; the numbers end at the largest.
    pub next_seq: u64,
    pub queue: Seq<EntryView>,
    pub plan: PlanView<M>,
    pub trace: Seq<TraceEntry>,
    pub inboxes: Map<PeerId, InboxView>,
    /// Who opened which session.
    pub openers: Openers,
    /// Per wakeup that was asked for, whether it has fired.
    pub woken: Seq<bool>,
}

/// The sequence number that follows.
pub open spec fn following(seq: u64) -> u64 {
    if seq == u64::MAX {
        seq
    } else {
        (seq + 1) as u64
    }
}

impl<M> SimView<M> {
    /// A simulation in which nothing has happened.
    pub open spec fn start(plan: PlanView<M>) -> SimView<M> {
        SimView {
            now: 0,
            next_seq: 0,
            queue: Seq::empty(),
            plan,
            trace: Seq::empty(),
            inboxes: Map::empty(),
            openers: Map::empty(),
            woken: Seq::empty(),
        }
    }

    /// The trace is in order: times do not go back, and numbers, which have
    /// been given out, increase until they end.
    pub open spec fn orderly(self) -> bool {
        &&& forall|i: int|
            0 <= i < self.trace.len() ==> (#[trigger] self.trace[i]).at <= self.now && (
            self.trace[i].seq < self.next_seq || self.next_seq == u64::MAX)
        &&& forall|i: int, j: int|
            0 <= i < j < self.trace.len() ==> (#[trigger] self.trace[i]).at <= (#[trigger] self.trace[j]).at
                && (self.trace[i].seq < self.trace[j].seq || self.next_seq == u64::MAX)
    }

    /// No entry is due in the past, every wakeup has its place, the
    /// sequence numbers of the entries have been given out, and the trace is
    /// in order.
    pub open spec fn valid(self) -> bool {
        &&& self.orderly()
        &&& forall|i: int|
            0 <= i < self.queue.len() ==> (#[trigger] self.queue[i]).seq < self.next_seq
                || self.next_seq == u64::MAX
        &&& forall|i: int| 0 <= i < self.queue.len() ==> (#[trigger] self.queue[i]).at >= self.now
        &&& forall|i: int|
            0 <= i < self.queue.len() ==> ((#[trigger] self.queue[i]).pending matches PendingView::Wakeup(
                n,
            ) ==> n < self.woken.len())
    }

    /// State after a peer registered.
    pub open spec fn registered(self, peer: PeerId) -> SimView<M> {
        SimView {
            inboxes: self.inboxes.insert(
                peer,
                InboxView { open: true, events: Seq::empty() },
            ),
            ..self
        }
    }

    /// State after an event was recorded; the event took the next sequence
    /// number.
    pub open spec fn recorded(self, kind: TraceKind) -> SimView<M> {
        SimView {
            trace: self.trace.push(TraceEntry { at: self.now, seq: self.next_seq, kind }),
            next_seq: following(self.next_seq),
            ..self
        }
    }

    /// State after an engine step was recorded.
    pub open spec fn stepped(self, peer: PeerId) -> SimView<M> {
        self.recorded(TraceKind::EngineStep { peer })
    }

    /// State after an entry was queued under this sequence number.
    pub open spec fn queued(self, at: Nanos, seq: u64, pending: PendingView) -> SimView<M> {
        SimView { queue: self.queue.push(EntryView { at, seq, pending }), ..self }
    }

    /// State after a wakeup at `at` was asked for.
    pub open spec fn sleeping(self, at: Nanos) -> SimView<M> {
        let q = self.queued(at, self.next_seq, PendingView::Wakeup(self.woken.len()));
        SimView { next_seq: following(self.next_seq), woken: self.woken.push(false), ..q }
    }

    /// State after the next entry was processed, and what that did.
    pub open spec fn popped(self) -> (SimView<M>, Option<PumpStep>) {
        if self.queue.len() == 0 {
            (self, None)
        } else {
            let i = earliest(self.queue);
            let e = self.queue[i];
            let m = SimView { now: e.at, queue: self.queue.remove(i), ..self };
            match e.pending {
                PendingView::Delivery { dst, event } => (
                    SimView { inboxes: memory_net::delivered(m.inboxes, dst, event), ..m },
                    Some(PumpStep::DeliveredTo(dst)),
                ),
                PendingView::Wakeup(n) => (
                    SimView {
                        woken: if n < m.woken.len() {
                            m.woken.update(n as int, true)
                        } else {
                            m.woken
                        },
                        ..m
                    },
                    Some(PumpStep::Woke),
                ),
            }
        }
    }

    /// State after all entries were processed.
    pub open spec fn drained(self) -> SimView<M>
        decreases self.queue.len(),
    {
        if self.queue.len() == 0 {
            self
        } else {
            proof {
                law_earliest_is_due_first(self.queue);
            }
            self.popped().0.drained()
        }
    }

    /// State after everything due at or before `target` was processed and
    /// virtual time set to `target`, unless it is later.
    pub open spec fn advanced(self, target: Nanos) -> SimView<M>
        decreases self.queue.len(),
    {
        if self.queue.len() > 0 && self.queue[earliest(self.queue)].at <= target {
            proof {
                law_earliest_is_due_first(self.queue);
            }
            self.popped().0.advanced(target)
        } else if target > self.now {
            SimView { now: target, ..self }
        } else {
            self
        }
    }

    /// State after the next event that waits for a peer was taken, and it.
    pub open spec fn taken(self, peer: PeerId) -> (SimView<M>, Option<NetEventView>) {
        let q = self.inboxes[peer];
        if self.inboxes.contains_key(peer) && q.events.len() > 0 {
            (
                SimView {
                    inboxes: self.inboxes.insert(
                        peer,
                        InboxView { events: q.events.drop_first(), ..q },
                    ),
                    ..self
                },
                Some(q.events[0]),
            )
        } else {
            (self, None)
        }
    }
}

/// State after a message went on a link: the fault plan classifies it, the
/// trace records it, and unless it is dropped its delivery is queued.
pub open spec fn passed<P: SendPredicate>(
    m: SimView<P::Model>,
    src: PeerId,
    dst: PeerId,
    msg: NetSendView,
) -> SimView<P::Model> {
    let seq = m.next_seq;
    let (plan, class) = net::judged::<P>(m.plan, 0, 0, Passage { src, dst, now: m.now, msg });
    let judged = SimView { plan, ..m };
    match class {
        Classification::Drop(reason) => judged.recorded(
            TraceKind::Send {
                src,
                dst,
                msg: trace::kind_of(msg),
                disposition: Disposition::Dropped { reason },
            },
        ),
        Classification::Deliver { delay } => {
            let deliver_at = model::later(m.now, delay);
            judged.recorded(
                TraceKind::Send {
                    src,
                    dst,
                    msg: trace::kind_of(msg),
                    disposition: Disposition::Delivered { deliver_at },
                },
            ).queued(
                deliver_at,
                seq,
                PendingView::Delivery { dst, event: runtime::event_of(src, msg) },
            )
        },
    }
}

/// State after a message went to each of `peers` that is registered.
pub open spec fn passed_all<P: SendPredicate>(
    m: SimView<P::Model>,
    src: PeerId,
    peers: Seq<PeerId>,
    msg: NetSendView,
) -> SimView<P::Model>
    decreases peers.len(),
{
    if peers.len() == 0 {
        m
    } else {
        let next = if m.inboxes.contains_key(peers[0]) {
            passed::<P>(m, src, peers[0], msg)
        } else {
            m
        };
        passed_all::<P>(next, src, peers.drop_first(), msg)
    }
}

/// State after the report on a chunk was queued for its sender.
pub open spec fn acked<M>(m: SimView<M>, src: PeerId, msg: NetSendView) -> SimView<M> {
    match memory_net::ack(msg) {
        Some(event) => if m.inboxes.contains_key(src) {
            let q = m.queued(m.now, m.next_seq, PendingView::Delivery { dst: src, event });
            SimView { next_seq: following(m.next_seq), ..q }
        } else {
            m
        },
        None => m,
    }
}

/// State and answer after `src` submitted a message.
///
/// A reconstructed session is told to every registered peer that opened it,
/// in the order of their IDs. Any other message goes to its destination; a
/// chunk is reported back to its sender, who does not see network drops.
pub open spec fn submitted<P: SendPredicate>(m: SimView<P::Model>, src: PeerId, msg: NetSendView) -> (
    SimView<P::Model>,
    Result<(), NetError>,
) {
    match msg {
        NetSendView::SessionReconstructed { channel, message_id } => {
            let key = (src, channel, message_id);
            let told = order::ascending(memory_net::openers_of(m.openers, key));
            (
                passed_all::<P>(SimView { openers: m.openers.remove(key), ..m }, src, told, msg),
                Ok(()),
            )
        },
        _ => {
            let dst = runtime::destination_of(msg)->Some_0;
            let noted = SimView { openers: memory_net::opened(m.openers, src, msg), ..m };
            if !m.inboxes.contains_key(dst) {
                (noted, Err(NetError::PeerNotFound(dst)))
            } else {
                (acked(passed::<P>(noted, src, dst, msg), src, msg), Ok(()))
            }
        },
    }
}

impl<P: SendPredicate> View for SimState<P> {
    type V = SimView<P::Model>;

    closed spec fn view(&self) -> SimView<P::Model> {
        SimView {
            now: self.now,
            next_seq: self.next_seq,
            queue: self.queue@,
            plan: self.plan@,
            trace: self.trace@,
            inboxes: self.inboxes@,
            openers: self.openers@,
            woken: self.woken@,
        }
    }
}

impl<P: SendPredicate> SimState<P> {
    pub fn new(plan: FaultPlan<P>) -> (r: Self)
        ensures
            r@ == SimView::start(plan@),
    {
        let r = SimState {
            now: 0,
            next_seq: 0,
            queue: EventQueue::new(),
            plan,
            trace: Vec::new(),
            inboxes: Table::new(),
            openers: Table::new(),
            woken: Vec::new(),
        };
        assert(r@ =~= SimView::start(plan@));
        r
    }

    /// Current virtual time.
    pub fn now(&self) -> (r: Nanos)
        ensures
            r == self@.now,
    {
        self.now
    }

    fn take_seq(&mut self) -> (r: u64)
        ensures
            r == old(self)@.next_seq,
            final(self)@ == (SimView { next_seq: following(old(self)@.next_seq), ..old(self)@ }),
    {
        let seq: u64 = self.next_seq;
        self.next_seq = seq.saturating_add(1);
        seq
    }

    pub fn register_inbox(&mut self, peer: PeerId)
        ensures
            final(self)@ == old(self)@.registered(peer),
    {
        self.inboxes.insert(peer, Inbox::new());
    }

    /// Submit an outbound message: classify against the fault plan,
    /// record the trace entry, and (unless dropped) schedule delivery.
    pub fn submit_send(&mut self, src: PeerId, msg: NetSend) -> (r: Result<(), NetError>)
        ensures
            (final(self)@, r) == submitted::<P>(old(self)@, src, msg@),
    {
        if let NetSend::SessionReconstructed { channel, message_id } = &msg {
            let removed = self.openers.remove(
                &(src, memory_net::same_text(channel), memory_net::same_text(message_id)),
            );
            let set = match removed {
                Some(s) => s,
                None => KeySet::new(),
            };
            let peers = order::ascending_items(&set);
            let ghost start = self@;
            let mut i: usize = 0;
            assert(peers@.skip(0) =~= peers@);
            while i < peers.len()
                invariant
                    i <= peers@.len(),
                    msg@ == (NetSendView::SessionReconstructed {
                        channel: channel@,
                        message_id: message_id@,
                    }),
                    passed_all::<P>(self@, src, peers@.skip(i as int), msg@) == passed_all::<P>(
                        start,
                        src,
                        peers@,
                        msg@,
                    ),
                decreases peers@.len() - i,
            {
                assert(peers@.skip(i as int).drop_first() =~= peers@.skip(i + 1));
                if self.inboxes.contains(&peers[i]) {
                    let copy = NetSend::SessionReconstructed {
                        channel: memory_net::same_text(channel),
                        message_id: memory_net::same_text(message_id),
                    };
                    self.pass(src, peers[i], copy);
                }
                i = i + 1;
            }
            return Ok(());
        }
        let dst: PeerId = match runtime::destination(&msg) {
            Some(p) => p,
            None => {
                return Ok(());
            },
        };
        memory_net::note_opener(&mut self.openers, src, &msg);
        if !self.inboxes.contains(&dst) {
            return Err(NetError::PeerNotFound(dst));
        }
        let report = memory_net::ack_of(&msg);
        self.pass(src, dst, msg);
        if let Some(event) = report {
            if self.inboxes.contains(&src) {
                let at: Nanos = self.now;
                let seq: u64 = self.take_seq();
                self.queue.push(Entry { at, seq, pending: Pending::Delivery { dst: src, event } });
            }
        }
        Ok(())
    }

    /// Sends a message on a link.
    fn pass(&mut self, src: PeerId, dst: PeerId, msg: NetSend)
        ensures
            final(self)@ == passed::<P>(old(self)@, src, dst, msg@),
            final(self)@.inboxes == old(self)@.inboxes,
    {
        let kind = MsgKind::of(&msg);
        let seq: u64 = self.take_seq();
        let now: Nanos = self.now;
        match self.plan.classify(src, dst, now, &msg) {
            Classification::Drop(reason) => {
                self.trace.push(
                    TraceEntry {
                        at: now,
                        seq,
                        kind: TraceKind::Send {
                            src,
                            dst,
                            msg: kind,
                            disposition: Disposition::Dropped { reason },
                        },
                    },
                );
            },
            Classification::Deliver { delay } => {
                let deliver_at: Nanos = now.saturating_add(delay);
                self.trace.push(
                    TraceEntry {
                        at: now,
                        seq,
                        kind: TraceKind::Send {
                            src,
                            dst,
                            msg: kind,
                            disposition: Disposition::Delivered { deliver_at },
                        },
                    },
                );
                self.queue.push(
                    Entry {
                        at: deliver_at,
                        seq,
                        pending: Pending::Delivery { dst, event: runtime::into_event(src, msg) },
                    },
                );
            },
        }
    }

    /// Register a clock wakeup at the given virtual time.
    pub fn schedule_wakeup(&mut self, at: Nanos) -> (r: Sleep)
        requires
            at >= old(self)@.now,
        ensures
            final(self)@ == old(self)@.sleeping(at),
            r@ == old(self)@.woken.len(),
    {
        let id: usize = self.woken.len();
        self.woken.push(false);
        let seq: u64 = self.take_seq();
        self.queue.push(Entry { at, seq, pending: Pending::Wakeup(id) });
        Sleep { id }
    }

    /// Whether a wakeup has fired.
    pub fn is_done(&self, sleep: &Sleep) -> (r: bool)
        ensures
            r == (sleep@ < self@.woken.len() && self@.woken[sleep@ as int]),
    {
        sleep.id < self.woken.len() && self.woken[sleep.id]
    }

    /// Pop the earliest pending entry, advancing virtual time to it.
    /// Deliveries are moved into the destination's inbound queue;
    /// wakeups fire their sleeper.
    pub fn pop_next(&mut self) -> (r: Option<PumpStep>)
        ensures
            (final(self)@, r) == old(self)@.popped(),
    {
        let entry = match self.queue.pop() {
            Some(e) => e,
            None => {
                return None;
            },
        };
        self.now = entry.at;
        match entry.pending {
            Pending::Delivery { dst, event } => {
                if let Some(inbox) = self.inboxes.get_mut(&dst) {
                    inbox.push(event);
                }
                Some(PumpStep::DeliveredTo(dst))
            },
            Pending::Wakeup(n) => {
                if n < self.woken.len() {
                    self.woken[n] = true;
                }
                Some(PumpStep::Woke)
            },
        }
    }

    /// Process every entry; returns how many there were.
    pub fn drain(&mut self) -> (r: usize)
        ensures
            r == old(self)@.queue.len(),
            final(self)@ == old(self)@.drained(),
    {
        let mut n: usize = 0;
        let total: usize = self.queue.entries.len();
        assert(total == self@.queue.len());
        while self.queue.entries.len() > 0
            invariant
                total == old(self)@.queue.len(),
                n + self@.queue.len() == total,
                self@.drained() == old(self)@.drained(),
            decreases self@.queue.len(),
        {
            proof {
                law_earliest_is_due_first(self@.queue);
            }
            self.pop_next();
            n = n + 1;
        }
        n
    }

    /// Process every entry due at or before `target`, then set virtual
    /// time to `target`.
    pub fn advance_to(&mut self, target: Nanos)
        ensures
            final(self)@ == old(self)@.advanced(target),
    {
        loop
            invariant_except_break
                self@.advanced(target) == old(self)@.advanced(target),
            ensures
                self@.advanced(target) == old(self)@.advanced(target),
                self@.queue.len() == 0 || self@.queue[earliest(self@.queue)].at > target,
            decreases self@.queue.len(),
        {
            let due: bool = match self.queue.next_at() {
                Some(at) => at <= target,
                None => false,
            };
            if !due {
                break;
            }
            proof {
                law_earliest_is_due_first(self@.queue);
            }
            self.pop_next();
        }
        if target > self.now {
            self.now = target;
        }
    }

    /// The next event that waits for a peer.
    pub fn next_event(&mut self, peer: PeerId) -> (r: Option<NetEvent>)
        ensures
            match r {
                Some(e) => old(self)@.taken(peer) == (final(self)@, Some(e@)),
                None => old(self)@.taken(peer) == (final(self)@, None::<NetEventView>),
            },
    {
        match self.inboxes.get_mut(&peer) {
            Some(inbox) => {
                let r = inbox.pop();
                assert(r is None ==> self@.inboxes =~= old(self)@.inboxes);
                r
            },
            None => None,
        }
    }

    /// Records that the engine of `peer` is stepped.
    pub fn record_engine_step(&mut self, peer: PeerId)
        ensures
            final(self)@ == old(self)@.stepped(peer),
    {
        let at: Nanos = self.now;
        let seq: u64 = self.take_seq();
        self.trace.push(TraceEntry { at, seq, kind: TraceKind::EngineStep { peer } });
    }

    /// Snapshot of the recorded trace.
    pub fn trace(&self) -> (r: Vec<TraceEntry>)
        ensures
            r@ == self@.trace,
    {
        let mut out: Vec<TraceEntry> = Vec::new();
        let mut i: usize = 0;
        while i < self.trace.len()
            invariant
                i <= self.trace@.len(),
                out@ == self.trace@.take(i as int),
            decreases self.trace@.len() - i,
        {
            out.push(self.trace[i]);
            assert(out@ =~= self.trace@.take(i + 1));
            i = i + 1;
        }
        assert(out@ =~= self.trace@);
        out
    }
}

/// Virtual time never goes back, and what is queued stays due in the
/// future, when an entry is processed.
pub proof fn law_pop_keeps_time<M>(m: SimView<M>)
    requires
        m.valid(),
    ensures
        m.popped().0.valid(),
        m.now <= m.popped().0.now,
        m.popped().1 is Some <==> m.queue.len() > 0,
{
    if m.queue.len() > 0 {
        law_earliest_is_due_first(m.queue);
        let e = earliest(m.queue);
        let after = m.popped().0;
        assert forall|i: int| 0 <= i < after.queue.len() implies (#[trigger] after.queue[i]).at
            >= after.now && (after.queue[i].seq < after.next_seq || after.next_seq == u64::MAX) && (
        after.queue[i].pending matches PendingView::Wakeup(n) ==> n < after.woken.len()) by {
            let j = if i < e {
                i
            } else {
                i + 1
            };
            assert(after.queue[i] == m.queue[j]);
            assert(!before(m.queue[j], m.queue[e]));
        }
    }
}

/// A message that goes on a link keeps time, and what is queued stays due in
/// the future.
proof fn lemma_passed<P: SendPredicate>(m: SimView<P::Model>, src: PeerId, dst: PeerId, msg: NetSendView)
    requires
        m.valid(),
    ensures
        passed::<P>(m, src, dst, msg).valid(),
        passed::<P>(m, src, dst, msg).now == m.now,
        passed::<P>(m, src, dst, msg).trace.len() == m.trace.len() + 1,
{
}

proof fn lemma_passed_all<P: SendPredicate>(
    m: SimView<P::Model>,
    src: PeerId,
    peers: Seq<PeerId>,
    msg: NetSendView,
)
    requires
        m.valid(),
    ensures
        passed_all::<P>(m, src, peers, msg).valid(),
        passed_all::<P>(m, src, peers, msg).now == m.now,
    decreases peers.len(),
{
    if peers.len() > 0 {
        if m.inboxes.contains_key(peers[0]) {
            lemma_passed::<P>(m, src, peers[0], msg);
            lemma_passed_all::<P>(passed::<P>(m, src, peers[0], msg), src, peers.drop_first(), msg);
        } else {
            lemma_passed_all::<P>(m, src, peers.drop_first(), msg);
        }
    }
}

/// Sending takes no virtual time, and what it queues is due in the future.
pub proof fn law_send_keeps_time<P: SendPredicate>(m: SimView<P::Model>, src: PeerId, msg: NetSendView)
    requires
        m.valid(),
    ensures
        submitted::<P>(m, src, msg).0.valid(),
        submitted::<P>(m, src, msg).0.now == m.now,
{
    match msg {
        NetSendView::SessionReconstructed { channel, message_id } => {
            let key = (src, channel, message_id);
            lemma_passed_all::<P>(
                SimView { openers: m.openers.remove(key), ..m },
                src,
                order::ascending(memory_net::openers_of(m.openers, key)),
                msg,
            );
        },
        _ => {
            let dst = runtime::destination_of(msg)->Some_0;
            let noted = SimView { openers: memory_net::opened(m.openers, src, msg), ..m };
            lemma_passed::<P>(noted, src, dst, msg);
        },
    }
}

/// A message on a link without fault rules is delivered exactly once,
/// without delay, and behind everything that is due by now: the link is
/// first in, first out.
pub proof fn law_fault_free_link_is_fifo<P: SendPredicate>(
    m: SimView<P::Model>,
    src: PeerId,
    dst: PeerId,
    msg: NetSendView,
)
    requires
        m.valid(),
        m.next_seq < u64::MAX,
        forall|k: int|
            0 <= k < m.plan.rules.len() ==> (#[trigger] m.plan.rules[k]).src != src
                || m.plan.rules[k].dst != dst,
    ensures
        ({
            let entry = EntryView {
                at: m.now,
                seq: m.next_seq,
                pending: PendingView::Delivery { dst, event: runtime::event_of(src, msg) },
            };
            let after = passed::<P>(m, src, dst, msg);
            &&& after.queue == m.queue.push(entry)
            &&& after.plan == m.plan
            &&& forall|j: int|
                0 <= j < m.queue.len() && (#[trigger] m.queue[j]).at <= m.now ==> before(
                    m.queue[j],
                    entry,
                )
        }),
{
    net::law_other_links_are_untouched::<P>(m.plan, Passage { src, dst, now: m.now, msg });
}

/// A simulation that starts has nothing due in the past.
pub proof fn law_start_is_valid<M>(plan: PlanView<M>)
    ensures
        SimView::start(plan).valid(),
{
}

/// Advancing reaches the target and keeps what is queued due in the future;
/// nothing due at or before the target is left.
pub proof fn law_advance_reaches_target<M>(m: SimView<M>, target: Nanos)
    requires
        m.valid(),
    ensures
        m.advanced(target).valid(),
        m.advanced(target).now == (if target > m.now {
            target
        } else {
            m.now
        }),
        forall|i: int|
            0 <= i < m.advanced(target).queue.len() ==> (#[trigger] m.advanced(target).queue[i]).at
                > target,
    decreases m.queue.len(),
{
    if m.queue.len() > 0 {
        law_earliest_is_due_first(m.queue);
        if m.queue[earliest(m.queue)].at <= target {
            law_pop_keeps_time(m);
            law_advance_reaches_target(m.popped().0, target);
        } else {
            assert forall|i: int| 0 <= i < m.queue.len() implies (#[trigger] m.queue[i]).at > target by {
                assert(!before(m.queue[i], m.queue[earliest(m.queue)]));
            }
        }
    }
}

/// A wakeup that was asked for fires when virtual time is advanced to its
/// point or beyond, and not before: it is not over when it is asked for.
pub proof fn law_sleep_fires_on_advance<M>(m: SimView<M>, at: Nanos, target: Nanos)
    requires
        m.valid(),
        at >= m.now,
    ensures
        ({
            let s = m.sleeping(at);
            let id = m.woken.len() as int;
            &&& s.valid()
            &&& !s.woken[id]
            &&& target >= at ==> s.advanced(target).woken.len() > id && s.advanced(target).woken[id]
        }),
{
    let s = m.sleeping(at);
    let id = m.woken.len();
    assert forall|i: int| 0 <= i < s.queue.len() implies (#[trigger] s.queue[i]).at >= s.now && (
    s.queue[i].seq < s.next_seq || s.next_seq == u64::MAX) && (
    s.queue[i].pending matches PendingView::Wakeup(n) ==> n < s.woken.len()) by {
        if i < m.queue.len() {
            assert(s.queue[i] == m.queue[i]);
        }
    }
    if target >= at {
        assert(s.queue[m.queue.len() as int].pending == PendingView::Wakeup(id));
        lemma_wakeup_fires(s, id, target);
    }
}

/// A wakeup waits in the queue, due by `target`, or has fired.
spec fn fires<M>(m: SimView<M>, id: nat, target: Nanos) -> bool {
    &&& id < m.woken.len()
    &&& m.woken[id as int] || exists|i: int|
        0 <= i < m.queue.len() && (#[trigger] m.queue[i]).pending == PendingView::Wakeup(id)
            && m.queue[i].at <= target
}

proof fn lemma_wakeup_fires<M>(m: SimView<M>, id: nat, target: Nanos)
    requires
        m.valid(),
        fires(m, id, target),
    ensures
        m.advanced(target).woken.len() > id,
        m.advanced(target).woken[id as int],
    decreases m.queue.len(),
{
    if m.queue.len() > 0 {
        law_earliest_is_due_first(m.queue);
        let e = earliest(m.queue);
        if m.queue[e].at <= target {
            law_pop_keeps_time(m);
            let after = m.popped().0;
            assert(fires(after, id, target)) by {
                if !m.woken[id as int] {
                    let i = choose|i: int|
                        0 <= i < m.queue.len() && (#[trigger] m.queue[i]).pending
                            == PendingView::Wakeup(id) && m.queue[i].at <= target;
                    if i != e {
                        let j = if i < e {
                            i
                        } else {
                            i - 1
                        };
                        assert(after.queue[j] == m.queue[i]);
                    }
                }
            }
            lemma_wakeup_fires(after, id, target);
        } else if !m.woken[id as int] {
            let i = choose|i: int|
                0 <= i < m.queue.len() && (#[trigger] m.queue[i]).pending == PendingView::Wakeup(id)
                    && m.queue[i].at <= target;
            assert(!before(m.queue[i], m.queue[e]));
        }
    }
}

/// The trace tells what becomes of a message: one that it has as delivered is
/// queued for its receiver at the time it says, which is now and the delay
/// that the link adds; one that it has as dropped is not queued.
pub proof fn law_trace_tells_what_is_queued<P: SendPredicate>(
    m: SimView<P::Model>,
    src: PeerId,
    dst: PeerId,
    msg: NetSendView,
)
    ensures
        ({
            let after = passed::<P>(m, src, dst, msg);
            let class = net::judged::<P>(m.plan, 0, 0, Passage { src, dst, now: m.now, msg }).1;
            let last = after.trace.last();
            &&& after.trace.drop_last() == m.trace
            &&& last.at == m.now
            &&& last.seq == m.next_seq
            &&& last.kind matches TraceKind::Send { src: s, dst: d, msg: k, disposition } && {
                &&& s == src && d == dst && k == trace::kind_of(msg)
                &&& match disposition {
                    Disposition::Delivered { deliver_at } => {
                        &&& class matches Classification::Deliver { delay } && (m.now + delay
                            <= u64::MAX ==> deliver_at == m.now + delay)
                        &&& after.queue.len() == m.queue.len() + 1
                        &&& after.queue.drop_last() == m.queue
                        &&& after.queue.last().at == deliver_at
                        &&& after.queue.last().pending == (PendingView::Delivery {
                            dst,
                            event: runtime::event_of(src, msg),
                        })
                    },
                    Disposition::Dropped { reason } => {
                        &&& class == Classification::Drop(reason)
                        &&& after.queue == m.queue
                    },
                }
            }
            &&& after.now == m.now
            &&& after.inboxes == m.inboxes
        }),
{
    let after = passed::<P>(m, src, dst, msg);
    assert(after.trace.drop_last() =~= m.trace);
    if after.queue.len() > m.queue.len() {
        assert(after.queue.drop_last() =~= m.queue);
    }
}

/// Taking the next entry sets the time to when it was due. A delivery puts
/// its event behind what waits for its receiver, if that listens, and changes
/// nothing for others; a wakeup fires its sleeper and no other.
pub proof fn law_pop_does_what_is_due<M>(m: SimView<M>, p: PeerId, k: int)
    requires
        m.valid(),
        m.queue.len() > 0,
    ensures
        ({
            let e = m.queue[earliest(m.queue)];
            let (after, step) = m.popped();
            &&& after.now == e.at
            &&& after.queue.len() == m.queue.len() - 1
            &&& match e.pending {
                PendingView::Delivery { dst, event } => {
                    &&& step == Some(PumpStep::DeliveredTo(dst))
                    &&& after.woken == m.woken
                    &&& m.inboxes.contains_key(p) ==> after.inboxes.contains_key(p)
                        && after.inboxes[p].events == (if p == dst && m.inboxes[p].open {
                        m.inboxes[p].events.push(event)
                    } else {
                        m.inboxes[p].events
                    })
                },
                PendingView::Wakeup(n) => {
                    &&& step == Some(PumpStep::Woke)
                    &&& after.inboxes == m.inboxes
                    &&& after.woken.len() == m.woken.len()
                    &&& 0 <= k < m.woken.len() ==> after.woken[k] == (m.woken[k] || k == n)
                },
            }
            &&& after.trace == m.trace
        }),
{
    law_earliest_is_due_first(m.queue);
}

/// A sleeper does not wake before its time.
pub proof fn law_sleeper_waits<M>(m: SimView<M>, at: Nanos, target: Nanos)
    requires
        m.valid(),
        target < at,
    ensures
        !m.sleeping(at).advanced(target).woken[m.woken.len() as int],
{
    let s = m.sleeping(at);
    assert forall|i: int| 0 <= i < s.queue.len() && (#[trigger] s.queue[i]).pending == PendingView::Wakeup(
        m.woken.len(),
    ) implies s.queue[i].at > target by {
        if i < m.queue.len() {
            assert(s.queue[i] == m.queue[i]);
        }
    }
    lemma_waits(s, m.woken.len(), target);
}

proof fn lemma_waits<M>(m: SimView<M>, id: nat, target: Nanos)
    requires
        id < m.woken.len(),
        !m.woken[id as int],
        forall|i: int|
            0 <= i < m.queue.len() && (#[trigger] m.queue[i]).pending == PendingView::Wakeup(id)
                ==> m.queue[i].at > target,
    ensures
        m.advanced(target).woken.len() > id,
        !m.advanced(target).woken[id as int],
    decreases m.queue.len(),
{
    if m.queue.len() > 0 && m.queue[earliest(m.queue)].at <= target {
        law_earliest_is_due_first(m.queue);
        let e = earliest(m.queue);
        let next = m.popped().0;
        assert forall|i: int| 0 <= i < next.queue.len() && (#[trigger] next.queue[i]).pending
            == PendingView::Wakeup(id) implies next.queue[i].at > target by {
            let j = if i < e {
                i
            } else {
                i + 1
            };
            assert(next.queue[i] == m.queue[j]);
        }
        lemma_waits(next, id, target);
    }
}

/// Who submits a chunk to a registered peer hears of it, once and at once,
/// that it went out, whether the link drops it or not. Any other message is
/// not reported on. A message to a peer that is not registered is refused and
/// goes nowhere.
pub proof fn law_sender_hears_of_chunks<P: SendPredicate>(m: SimView<P::Model>, src: PeerId, msg: NetSendView)
    requires
        !(msg is SessionReconstructed),
        m.inboxes.contains_key(src),
    ensures
        ({
            let dst = runtime::destination_of(msg)->Some_0;
            let noted = SimView { openers: memory_net::opened(m.openers, src, msg), ..m };
            let on_link = passed::<P>(noted, src, dst, msg);
            let (after, r) = submitted::<P>(m, src, msg);
            &&& !m.inboxes.contains_key(dst) ==> r == Err::<(), NetError>(NetError::PeerNotFound(dst))
                && after.queue == m.queue && after.trace == m.trace
            &&& m.inboxes.contains_key(dst) ==> r == Ok::<(), NetError>(()) && match msg {
                NetSendView::Chunk { peer, channel, message_id, token, .. } => {
                    &&& after.queue.len() == on_link.queue.len() + 1
                    &&& after.queue.drop_last() == on_link.queue
                    &&& after.queue.last().at == m.now
                    &&& after.queue.last().pending == (PendingView::Delivery {
                        dst: src,
                        event: NetEventView::ChunkSendResult {
                            peer,
                            channel,
                            message_id,
                            token,
                            ok: true,
                        },
                    })
                },
                _ => after.queue == on_link.queue,
            }
        }),
{
    let after = submitted::<P>(m, src, msg).0;
    let dst = runtime::destination_of(msg)->Some_0;
    let noted = SimView { openers: memory_net::opened(m.openers, src, msg), ..m };
    let on_link = passed::<P>(noted, src, dst, msg);
    if after.queue.len() > on_link.queue.len() {
        assert(after.queue.drop_last() =~= on_link.queue);
    }
}

/// A peer that registers listens, to an empty queue. What waits for a peer is
/// taken oldest first, and for that peer only.
pub proof fn law_queues_are_taken_in_order<M>(m: SimView<M>, p: PeerId, other: PeerId)
    requires
        other != p,
    ensures
        ({
            let after = m.registered(p);
            &&& after.inboxes.contains_key(p)
            &&& after.inboxes[p].open
            &&& after.inboxes[p].events.len() == 0
            &&& after.inboxes.contains_key(other) == m.inboxes.contains_key(other)
            &&& after.inboxes[other] == m.inboxes[other]
            &&& after.now == m.now && after.queue == m.queue && after.trace == m.trace
        }),
        ({
            let (after, e) = m.taken(p);
            let waits = m.inboxes[p].events;
            &&& e is Some <==> m.inboxes.contains_key(p) && waits.len() > 0
            &&& e is Some ==> e == Some(waits[0]) && after.inboxes[p].events.len() == waits.len() - 1
                && seq![waits[0]] + after.inboxes[p].events == waits
            &&& e is None ==> after == m
            &&& after.inboxes[other] == m.inboxes[other]
        }),
{
    let (after, e) = m.taken(p);
    let waits = m.inboxes[p].events;
    if e is Some {
        assert(seq![waits[0]] + after.inboxes[p].events =~= waits);
    }
}

/// In a simulation, too, who opens a session to a peer is told when that peer
/// has reconstructed the message: where nobody else opened it, what follows
/// is what a notice on the link to the opener does. It is told once.
pub proof fn law_opener_is_told<P: SendPredicate>(
    m: SimView<P::Model>,
    a: PeerId,
    b: PeerId,
    channel: Seq<char>,
    message_id: Seq<char>,
    preamble: Seq<u8>,
    update: Seq<u8>,
)
    requires
        m.inboxes.contains_key(a),
        m.inboxes.contains_key(b),
        memory_net::openers_of(m.openers, (b, channel, message_id)) == Set::<PeerId>::empty(),
    ensures
        ({
            let open = NetSendView::SessionOpen {
                peer: b,
                channel,
                message_id,
                preamble,
                initial_update: update,
            };
            let done = NetSendView::SessionReconstructed { channel, message_id };
            let m1 = submitted::<P>(m, a, open).0;
            let (m2, r) = submitted::<P>(m1, b, done);
            let link = passed::<P>(m1, b, a, done);
            &&& r == Ok::<(), NetError>(())
            &&& m2.queue == link.queue
            &&& m2.trace == link.trace
            &&& m2.plan == link.plan
            &&& submitted::<P>(m2, b, done).0.queue == m2.queue
        }),
{
    let open = NetSendView::SessionOpen {
        peer: b,
        channel,
        message_id,
        preamble,
        initial_update: update,
    };
    let done = NetSendView::SessionReconstructed { channel, message_id };
    let key = (b, channel, message_id);
    let m1 = submitted::<P>(m, a, open).0;
    let one = seq![a];
    let lt = |x: u64, y: u64| x < y;
    assert(one.to_set() =~= set![a]) by {
        assert(one[0] == a);
    }
    assert(memory_net::openers_of(m1.openers, key) =~= set![a]);
    order::lemma_in_order(one, lt);
    assert(order::ascending(set![a]) == one);
    assert(one[0] == a && one.drop_first() =~= Seq::<PeerId>::empty());
    reveal_with_fuel(passed_all, 2);
    let m2 = submitted::<P>(m1, b, done).0;
    assert(memory_net::openers_of(m2.openers, key) == Set::<PeerId>::empty());
    let none = Seq::<PeerId>::empty();
    assert(none.to_set() =~= Set::<PeerId>::empty());
    order::lemma_in_order(none, lt);
}

} // verus!
