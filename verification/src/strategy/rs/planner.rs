//! Emit planner: orders shards by allocation count with Fibonacci-hashed
//! tie-break.

use vstd::prelude::*;

use crate::strategy::bitmap;
use crate::strategy::bitmap::BitMap;
use crate::strategy::PeerId;
use crate::table::{KeySet, Table};

verus! {

/// Multiplier of the Fibonacci hash.
pub const FIBONACCI: u64 = 0x9E37_79B9_7F4A_7C15;

/// Planner mode: origin (unconstrained) or relay (capped at
/// `forward_multiplier` allocations per shard).
#[derive(Debug, Clone, Copy, PartialEq, Eq, Structural)]
pub enum PlannerMode {
    /// Unbounded allocations per shard.
    Origin,
    /// At most `forward_multiplier` allocations per shard.
    Relay { forward_multiplier: u32 },
}

/// What the planner knows of one peer.
#[verifier::ext_equal]
pub ghost struct PeerPlan {
    /// Shards allocated to the peer whose outcome is open.
    pub in_flight: Set<u32>,
    /// Shards the peer is believed to hold.
    pub havelist: Option<Seq<bool>>,
}

/// State of an [`EmitPlanner`].
#[verifier::ext_equal]
pub ghost struct PlannerView {
    pub mode: PlannerMode,
    pub seed: u64,
    /// How often each shard has been allocated; one entry per shard.
    pub allocation: Seq<u32>,
    /// How often each shard has been sent.
    pub sent: Map<u32, u32>,
    pub peers: Map<u64, PeerPlan>,
}

/// A count advanced by one; it stays at its maximum.
pub open spec fn advanced(count: u32) -> u32 {
    if count < u32::MAX {
        (count + 1) as u32
    } else {
        count
    }
}

/// Tie-break priority of a shard: the upper half of the Fibonacci hash of
/// the seed mixed with the shard index.
pub open spec fn priority(seed: u64, idx: u32) -> u32 {
    ((seed ^ (idx as u64)).wrapping_mul(FIBONACCI) >> 32) as u32
}

impl PeerPlan {
    /// A peer of which nothing is known.
    pub open spec fn unknown() -> PeerPlan {
        PeerPlan { in_flight: Set::empty(), havelist: None }
    }

    /// The peer is believed to hold shard `idx`.
    pub open spec fn has(self, idx: u32) -> bool {
        match self.havelist {
            Some(bits) => idx < bits.len() && bits[idx as int],
            None => false,
        }
    }
}

impl PlannerView {
    pub open spec fn fresh(num_shards: u32, seed: u64, mode: PlannerMode) -> PlannerView {
        PlannerView {
            mode,
            seed,
            allocation: Seq::new(num_shards as nat, |i: int| 0u32),
            sent: Map::empty(),
            peers: Map::empty(),
        }
    }

    /// Shards are numbered by `u32`.
    pub open spec fn valid(self) -> bool {
        self.allocation.len() <= u32::MAX
    }

    pub open spec fn plan(self, peer: PeerId) -> PeerPlan {
        if self.peers.contains_key(peer) {
            self.peers[peer]
        } else {
            PeerPlan::unknown()
        }
    }

    pub open spec fn with_plan(self, peer: PeerId, plan: PeerPlan) -> PlannerView {
        PlannerView { peers: self.peers.insert(peer, plan), ..self }
    }

    /// Another allocation of shard `idx` stays within the cap of a relay.
    pub open spec fn within_cap(self, idx: u32) -> bool {
        match self.mode {
            PlannerMode::Origin => true,
            PlannerMode::Relay { forward_multiplier } => self.allocation[idx as int] < forward_multiplier,
        }
    }

    /// Shard `idx` may be allocated to `peer`; `held`, when given, are the
    /// shards there are to send.
    pub open spec fn candidate(self, peer: PeerId, held: Option<Seq<bool>>, idx: u32) -> bool {
        &&& idx < self.allocation.len()
        &&& self.within_cap(idx)
        &&& !self.plan(peer).has(idx)
        &&& !self.plan(peer).in_flight.contains(idx)
        &&& match held {
            Some(bits) => idx < bits.len() && bits[idx as int],
            None => true,
        }
    }

    /// Shard `a` is more urgent than shard `b`: fewer allocations, then lower
    /// priority value, then lower index.
    pub open spec fn before(self, a: u32, b: u32) -> bool {
        let (x, y) = (self.allocation[a as int], self.allocation[b as int]);
        let (p, q) = (priority(self.seed, a), priority(self.seed, b));
        x < y || (x == y && (p < q || (p == q && a < b)))
    }

    /// `idx` is the most urgent candidate.
    pub open spec fn is_best(self, peer: PeerId, held: Option<Seq<bool>>, idx: u32) -> bool {
        &&& self.candidate(peer, held, idx)
        &&& forall|j: u32| #[trigger] self.candidate(peer, held, j) && j != idx ==> self.before(idx, j)
    }

    /// The shard that the next allocation to `peer` picks.
    pub open spec fn best(self, peer: PeerId, held: Option<Seq<bool>>) -> Option<u32> {
        if exists|i: u32| self.is_best(peer, held, i) {
            Some(choose|i: u32| self.is_best(peer, held, i))
        } else {
            None
        }
    }

    /// State after allocating the best shard, if there is one.
    pub open spec fn allocated(self, peer: PeerId, held: Option<Seq<bool>>) -> PlannerView {
        match self.best(peer, held) {
            Some(i) => {
                let plan = self.plan(peer);
                PlannerView {
                    allocation: self.allocation.update(i as int, advanced(self.allocation[i as int])),
                    ..self.with_plan(peer, PeerPlan { in_flight: plan.in_flight.insert(i), ..plan })
                }
            },
            None => self,
        }
    }

    /// State after shard `idx` reached `peer`.
    pub open spec fn delivered(self, peer: PeerId, idx: u32) -> PlannerView {
        let plan = self.plan(peer);
        let bits = match plan.havelist {
            Some(bits) => bits,
            None => bitmap::cleared(self.allocation.len()),
        };
        PlannerView {
            sent: self.sent.insert(
                idx,
                advanced(
                    if self.sent.contains_key(idx) {
                        self.sent[idx]
                    } else {
                        0
                    },
                ),
            ),
            ..self.with_plan(
                peer,
                PeerPlan {
                    in_flight: plan.in_flight.remove(idx),
                    havelist: Some(
                        if idx < bits.len() {
                            bits.update(idx as int, true)
                        } else {
                            bits
                        },
                    ),
                },
            )
        }
    }

    /// State after the allocation of shard `idx` to `peer` is withdrawn.
    pub open spec fn cancelled(self, peer: PeerId, idx: u32) -> PlannerView {
        let plan = self.plan(peer);
        self.with_plan(peer, PeerPlan { in_flight: plan.in_flight.remove(idx), ..plan })
    }

    /// State after the havelist of `peer` is replaced.
    pub open spec fn informed(self, peer: PeerId, bits: Seq<bool>) -> PlannerView {
        let plan = self.plan(peer);
        self.with_plan(peer, PeerPlan { havelist: Some(bits), ..plan })
    }
}

struct PeerState {
    in_flight: KeySet<u32>,
    optimistic_havelist: Option<BitMap>,
}

impl View for PeerState {
    type V = PeerPlan;

    closed spec fn view(&self) -> PeerPlan {
        PeerPlan {
            in_flight: self.in_flight@,
            havelist: match self.optimistic_havelist {
                Some(b) => Some(b@),
                None => None,
            },
        }
    }
}

impl PeerState {
    fn unknown() -> (r: Self)
        ensures
            r@ == PeerPlan::unknown(),
    {
        PeerState { in_flight: KeySet::new(), optimistic_havelist: None }
    }
}

/// Emit planner.
pub struct EmitPlanner {
    mode: PlannerMode,
    seed: u64,
    allocation: Vec<u32>,
    sent_count: Table<u32, u32>,
    peers: Table<u64, PeerState>,
}

impl View for EmitPlanner {
    type V = PlannerView;

    closed spec fn view(&self) -> PlannerView {
        PlannerView {
            mode: self.mode,
            seed: self.seed,
            allocation: self.allocation@,
            sent: self.sent_count@,
            peers: self.peers@,
        }
    }
}

impl EmitPlanner {
    /// Construct with `num_shards` total shards, a seed for the
    /// Fibonacci tie-break, and an operating `mode`.
    #[must_use]
    pub fn new(num_shards: u32, seed: u64, mode: PlannerMode) -> (r: Self)
        ensures
            r@ == PlannerView::fresh(num_shards, seed, mode),
    {
        let mut allocation: Vec<u32> = Vec::new();
        let mut i: u32 = 0;
        while i < num_shards
            invariant
                i <= num_shards,
                allocation@ == Seq::new(i as nat, |i: int| 0u32),
            decreases num_shards - i,
        {
            allocation.push(0);
            i = i + 1;
        }
        EmitPlanner { mode, seed, allocation, sent_count: Table::new(), peers: Table::new() }
    }

    /// The entry of `peer`, created when there is none.
    fn peer_entry(&mut self, peer: PeerId) -> (r: &mut PeerState)
        ensures
            r@ == old(self)@.plan(peer),
            final(self)@ == old(self)@.with_plan(peer, final(r)@),
    {
        self.peers.entry(peer, PeerState::unknown())
    }

    /// Whether shard `idx` may be allocated to `peer`.
    fn is_candidate(&self, peer: PeerId, held: Option<&BitMap>, idx: u32) -> (r: bool)
        ensures
            r == self@.candidate(peer, view_of(held), idx),
    {
        if idx as usize >= self.allocation.len() {
            return false;
        }
        if let PlannerMode::Relay { forward_multiplier } = self.mode {
            if self.allocation[idx as usize] >= forward_multiplier {
                return false;
            }
        }
        if let Some(s) = self.peers.get(&peer) {
            if let Some(b) = &s.optimistic_havelist {
                if b.get(idx) {
                    return false;
                }
            }
            if s.in_flight.contains(&idx) {
                return false;
            }
        }
        match held {
            Some(b) => b.get(idx),
            None => true,
        }
    }

    /// Whether shard `a` is more urgent than shard `b`.
    fn is_before(&self, a: u32, b: u32) -> (r: bool)
        requires
            a < self@.allocation.len(),
            b < self@.allocation.len(),
        ensures
            r == self@.before(a, b),
    {
        let x: u32 = self.allocation[a as usize];
        let y: u32 = self.allocation[b as usize];
        if x != y {
            return x < y;
        }
        let p: u32 = fib_priority(self.seed, a);
        let q: u32 = fib_priority(self.seed, b);
        if p != q {
            p < q
        } else {
            a < b
        }
    }

    /// The most urgent candidate for `peer`.
    fn pick(&self, peer: PeerId, held: Option<&BitMap>) -> (r: Option<u32>)
        requires
            self@.valid(),
        ensures
            r == self@.best(peer, view_of(held)),
    {
        let ghost h = view_of(held);
        let mut best: Option<u32> = None;
        let mut i: usize = 0;
        while i < self.allocation.len()
            invariant
                i <= self.allocation@.len(),
                self@.valid(),
                h == view_of(held),
                best matches Some(b) ==> b < i && self@.candidate(peer, h, b),
                forall|j: u32|
                    j < i && #[trigger] self@.candidate(peer, h, j) ==> (best matches Some(b) && (b == j
                        || self@.before(b, j))),
            decreases self.allocation@.len() - i,
        {
            let idx: u32 = i as u32;
            if self.is_candidate(peer, held, idx) {
                match best {
                    Some(b) => {
                        if self.is_before(idx, b) {
                            best = Some(idx);
                        }
                    },
                    None => {
                        best = Some(idx);
                    },
                }
            }
            i = i + 1;
        }
        proof {
            match best {
                Some(b) => {
                    assert(self@.is_best(peer, h, b));
                    let c = choose|c: u32| self@.is_best(peer, h, c);
                    assert(self@.is_best(peer, h, c));
                    assert(self@.candidate(peer, h, c));
                    assert(self@.candidate(peer, h, b));
                    assert(b == c);
                },
                None => {},
            }
        }
        best
    }

    /// Allocate the next-best shard for `peer`, respecting the peer's
    /// optimistic havelist, in-flight set, and (for relays) the per-
    /// shard forward-multiplier budget.
    pub fn allocate(&mut self, peer: PeerId) -> (r: Option<u32>)
        requires
            old(self)@.valid(),
        ensures
            r == old(self)@.best(peer, None),
            final(self)@ == old(self)@.allocated(peer, None),
    {
        let chosen = self.pick(peer, None);
        if let Some(idx) = chosen {
            self.commit(peer, idx);
        }
        chosen
    }

    /// [`Self::allocate`] among the shards set in `held`.
    pub fn allocate_held(&mut self, peer: PeerId, held: &BitMap) -> (r: Option<u32>)
        requires
            old(self)@.valid(),
        ensures
            r == old(self)@.best(peer, Some(held@)),
            final(self)@ == old(self)@.allocated(peer, Some(held@)),
    {
        let chosen = self.pick(peer, Some(held));
        if let Some(idx) = chosen {
            self.commit(peer, idx);
        }
        chosen
    }

    /// Counts shard `idx` as allocated to `peer`.
    fn commit(&mut self, peer: PeerId, idx: u32)
        requires
            idx < old(self)@.allocation.len(),
        ensures
            final(self)@ == (PlannerView {
                allocation: old(self)@.allocation.update(
                    idx as int,
                    advanced(old(self)@.allocation[idx as int]),
                ),
                ..old(self)@.with_plan(
                    peer,
                    PeerPlan {
                        in_flight: old(self)@.plan(peer).in_flight.insert(idx),
                        ..old(self)@.plan(peer)
                    },
                )
            }),
    {
        let count: u32 = self.allocation[idx as usize];
        self.allocation[idx as usize] = count.saturating_add(1);
        let s = self.peer_entry(peer);
        s.in_flight.insert(idx);
    }

    /// Mark a shard as successfully sent: optimistically present in the
    /// peer's havelist, no longer in-flight, and increment send count.
    pub fn record_sent(&mut self, peer: PeerId, idx: u32)
        requires
            old(self)@.valid(),
        ensures
            final(self)@ == old(self)@.delivered(peer, idx),
    {
        let shards: u32 = self.allocation.len() as u32;
        let s = self.peer_entry(peer);
        s.in_flight.remove(&idx);
        let mut bits = match &s.optimistic_havelist {
            Some(b) => b.clone(),
            None => BitMap::with_capacity(shards),
        };
        let _ = bits.set(idx);
        s.optimistic_havelist = Some(bits);
        let count = self.sent_count.entry(idx, 0);
        *count = (*count).saturating_add(1);
    }

    /// Cancel an in-flight allocation without recording it as sent.
    /// Used when a routing update reveals the peer already has the
    /// shard.
    pub fn cancel_in_flight(&mut self, peer: PeerId, idx: u32)
        ensures
            final(self)@ == old(self)@.cancelled(peer, idx),
    {
        let s = self.peer_entry(peer);
        s.in_flight.remove(&idx);
    }

    /// Replace the peer's optimistic havelist (e.g., after merging an
    /// inbound routing-update bitmap into the current view).
    pub fn set_peer_havelist(&mut self, peer: PeerId, b: BitMap)
        ensures
            final(self)@ == old(self)@.informed(peer, b@),
    {
        let s = self.peer_entry(peer);
        s.optimistic_havelist = Some(b);
    }

    /// Returns the indices currently in-flight to `peer`.
    #[must_use]
    pub fn peer_in_flight(&self, peer: PeerId) -> (r: Vec<u32>)
        ensures
            r@.to_set() == self@.plan(peer).in_flight,
            r@.no_duplicates(),
    {
        match self.peers.get(&peer) {
            Some(s) => {
                let items = s.in_flight.items();
                let mut out: Vec<u32> = Vec::new();
                let mut i: usize = 0;
                while i < items.len()
                    invariant
                        i <= items@.len(),
                        out@ == items@.take(i as int),
                    decreases items@.len() - i,
                {
                    out.push(items[i]);
                    i = i + 1;
                }
                assert(out@ =~= items@);
                proof {
                    assert forall|k: u32| out@.to_set().contains(k) <==> s.in_flight@.contains(k) by {
                        if s.in_flight@.contains(k) {
                            let p = choose|p: int| 0 <= p < items@.len() && (#[trigger] items@[p])@ == k;
                            assert(items@[p] == k);
                        }
                        if out@.contains(k) {
                            let p = choose|p: int| 0 <= p < out@.len() && out@[p] == k;
                            assert(items@[p] == k);
                        }
                    }
                    assert(out@.to_set() =~= s.in_flight@);
                    assert forall|a: int, b: int| 0 <= a < b < out@.len() implies out@[a] != out@[b] by {
                        assert(items@[a]@ != items@[b]@);
                    }
                }
                out
            },
            None => {
                let out: Vec<u32> = Vec::new();
                assert(out@.to_set() =~= Set::<u32>::empty());
                out
            },
        }
    }

    /// Returns a clone of the peer's optimistic havelist, if any.
    #[must_use]
    pub fn peer_havelist(&self, peer: PeerId) -> (r: Option<BitMap>)
        ensures
            match r {
                Some(b) => self@.plan(peer).havelist == Some(b@),
                None => self@.plan(peer).havelist is None,
            },
    {
        match self.peers.get(&peer) {
            Some(s) => match &s.optimistic_havelist {
                Some(b) => Some(b.clone()),
                None => None,
            },
            None => None,
        }
    }

    /// Total shard count this planner was constructed with.
    #[must_use]
    pub fn num_shards(&self) -> (r: u32)
        requires
            self@.valid(),
        ensures
            r == self@.allocation.len(),
    {
        self.allocation.len() as u32
    }

    /// Allocation count for a given shard (for tests and inspection).
    #[must_use]
    pub fn allocation_count(&self, idx: u32) -> (r: u32)
        ensures
            r == (if idx < self@.allocation.len() {
                self@.allocation[idx as int]
            } else {
                0
            }),
    {
        if (idx as usize) < self.allocation.len() {
            self.allocation[idx as usize]
        } else {
            0
        }
    }

    /// Send count for a given shard.
    #[must_use]
    pub fn sent_count(&self, idx: u32) -> (r: u32)
        ensures
            r == (if self@.sent.contains_key(idx) {
                self@.sent[idx]
            } else {
                0
            }),
    {
        match self.sent_count.get(&idx) {
            Some(c) => *c,
            None => 0,
        }
    }
}

/// Among the candidates below `n`, if there are any, one is the most urgent.
proof fn lemma_least_candidate(p: PlannerView, peer: PeerId, held: Option<Seq<bool>>, n: int) -> (least: Option<u32>)
    requires
        p.valid(),
        0 <= n <= p.allocation.len(),
    ensures
        least matches Some(b) ==> b < n && p.candidate(peer, held, b),
        forall|j: u32|
            j < n && #[trigger] p.candidate(peer, held, j) ==> (least matches Some(b) && (b == j || p.before(
                b,
                j,
            ))),
    decreases n,
{
    if n == 0 {
        None
    } else {
        let below = lemma_least_candidate(p, peer, held, n - 1);
        let i = (n - 1) as u32;
        if p.candidate(peer, held, i) {
            match below {
                Some(b) => if p.before(i, b) {
                    Some(i)
                } else {
                    Some(b)
                },
                None => Some(i),
            }
        } else {
            below
        }
    }
}

/// An allocation succeeds exactly when some shard is a candidate, and it
/// picks a candidate that no other candidate precedes.
pub proof fn law_best_is_least_allocated(p: PlannerView, peer: PeerId, held: Option<Seq<bool>>)
    requires
        p.valid(),
    ensures
        match p.best(peer, held) {
            Some(i) => p.candidate(peer, held, i) && forall|j: u32| #[trigger]
                p.candidate(peer, held, j) ==> p.allocation[i as int] <= p.allocation[j as int],
            None => forall|j: u32| !#[trigger] p.candidate(peer, held, j),
        },
{
    let least = lemma_least_candidate(p, peer, held, p.allocation.len() as int);
    match least {
        Some(b) => {
            assert(p.is_best(peer, held, b));
        },
        None => {
            if p.best(peer, held) is Some {
                let i = p.best(peer, held)->0;
                assert(p.is_best(peer, held, i));
                assert(p.candidate(peer, held, i));
            }
        },
    }
}

/// A relay never allocates a shard more often than its forward multiplier.
pub proof fn law_relay_cap(p: PlannerView, peer: PeerId, held: Option<Seq<bool>>, cap: u32)
    requires
        p.valid(),
        p.mode == (PlannerMode::Relay { forward_multiplier: cap }),
        forall|i: int| 0 <= i < p.allocation.len() ==> p.allocation[i] <= cap,
    ensures
        p.allocated(peer, held).mode == p.mode,
        forall|i: int|
            0 <= i < p.allocated(peer, held).allocation.len() ==> p.allocated(peer, held).allocation[i]
                <= cap,
{
    law_best_is_least_allocated(p, peer, held);
}

/// What is allocated to a peer is neither in flight to it nor held by it, and
/// is in flight afterwards; the plans of other peers do not change.
pub proof fn law_allocation_is_new(p: PlannerView, peer: PeerId, held: Option<Seq<bool>>, other: PeerId)
    requires
        p.valid(),
    ensures
        p.best(peer, held) matches Some(i) ==> {
            &&& !p.plan(peer).in_flight.contains(i)
            &&& !p.plan(peer).has(i)
            &&& p.allocated(peer, held).plan(peer).in_flight == p.plan(peer).in_flight.insert(i)
        },
        other != peer ==> p.allocated(peer, held).plan(other) == p.plan(other),
{
    law_best_is_least_allocated(p, peer, held);
}

/// A shard recorded as sent to a peer is never allocated to that peer again
/// while its havelist stands.
pub proof fn law_sent_is_not_reallocated(p: PlannerView, peer: PeerId, idx: u32, held: Option<Seq<bool>>)
    requires
        p.valid(),
        p.plan(peer).havelist matches Some(bits) ==> idx < bits.len(),
        idx < p.allocation.len(),
    ensures
        p.delivered(peer, idx).plan(peer).has(idx),
        !p.delivered(peer, idx).plan(peer).in_flight.contains(idx),
        p.delivered(peer, idx).best(peer, held) != Some(idx),
{
    let after = p.delivered(peer, idx);
    law_best_is_least_allocated(after, peer, held);
    assert(!after.candidate(peer, held, idx));
}

/// Cancelling an allocation makes the shard a candidate again, as far as the
/// relay cap allows.
pub proof fn law_cancel_reopens(p: PlannerView, peer: PeerId, held: Option<Seq<bool>>)
    requires
        p.valid(),
        p.best(peer, held) is Some,
    ensures
        ({
            let i = p.best(peer, held)->0;
            let after = p.allocated(peer, held).cancelled(peer, i);
            &&& after.plan(peer) == p.plan(peer)
            &&& after.candidate(peer, held, i) == after.within_cap(i)
        }),
{
    law_best_is_least_allocated(p, peer, held);
    let i = p.best(peer, held)->0;
    let after = p.allocated(peer, held).cancelled(peer, i);
    assert(p.plan(peer).in_flight.insert(i).remove(i) =~= p.plan(peer).in_flight);
    assert(after.plan(peer) =~= p.plan(peer));
}

/// View of an optional bitmap.
pub open spec fn view_of(held: Option<&BitMap>) -> Option<Seq<bool>> {
    match held {
        Some(b) => Some(b@),
        None => None,
    }
}

/// Tie-break priority of shard `idx` under `seed`.
pub fn fib_priority(seed: u64, idx: u32) -> (r: u32)
    ensures
        r == priority(seed, idx),
{
    let mixed: u64 = (seed ^ (idx as u64)).wrapping_mul(FIBONACCI);
    (mixed >> 32) as u32
}

/// A shard that there is to send, that the peer neither holds nor is getting,
/// and that a relay has allocated fewer times than it may, can be allocated:
/// some shard is, and none that has been allocated more often than it. Of
/// those allocated equally often the one of the lowest priority value is
/// taken, and of those again the first.
pub proof fn law_available_shard_is_allocated(p: PlannerView, peer: PeerId, held: Seq<bool>, idx: u32)
    requires
        p.valid(),
        idx < p.allocation.len(),
        idx < held.len(),
        held[idx as int],
        !p.plan(peer).in_flight.contains(idx),
        p.plan(peer).havelist matches Some(bits) ==> idx >= bits.len() || !bits[idx as int],
        p.mode matches PlannerMode::Relay { forward_multiplier } ==> p.allocation[idx as int]
            < forward_multiplier,
    ensures
        p.best(peer, Some(held)) matches Some(i) && {
            &&& p.allocation[i as int] <= p.allocation[idx as int]
            &&& p.allocation[i as int] == p.allocation[idx as int] ==> {
                ||| priority(p.seed, i) < priority(p.seed, idx)
                ||| priority(p.seed, i) == priority(p.seed, idx) && i <= idx
            }
        },
{
    law_best_is_least_allocated(p, peer, Some(held));
    assert(p.candidate(peer, Some(held), idx));
    let least = lemma_least_candidate(p, peer, Some(held), p.allocation.len() as int);
    let b = least->0;
    assert(p.is_best(peer, Some(held), b));
    let i = p.best(peer, Some(held))->0;
    assert(p.is_best(peer, Some(held), i));
}

/// Allocating a shard counts it once more and no other; withdrawing it, or
/// hearing that it arrived, leaves the count. What arrived counts as sent once
/// more. Counts stop at their maximum.
pub proof fn law_allocations_are_counted(
    p: PlannerView,
    peer: PeerId,
    held: Option<Seq<bool>>,
    idx: u32,
    j: u32,
)
    requires
        p.valid(),
        j < p.allocation.len(),
    ensures
        ({
            let after = p.allocated(peer, held);
            let count = p.allocation[j as int];
            &&& after.allocation.len() == p.allocation.len()
            &&& p.best(peer, held) == Some(j) && count < u32::MAX ==> after.allocation[j as int] == count + 1
            &&& p.best(peer, held) != Some(j) ==> after.allocation[j as int] == count
            &&& after.sent == p.sent
        }),
        p.cancelled(peer, idx).allocation == p.allocation,
        p.cancelled(peer, idx).sent == p.sent,
        p.delivered(peer, idx).allocation == p.allocation,
        ({
            let before: int = if p.sent.contains_key(idx) {
                p.sent[idx] as int
            } else {
                0
            };
            let after = p.delivered(peer, idx).sent;
            &&& after.contains_key(idx)
            &&& before < u32::MAX ==> after[idx] == before + 1
            &&& j != idx ==> after.contains_key(j) == p.sent.contains_key(j)
            &&& j != idx && p.sent.contains_key(j) ==> after[j] == p.sent[j]
        }),
{
    law_best_is_least_allocated(p, peer, held);
}

/// What is said of one peer changes the plan of that peer and of no other.
pub proof fn law_plans_are_separate(
    p: PlannerView,
    peer: PeerId,
    other: PeerId,
    idx: u32,
    bits: Seq<bool>,
)
    requires
        other != peer,
    ensures
        p.delivered(peer, idx).plan(other) == p.plan(other),
        p.cancelled(peer, idx).plan(other) == p.plan(other),
        p.informed(peer, bits).plan(other) == p.plan(other),
        p.informed(peer, bits).plan(peer).in_flight == p.plan(peer).in_flight,
        p.informed(peer, bits).plan(peer).has(idx) <==> idx < bits.len() && bits[idx as int],
        p.cancelled(peer, idx).plan(peer).havelist == p.plan(peer).havelist,
        forall|i: u32|
            i != idx ==> #[trigger] p.cancelled(peer, idx).plan(peer).in_flight.contains(i) == p.plan(
                peer,
            ).in_flight.contains(i),
        forall|i: u32|
            i != idx ==> #[trigger] p.delivered(peer, idx).plan(peer).in_flight.contains(i) == p.plan(
                peer,
            ).in_flight.contains(i),
        !p.cancelled(peer, idx).plan(peer).in_flight.contains(idx),
        !p.delivered(peer, idx).plan(peer).in_flight.contains(idx),
{
}

} // verus!
