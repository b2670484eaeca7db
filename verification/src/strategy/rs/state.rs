//! Per-session Reed-Solomon strategy state container.
//!
//! Glues together encoding, verification, decoding, and the emit
//! planner, and offers them to the engine as a [`Strategy`].

use vstd::prelude::*;

use crate::order;
use crate::pb;
use crate::pb::rs::{Preamble, PreambleView};
use crate::strategy::bitmap;
use crate::strategy::bitmap::BitMap;
use crate::strategy::config::RsConfig;
use crate::strategy::dispatch;
use crate::strategy::dispatch::DispatchView;
use crate::strategy::rs::code;
use crate::strategy::rs::decode;
use crate::strategy::rs::decode::DecodeError;
use crate::strategy::rs::encode;
use crate::strategy::rs::encode::EncodeError;
use crate::strategy::rs::planner;
use crate::strategy::rs::planner::{EmitPlanner, PlannerMode, PlannerView};
use crate::strategy::rs::verify;
use crate::strategy::rs::verify::PreambleError;
use crate::strategy::{ChunkDispatch, DispatchHandle, PeerId, Strategy, TakeOutcome, Verdict};
use crate::table::KeySet;

verus! {

/// Errors returned by [`RsStrategy::take_chunk`].
#[derive(Debug, Clone, Copy, PartialEq, Eq, Structural)]
pub enum TakeError {
    /// The chunk failed verification.
    Rejected,
    /// The chunk's index is out of range.
    OutOfRange { idx: u32, total: u32 },
}

/// A dispatch whose outcome is open.
#[derive(Debug, Clone, Copy, PartialEq, Eq, Structural)]
pub struct Flight {
    pub handle: DispatchHandle,
    pub peer: PeerId,
    pub idx: u32,
}

/// Per-session RS strategy state.
pub struct RsStrategy {
    config: RsConfig,
    preamble: Preamble,
    /// Accepted chunks, indexed by shard index. `None` means not yet
    /// received.
    chunks: Vec<Option<Vec<u8>>>,
    planner: EmitPlanner,
    /// Attached peers.
    peers: KeySet<u64>,
    flights: Vec<Flight>,
    next_handle: DispatchHandle,
    /// Number of chunks held when routing was last announced.
    announced: u32,
}

/// State of an [`RsStrategy`].
#[verifier::ext_equal]
pub ghost struct RsView {
    pub config: RsConfig,
    pub preamble: PreambleView,
    pub chunks: Seq<Option<Seq<u8>>>,
    pub planner: PlannerView,
    pub peers: Set<PeerId>,
    pub flights: Seq<Flight>,
    pub next_handle: DispatchHandle,
    pub announced: u32,
}

impl RsView {
    /// An origin: it holds every shard of the payload and sends without cap.
    pub open spec fn origin(payload: Seq<u8>, config: RsConfig, seed: u64) -> RsView {
        let shards = encode::shards_of(payload, config);
        RsView {
            config,
            preamble: encode::preamble_of(payload, config),
            chunks: shards.map_values(|s: Seq<u8>| Some(s)),
            planner: PlannerView::fresh(shards.len() as u32, seed, PlannerMode::Origin),
            peers: Set::empty(),
            flights: Seq::empty(),
            next_handle: 0,
            announced: 0,
        }
    }

    /// A relay: it holds nothing yet and sends each shard so many times.
    pub open spec fn relay(preamble: PreambleView, config: RsConfig, seed: u64) -> RsView {
        let total = preamble.num_data + preamble.num_parity;
        RsView {
            config,
            preamble,
            chunks: Seq::new(total as nat, |i: int| None),
            planner: PlannerView::fresh(
                total as u32,
                seed,
                PlannerMode::Relay { forward_multiplier: config.forward_multiplier },
            ),
            peers: Set::empty(),
            flights: Seq::empty(),
            next_handle: 0,
            announced: 0,
        }
    }

    /// Invariant: the preamble is well shaped, there is a slot per shard, and
    /// what the slots hold is what the preamble announces. Handles in flight
    /// are distinct and have been given out.
    pub open spec fn valid(self) -> bool {
        &&& verify::preamble_fault(self.preamble) is None
        &&& self.chunks.len() == self.preamble.num_data + self.preamble.num_parity
        &&& self.planner.allocation.len() == self.chunks.len()
        &&& forall|i: int|
            0 <= i < self.chunks.len() ==> (#[trigger] self.chunks[i] matches Some(d) ==> verify::authentic(
                self.preamble,
                i,
                d,
            ))
        &&& forall|i: int|
            0 <= i < self.flights.len() ==> (#[trigger] self.flights[i]).handle < self.next_handle
                && self.flights[i].idx < self.chunks.len()
        &&& forall|i: int, j: int|
            0 <= i < j < self.flights.len() ==> (#[trigger] self.flights[i]).handle != (
            #[trigger] self.flights[j]).handle
    }

    /// Number of chunks held.
    pub open spec fn accepted(self) -> nat {
        code::filled(self.chunks)
    }

    /// Enough chunks are held to reconstruct the message.
    pub open spec fn complete(self) -> bool {
        self.accepted() >= self.preamble.num_data
    }

    /// Which shards are held.
    pub open spec fn held(self) -> Seq<bool> {
        Seq::new(self.chunks.len(), |i: int| self.chunks[i] is Some)
    }

    pub open spec fn holds(self, idx: u32) -> bool {
        idx < self.chunks.len() && self.chunks[idx as int] is Some
    }

    pub open spec fn stored(self, idx: u32, data: Seq<u8>) -> RsView {
        RsView { chunks: self.chunks.update(idx as int, Some(data)), ..self }
    }

    /// State and outcome after a chunk is delivered.
    pub open spec fn taken(self, idx: u32, data: Seq<u8>) -> (
        RsView,
        Result<TakeOutcome, crate::strategy::TakeError>,
    ) {
        if idx >= self.chunks.len() {
            (
                self,
                Err(
                    crate::strategy::TakeError::OutOfRange {
                        idx: idx as u64,
                        total: self.chunks.len() as u64,
                    },
                ),
            )
        } else if self.holds(idx) {
            (self, Ok(TakeOutcome { verdict: Verdict::Redundant, complete: self.complete() }))
        } else if verify::authentic(self.preamble, idx as int, data) {
            let after = self.stored(idx, data);
            (after, Ok(TakeOutcome { verdict: Verdict::Accepted, complete: after.complete() }))
        } else {
            (self, Ok(TakeOutcome { verdict: Verdict::Invalid, complete: false }))
        }
    }

    /// The shards held, with their indices, of the first `n` slots.
    pub open spec fn pairs(self, n: int) -> Seq<(u32, Seq<u8>)>
        decreases n,
    {
        if n <= 0 {
            Seq::empty()
        } else {
            match self.chunks[n - 1] {
                Some(d) => self.pairs(n - 1).push(((n - 1) as u32, d)),
                None => self.pairs(n - 1),
            }
        }
    }

    /// What reconstruction gives.
    pub open spec fn reconstructed(self) -> Result<Seq<u8>, DecodeError> {
        decode::decoded(self.preamble, self.pairs(self.chunks.len() as int))
    }

    /// The chunks held are shards of `payload`, whose preamble this is, and
    /// enough to reconstruct it.
    pub open spec fn bears(self, payload: Seq<u8>) -> bool {
        exists|config: RsConfig|
            {
                &&& #[trigger] encode::encodes(self.preamble, payload, config)
                &&& code::drawn_from(self.chunks, encode::shards_of(payload, config))
                &&& self.complete()
            }
    }

    /// State after the dispatch step for one peer, and the dispatch if any.
    pub open spec fn dispatched(self, peer: PeerId) -> (RsView, Option<DispatchView<u32>>) {
        if self.next_handle == u64::MAX {
            (self, None)
        } else {
            match self.planner.best(peer, Some(self.held())) {
                Some(idx) => (
                    RsView {
                        planner: self.planner.allocated(peer, Some(self.held())),
                        flights: self.flights.push(Flight { handle: self.next_handle, peer, idx }),
                        next_handle: (self.next_handle + 1) as u64,
                        ..self
                    },
                    Some(
                        DispatchView {
                            peer,
                            chunk_id: idx,
                            handle: self.next_handle,
                            payload: self.chunks[idx as int]->0,
                        },
                    ),
                ),
                None => (self, None),
            }
        }
    }

    /// State after dispatching to each of `peers` in turn, and the dispatches.
    pub open spec fn dispatched_all(self, peers: Seq<PeerId>) -> (RsView, Seq<DispatchView<u32>>)
        decreases peers.len(),
    {
        if peers.len() == 0 {
            (self, Seq::empty())
        } else {
            let (m1, ds) = self.dispatched_all(peers.drop_last());
            let (m2, d) = m1.dispatched(peers.last());
            (
                m2,
                match d {
                    Some(x) => ds.push(x),
                    None => ds,
                },
            )
        }
    }

    /// Position of the flight of `handle` to `peer`, from `i` on.
    pub open spec fn flight(self, peer: PeerId, handle: DispatchHandle, i: int) -> Option<int>
        decreases self.flights.len() - i,
    {
        if i < 0 || i >= self.flights.len() {
            None
        } else if self.flights[i].handle == handle && self.flights[i].peer == peer {
            Some(i)
        } else {
            self.flight(peer, handle, i + 1)
        }
    }

    /// State after a send outcome is reported.
    pub open spec fn reported(self, peer: PeerId, handle: DispatchHandle, ok: bool) -> RsView {
        match self.flight(peer, handle, 0) {
            Some(i) => RsView {
                flights: self.flights.remove(i),
                planner: if ok {
                    self.planner.delivered(peer, self.flights[i].idx)
                } else {
                    self.planner.cancelled(peer, self.flights[i].idx)
                },
                ..self
            },
            None => self,
        }
    }

    /// The flight is to `peer`, of a shard that is set in `bits`.
    pub open spec fn hit(f: Flight, peer: PeerId, bits: Seq<bool>) -> bool {
        f.peer == peer && f.idx < bits.len() && bits[f.idx as int]
    }

    /// State after withdrawing the flights to `peer` of shards set in `bits`
    /// among the first `n` flights, and the handles withdrawn. The flights of
    /// the result are those kept so far.
    pub open spec fn withdrawn(self, peer: PeerId, bits: Seq<bool>, n: int) -> (
        PlannerView,
        Seq<Flight>,
        Seq<DispatchHandle>,
    )
        decreases n,
    {
        if n <= 0 {
            (self.planner, Seq::empty(), Seq::empty())
        } else {
            let (p, kept, gone) = self.withdrawn(peer, bits, n - 1);
            let f = self.flights[n - 1];
            if Self::hit(f, peer, bits) {
                (p.cancelled(peer, f.idx), kept, gone.push(f.handle))
            } else {
                (p, kept.push(f), gone)
            }
        }
    }

    /// State after the flights to `peer` of shards set in `bits` are
    /// withdrawn, and their handles.
    pub open spec fn recalled(self, peer: PeerId, bits: Seq<bool>) -> (RsView, Seq<DispatchHandle>) {
        let (p, kept, gone) = self.withdrawn(peer, bits, self.flights.len() as int);
        (RsView { planner: p, flights: kept, ..self }, gone)
    }

    /// Every shard.
    pub open spec fn every(self) -> Seq<bool> {
        Seq::new(self.chunks.len(), |i: int| true)
    }

    pub open spec fn attached(self, peer: PeerId) -> RsView {
        RsView { peers: self.peers.insert(peer), ..self }
    }

    /// State after a peer left: nothing is in flight to it any more.
    pub open spec fn detached(self, peer: PeerId) -> RsView {
        RsView { peers: self.peers.remove(peer), ..self }.recalled(peer, self.every()).0
    }

    /// What the peer is believed to hold after it announced `update`.
    pub open spec fn merged(self, peer: PeerId, update: Seq<bool>) -> Seq<bool> {
        match self.planner.plan(peer).havelist {
            Some(bits) => if bits.len() == update.len() {
                bitmap::union(bits, update)
            } else {
                update
            },
            None => update,
        }
    }

    /// State after a peer's routing update, and the handles it makes
    /// redundant. An update of the wrong size is ignored.
    pub open spec fn routed(self, peer: PeerId, update: Seq<bool>) -> (RsView, Seq<DispatchHandle>) {
        if update.len() != self.chunks.len() {
            (self, Seq::empty())
        } else {
            let bits = self.merged(peer, update);
            RsView { planner: self.planner.informed(peer, bits), ..self }.recalled(peer, bits)
        }
    }

    /// The held shards are worth announcing: their number differs from the
    /// one announced last and has reached the threshold.
    pub open spec fn newsworthy(self) -> bool {
        &&& self.accepted() != self.announced
        &&& self.accepted() * 100 >= self.config.bitmap_threshold * self.chunks.len()
    }

    /// State after polling for routing, and the update returned.
    pub open spec fn polled_routing(self, force: bool) -> (RsView, Option<Seq<bool>>) {
        if !self.config.disable_bitmap && (force || self.newsworthy()) {
            (RsView { announced: self.accepted() as u32, ..self }, Some(self.held()))
        } else {
            (self, None)
        }
    }
}

impl RsStrategy {
    /// State of the strategy.
    pub closed spec fn state(&self) -> RsView {
        RsView {
            config: self.config,
            preamble: self.preamble@,
            chunks: code::slots_of(self.chunks@),
            planner: self.planner@,
            peers: self.peers@,
            flights: self.flights@,
            next_handle: self.next_handle,
            announced: self.announced,
        }
    }

    /// Construct an origin strategy: encode the payload up-front and
    /// configure the planner for unbounded allocations.
    pub fn new_origin_with_seed(payload: &[u8], config: RsConfig, seed: u64) -> (r: Result<Self, EncodeError>)
        requires
            payload@.len() > 0 ==> encode::has_shape(config),
        ensures
            match r {
                Ok(s) => {
                    &&& encode::encodes(s.state().preamble, payload@, config)
                    &&& s.state() == RsView::origin(payload@, config, seed)
                    &&& s.state().valid()
                },
                Err(e) => encode::encode_fault(payload@, config) == Some(e),
            },
    {
        let (preamble, shards) = match encode::encode(payload, &config) {
            Ok(x) => x,
            Err(e) => {
                return Err(e);
            },
        };
        let ghost word = encode::shards_of(payload@, config);
        let total: u32 = shards.len() as u32;
        let mut chunks: Vec<Option<Vec<u8>>> = Vec::new();
        let mut i: usize = 0;
        while i < shards.len()
            invariant
                i <= shards@.len(),
                pb::contents(shards@) == word,
                chunks@.len() == i,
                forall|k: int| 0 <= k < i ==> code::slot_of(#[trigger] chunks@[k]) == Some(word[k]),
            decreases shards@.len() - i,
        {
            assert(word[i as int] == shards@[i as int]@);
            chunks.push(Some(pb::copy_bytes(shards[i].as_slice())));
            i = i + 1;
        }
        let r = RsStrategy {
            config,
            preamble,
            chunks,
            planner: EmitPlanner::new(total, seed, PlannerMode::Origin),
            peers: KeySet::new(),
            flights: Vec::new(),
            next_handle: 0,
            announced: 0,
        };
        proof {
            assert(shards@.len() == word.len());
            assert(r.state().chunks =~= word.map_values(|s: Seq<u8>| Some(s)));
            assert forall|i: int| 0 <= i < preamble@.hashes.len() implies (#[trigger] preamble@.hashes[i]).len()
                == 32 by {
            }
            verify::lemma_even_hashes(preamble@.hashes, 0);
            assert(r.state() =~= RsView::origin(payload@, config, seed));
        }
        Ok(r)
    }

    /// Construct a relay strategy: validate the preamble and configure
    /// the planner with the per-shard forward-multiplier cap.
    pub fn new_relay_with_seed(preamble: Preamble, config: RsConfig, seed: u64) -> (r: Result<Self, PreambleError>)
        ensures
            match r {
                Ok(s) => {
                    &&& verify::preamble_fault(preamble@) is None
                    &&& s.state() == RsView::relay(preamble@, config, seed)
                    &&& s.state().valid()
                },
                Err(e) => verify::preamble_fault(preamble@) == Some(e),
            },
    {
        if let Err(e) = verify::validate_preamble(&preamble) {
            return Err(e);
        }
        proof {
            verify::law_valid_preamble(preamble@);
        }
        let total: u32 = preamble.num_data as u32 + preamble.num_parity as u32;
        let mut chunks: Vec<Option<Vec<u8>>> = Vec::new();
        let mut i: u32 = 0;
        while i < total
            invariant
                i <= total,
                chunks@.len() == i,
                forall|k: int| 0 <= k < i ==> #[trigger] chunks@[k] is None,
            decreases total - i,
        {
            chunks.push(None);
            i = i + 1;
        }
        let r = RsStrategy {
            config,
            preamble,
            chunks,
            planner: EmitPlanner::new(
                total,
                seed,
                PlannerMode::Relay { forward_multiplier: config.forward_multiplier },
            ),
            peers: KeySet::new(),
            flights: Vec::new(),
            next_handle: 0,
            announced: 0,
        };
        assert(r.state().chunks =~= Seq::new(total as nat, |i: int| None));
        Ok(r)
    }

    /// [`Self::new_origin_with_seed`] with a seed taken from the clock and from
    /// `pid`, the number of the process.
    pub fn new_origin(payload: &[u8], config: RsConfig, pid: u32) -> (r: Result<Self, EncodeError>)
        requires
            payload@.len() > 0 ==> encode::has_shape(config),
        ensures
            match r {
                Ok(s) => {
                    &&& encode::encodes(s.state().preamble, payload@, config)
                    &&& s.state() == RsView::origin(payload@, config, s.state().planner.seed)
                    &&& exists|n: u32|
                        n < 1_000_000_000 && s.state().planner.seed == #[trigger] mixed(n, pid)
                    &&& s.state().valid()
                },
                Err(e) => encode::encode_fault(payload@, config) == Some(e),
            },
    {
        let nanos: u32 = clock_nanos();
        Self::new_origin_with_seed(payload, config, planner_seed(nanos, pid))
    }

    /// [`Self::new_relay_with_seed`] with a seed taken from the clock and from
    /// `pid`, the number of the process.
    pub fn new_relay(preamble: Preamble, config: RsConfig, pid: u32) -> (r: Result<Self, PreambleError>)
        ensures
            match r {
                Ok(s) => {
                    &&& verify::preamble_fault(preamble@) is None
                    &&& s.state() == RsView::relay(preamble@, config, s.state().planner.seed)
                    &&& exists|n: u32|
                        n < 1_000_000_000 && s.state().planner.seed == #[trigger] mixed(n, pid)
                    &&& s.state().valid()
                },
                Err(e) => verify::preamble_fault(preamble@) == Some(e),
            },
    {
        let nanos: u32 = clock_nanos();
        Self::new_relay_with_seed(preamble, config, planner_seed(nanos, pid))
    }

    /// Total shard count.
    #[must_use]
    pub fn total_shards(&self) -> (r: u32)
        requires
            self.state().valid(),
        ensures
            r == self.state().chunks.len(),
    {
        self.chunks.len() as u32
    }

    /// Verify and store an inbound chunk.
    pub fn take_chunk(&mut self, idx: u32, data: Vec<u8>) -> (r: Result<(), TakeError>)
        requires
            old(self).state().valid(),
        ensures
            final(self).state().valid(),
            ({
                let m = old(self).state();
                if idx >= m.chunks.len() {
                    &&& r == Err::<(), TakeError>(
                        TakeError::OutOfRange { idx, total: m.chunks.len() as u32 },
                    )
                    &&& final(self).state() == m
                } else if verify::authentic(m.preamble, idx as int, data@) {
                    &&& r is Ok
                    &&& final(self).state() == m.stored(idx, data@)
                } else {
                    &&& r == Err::<(), TakeError>(TakeError::Rejected)
                    &&& final(self).state() == m
                }
            }),
    {
        let total: u32 = self.chunks.len() as u32;
        if idx >= total {
            return Err(TakeError::OutOfRange { idx, total });
        }
        match verify::verify_chunk(&self.preamble, idx, data.as_slice()) {
            verify::Verdict::Accept => {
                self.store(idx, data);
                Ok(())
            },
            verify::Verdict::Reject | verify::Verdict::Pending => Err(TakeError::Rejected),
        }
    }

    /// Puts a chunk into its slot.
    fn store(&mut self, idx: u32, data: Vec<u8>)
        requires
            old(self).state().valid(),
            idx < old(self).state().chunks.len(),
            verify::authentic(old(self).state().preamble, idx as int, data@),
        ensures
            final(self).state() == old(self).state().stored(idx, data@),
            final(self).state().valid(),
    {
        self.chunks[idx as usize] = Some(data);
        assert(self.state() =~= old(self).state().stored(idx, data@));
    }

    /// Number of chunks accepted so far.
    #[must_use]
    pub fn accepted_count(&self) -> (r: u32)
        requires
            self.state().valid(),
        ensures
            r == self.state().accepted(),
    {
        let ghost slots = self.state().chunks;
        let mut count: u32 = 0;
        let mut i: usize = 0;
        assert(slots.take(0) =~= Seq::<Option<Seq<u8>>>::empty());
        while i < self.chunks.len()
            invariant
                i <= self.chunks@.len(),
                slots == self.state().chunks,
                slots.len() <= u32::MAX,
                count <= i,
                count == code::filled(slots.take(i as int)),
            decreases self.chunks@.len() - i,
        {
            proof {
                assert(slots.take(i + 1).drop_last() =~= slots.take(i as int));
                assert(slots.take(i + 1).last() == code::slot_of(self.chunks@[i as int]));
            }
            if self.chunks[i].is_some() {
                count = count + 1;
            }
            i = i + 1;
        }
        assert(slots.take(slots.len() as int) =~= slots);
        count
    }

    /// True when the strategy holds at least `num_data` chunks.
    #[must_use]
    pub fn can_reconstruct(&self) -> (r: bool)
        requires
            self.state().valid(),
        ensures
            r == self.state().complete(),
    {
        self.accepted_count() >= self.preamble.num_data as u32
    }

    /// Reconstruct the payload from the accepted chunks.
    ///
    /// Whatever payload was encoded, as many of its shards as it has data
    /// shards give it back.
    pub fn reconstruct(&self) -> (r: Result<Vec<u8>, DecodeError>)
        requires
            self.state().valid(),
        ensures
            match r {
                Ok(v) => self.state().reconstructed() == Ok::<Seq<u8>, DecodeError>(v@),
                Err(e) => self.state().reconstructed() == Err::<Seq<u8>, DecodeError>(e),
            },
            forall|payload: Seq<u8>, config: RsConfig| #[trigger]
                encode::encodes(self.state().preamble, payload, config) && code::drawn_from(
                    self.state().chunks,
                    encode::shards_of(payload, config),
                ) && self.state().complete() ==> (r matches Ok(v) && v@ == payload),
    {
        let ghost m = self.state();
        let mut pairs: Vec<(u32, Vec<u8>)> = Vec::new();
        let mut i: usize = 0;
        assert(decode::indexed(pairs@) =~= m.pairs(0));
        while i < self.chunks.len()
            invariant
                m == self.state(),
                m.valid(),
                i <= self.chunks@.len(),
                decode::indexed(pairs@) == m.pairs(i as int),
            decreases self.chunks@.len() - i,
        {
            assert(m.chunks[i as int] == code::slot_of(self.chunks@[i as int]));
            if let Some(d) = &self.chunks[i] {
                let ghost before = pairs@;
                pairs.push((i as u32, pb::copy_bytes(d.as_slice())));
                assert(decode::indexed(pairs@) =~= decode::indexed(before).push((i as u32, d@)));
            }
            i = i + 1;
        }
        proof {
            let n = m.chunks.len() as int;
            assert forall|payload: Seq<u8>, config: RsConfig| #[trigger]
                encode::encodes(m.preamble, payload, config) && code::drawn_from(
                    m.chunks,
                    encode::shards_of(payload, config),
                ) && m.complete() implies decode::enough_of(m.pairs(n), payload, config) by {
                lemma_pairs(m, n);
                assert(m.chunks.take(n) =~= m.chunks);
            }
        }
        decode::decode(&self.preamble, pairs.as_slice())
    }

    /// Access the preamble (for transmission to peers).
    #[must_use]
    pub fn preamble(&self) -> (r: &Preamble)
        ensures
            r@ == self.state().preamble,
    {
        &self.preamble
    }

    /// The accepted chunk at `idx`, if there is one.
    pub fn chunk(&self, idx: u32) -> (r: Option<&Vec<u8>>)
        ensures
            match r {
                Some(d) => self.state().holds(idx) && self.state().chunks[idx as int] == Some(d@),
                None => !self.state().holds(idx),
            },
    {
        if (idx as usize) < self.chunks.len() {
            assert(self.state().chunks[idx as int] == code::slot_of(self.chunks@[idx as int]));
            self.chunks[idx as usize].as_ref()
        } else {
            None
        }
    }

    /// Mutable access to the planner.
    pub fn planner_mut(&mut self) -> (r: &mut EmitPlanner)
        ensures
            r@ == old(self).state().planner,
            final(self).state() == (RsView { planner: final(r)@, ..old(self).state() }),
    {
        &mut self.planner
    }

    /// Access the configuration.
    #[must_use]
    pub fn config(&self) -> (r: &RsConfig)
        ensures
            *r == self.state().config,
    {
        &self.config
    }

    /// Which shards are held.
    fn havelist(&self) -> (r: BitMap)
        requires
            self.state().valid(),
        ensures
            r@ == self.state().held(),
    {
        let ghost m = self.state();
        let total: u32 = self.chunks.len() as u32;
        let mut bits = BitMap::with_capacity(total);
        let mut i: u32 = 0;
        while i < total
            invariant
                i <= total,
                total == m.chunks.len(),
                m == self.state(),
                bits@.len() == total,
                forall|k: int| 0 <= k < i ==> bits@[k] == m.held()[k],
                forall|k: int| i <= k < total ==> !bits@[k],
            decreases total - i,
        {
            assert(m.chunks[i as int] == code::slot_of(self.chunks@[i as int]));
            if self.chunks[i as usize].is_some() {
                let _ = bits.set(i);
            }
            i = i + 1;
        }
        assert(bits@ =~= m.held());
        bits
    }

    /// Dispatches the next shard to `peer`, if there is one.
    fn dispatch_one(&mut self, peer: PeerId) -> (r: Option<ChunkDispatch<u32>>)
        requires
            old(self).state().valid(),
        ensures
            final(self).state().valid(),
            final(self).state() == old(self).state().dispatched(peer).0,
            match r {
                Some(d) => old(self).state().dispatched(peer).1 == Some(d@),
                None => old(self).state().dispatched(peer).1 is None,
            },
    {
        if self.next_handle == u64::MAX {
            return None;
        }
        let ghost m = self.state();
        let held = self.havelist();
        proof {
            planner::law_best_is_least_allocated(m.planner, peer, Some(held@));
        }
        match self.planner.allocate_held(peer, &held) {
            Some(idx) => {
                assert(m.chunks[idx as int] == code::slot_of(self.chunks@[idx as int]));
                let payload: Vec<u8> = match &self.chunks[idx as usize] {
                    Some(d) => pb::copy_bytes(d.as_slice()),
                    None => Vec::new(),
                };
                let handle: u64 = self.next_handle;
                self.flights.push(Flight { handle, peer, idx });
                self.next_handle = handle + 1;
                Some(ChunkDispatch { peer, chunk_id: idx, handle, payload })
            },
            None => None,
        }
    }

    /// Withdraws the flights to `peer` of the shards set in `bits`, or of all
    /// shards, and returns their handles.
    fn recall(&mut self, peer: PeerId, bits: Option<&BitMap>) -> (r: Vec<DispatchHandle>)
        requires
            old(self).state().valid(),
        ensures
            final(self).state().valid(),
            ({
                let set = match bits {
                    Some(b) => b@,
                    None => old(self).state().every(),
                };
                (final(self).state(), r@) == old(self).state().recalled(peer, set)
            }),
    {
        let ghost m = self.state();
        let ghost set = match bits {
            Some(b) => b@,
            None => m.every(),
        };
        let mut kept: Vec<Flight> = Vec::new();
        let mut gone: Vec<DispatchHandle> = Vec::new();
        let mut i: usize = 0;
        while i < self.flights.len()
            invariant
                m.valid(),
                set == (match bits {
                    Some(b) => b@,
                    None => m.every(),
                }),
                i <= m.flights.len(),
                self.flights@ == m.flights,
                self.state() == (RsView { planner: self.planner@, ..m }),
                (self.planner@, kept@, gone@) == m.withdrawn(peer, set, i as int),
            decreases m.flights.len() - i,
        {
            let f: Flight = self.flights[i];
            let hit: bool = f.peer == peer && (match bits {
                Some(b) => b.get(f.idx),
                None => true,
            });
            assert(hit == RsView::hit(f, peer, set));
            if hit {
                self.planner.cancel_in_flight(peer, f.idx);
                gone.push(f.handle);
            } else {
                kept.push(f);
            }
            i = i + 1;
        }
        self.flights = kept;
        proof {
            lemma_withdrawn(m, peer, set, m.flights.len() as int);
            let (p, k, g) = m.withdrawn(peer, set, m.flights.len() as int);
            assert(self.state() =~= RsView { planner: p, flights: k, ..m });
        }
        gone
    }
}

/// The pairs of the first `n` slots are those slots' shards at distinct
/// indices, as many as there are filled slots.
proof fn lemma_pairs(m: RsView, n: int)
    requires
        0 <= n <= m.chunks.len(),
        m.chunks.len() <= u32::MAX,
    ensures
        m.pairs(n).len() == code::filled(m.chunks.take(n)),
        forall|i: int|
            0 <= i < m.pairs(n).len() ==> (#[trigger] m.pairs(n)[i]).0 < n && m.chunks[m.pairs(n)[i].0 as int]
                == Some(m.pairs(n)[i].1),
        forall|i: int, j: int|
            0 <= i < j < m.pairs(n).len() ==> (#[trigger] m.pairs(n)[i]).0 != (#[trigger] m.pairs(n)[j]).0,
    decreases n,
{
    if n > 0 {
        lemma_pairs(m, n - 1);
        assert(m.chunks.take(n).drop_last() =~= m.chunks.take(n - 1));
        assert(m.chunks.take(n).last() == m.chunks[n - 1]);
    } else {
        assert(m.chunks.take(0) =~= Seq::<Option<Seq<u8>>>::empty());
    }
}

/// Withdrawing keeps flights of the state, at distinct handles, and the
/// planner's shard count.
proof fn lemma_withdrawn(m: RsView, peer: PeerId, bits: Seq<bool>, n: int)
    requires
        0 <= n <= m.flights.len(),
        m.valid(),
    ensures
        ({
            let (p, kept, gone) = m.withdrawn(peer, bits, n);
            &&& p.allocation == m.planner.allocation
            &&& forall|i: int|
                0 <= i < kept.len() ==> exists|a: int| 0 <= a < n && #[trigger] m.flights[a] == #[trigger] kept[i]
            &&& forall|i: int|
                0 <= i < kept.len() ==> (#[trigger] kept[i]).handle < m.next_handle && kept[i].idx
                    < m.chunks.len()
            &&& forall|i: int, j: int|
                0 <= i < j < kept.len() ==> (#[trigger] kept[i]).handle != (#[trigger] kept[j]).handle
        }),
    decreases n,
{
    if n > 0 {
        lemma_withdrawn(m, peer, bits, n - 1);
        let (p, was, g) = m.withdrawn(peer, bits, n - 1);
        let (q, kept, gone) = m.withdrawn(peer, bits, n);
        let f = m.flights[n - 1];
        assert forall|i: int| 0 <= i < kept.len() implies exists|a: int|
            0 <= a < n && #[trigger] m.flights[a] == #[trigger] kept[i] by {
            if i < was.len() {
                let a = choose|a: int| 0 <= a < n - 1 && #[trigger] m.flights[a] == was[i];
                assert(m.flights[a] == kept[i]);
            } else {
                assert(m.flights[n - 1] == kept[i]);
            }
        }
        assert forall|i: int, j: int| 0 <= i < j < kept.len() implies (#[trigger] kept[i]).handle != (
        #[trigger] kept[j]).handle by {
            if j == was.len() {
                let a = choose|a: int| 0 <= a < n - 1 && #[trigger] m.flights[a] == was[i];
                assert(m.flights[a].handle != m.flights[n - 1].handle);
            }
        }
    }
}

impl Strategy for RsStrategy {
    type ChunkId = u32;

    type RoutingUpdate = BitMap;

    type DecodeError = DecodeError;

    type Model = RsView;

    type Holding = (PreambleView, Seq<Option<Seq<u8>>>);

    open spec fn model(&self) -> RsView {
        self.state()
    }

    open spec fn valid(m: RsView) -> bool {
        m.valid()
    }

    open spec fn holds(m: RsView, idx: u32) -> bool {
        m.holds(idx)
    }

    open spec fn verdict(m: RsView, idx: u32, data: Seq<u8>) -> Verdict {
        if verify::authentic(m.preamble, idx as int, data) {
            Verdict::Accepted
        } else {
            Verdict::Invalid
        }
    }

    open spec fn taken(m: RsView, idx: u32, data: Seq<u8>) -> (
        RsView,
        Result<TakeOutcome, crate::strategy::TakeError>,
    ) {
        m.taken(idx, data)
    }

    open spec fn attached(m: RsView, peer: PeerId) -> RsView {
        m.attached(peer)
    }

    open spec fn detached(m: RsView, peer: PeerId, completed: bool) -> RsView {
        m.detached(peer)
    }

    open spec fn routed(m: RsView, peer: PeerId, update: Seq<bool>) -> (RsView, Seq<DispatchHandle>) {
        m.routed(peer, update)
    }

    open spec fn polled(m: RsView) -> (RsView, Seq<DispatchView<u32>>) {
        m.dispatched_all(order::ascending(m.peers))
    }

    open spec fn announced(m: RsView, force: bool) -> (RsView, Option<Seq<bool>>) {
        m.polled_routing(force)
    }

    open spec fn reported(m: RsView, peer: PeerId, handle: DispatchHandle, ok: bool) -> RsView {
        m.reported(peer, handle, ok)
    }

    open spec fn counts(m: RsView) -> (u32, u32) {
        (m.accepted() as u32, m.preamble.num_data as u32)
    }

    open spec fn message(m: RsView) -> Option<Seq<u8>> {
        match m.reconstructed() {
            Ok(v) => Some(v),
            Err(_) => None,
        }
    }

    open spec fn backlog(m: RsView) -> nat {
        ((u64::MAX - m.next_handle) + (if m.accepted() == m.announced {
            0int
        } else {
            1int
        })) as nat
    }

    open spec fn bears(m: RsView, payload: Seq<u8>) -> bool {
        m.bears(payload)
    }

    open spec fn holding(m: RsView) -> (PreambleView, Seq<Option<Seq<u8>>>) {
        (m.preamble, m.chunks)
    }

    proof fn planning_keeps(
        m: RsView,
        payload: Seq<u8>,
        peer: PeerId,
        handle: DispatchHandle,
        ok: bool,
    ) {
        let config = choose|config: RsConfig|
            {
                &&& #[trigger] encode::encodes(m.preamble, payload, config)
                &&& code::drawn_from(m.chunks, encode::shards_of(payload, config))
                &&& m.complete()
            };
        lemma_dispatching_keeps(m, order::ascending(m.peers));
        assert(encode::encodes(m.polled_routing(false).0.preamble, payload, config));
        assert(encode::encodes(Self::polled(m).0.preamble, payload, config));
        assert(encode::encodes(m.reported(peer, handle, ok).preamble, payload, config));
    }

    proof fn planning_keeps_holding(m: RsView, peer: PeerId, handle: DispatchHandle, ok: bool) {
        lemma_dispatching_keeps(m, order::ascending(m.peers));
    }

    proof fn polling_ends(m: RsView) {
        let (m1, routing) = m.polled_routing(false);
        code::lemma_filled_at_most(m.chunks);
        lemma_dispatched_all(m1, order::ascending(m1.peers));
    }

    fn have_chunk(&self, idx: &u32) -> (r: bool) {
        self.chunk(*idx).is_some()
    }

    fn verify_chunk(&self, idx: &u32, data: &[u8]) -> (r: Verdict) {
        match verify::verify_chunk(&self.preamble, *idx, data) {
            verify::Verdict::Accept => Verdict::Accepted,
            verify::Verdict::Reject | verify::Verdict::Pending => Verdict::Invalid,
        }
    }

    fn take_chunk(&mut self, idx: u32, data: Vec<u8>) -> (r: Result<TakeOutcome, crate::strategy::TakeError>) {
        let total: u32 = self.total_shards();
        if idx >= total {
            return Err(
                crate::strategy::TakeError::OutOfRange { idx: idx as u64, total: total as u64 },
            );
        }
        if self.chunk(idx).is_some() {
            return Ok(TakeOutcome { verdict: Verdict::Redundant, complete: self.can_reconstruct() });
        }
        match verify::verify_chunk(&self.preamble, idx, data.as_slice()) {
            verify::Verdict::Accept => {
                self.store(idx, data);
                Ok(TakeOutcome { verdict: Verdict::Accepted, complete: self.can_reconstruct() })
            },
            verify::Verdict::Reject | verify::Verdict::Pending => {
                Ok(TakeOutcome { verdict: Verdict::Invalid, complete: false })
            },
        }
    }

    fn attach_peer(&mut self, peer: PeerId) {
        self.peers.insert(peer);
        assert(self.state() =~= old(self).state().attached(peer));
    }

    fn detach_peer(&mut self, peer: PeerId, completed: bool) {
        let ghost m = self.state();
        self.peers.remove(&peer);
        assert(self.state() =~= RsView { peers: m.peers.remove(peer), ..m });
        let _ = self.recall(peer, None);
    }

    fn routing_update(&mut self, peer: PeerId, update: BitMap) -> (r: Vec<DispatchHandle>) {
        if update.n() != self.total_shards() {
            return Vec::new();
        }
        let mut bits = update;
        if let Some(known) = self.planner.peer_havelist(peer) {
            if known.n() == bits.n() {
                let mut both = known;
                let _ = both.or_merge(&bits);
                bits = both;
            }
        }
        let ghost m = self.state();
        assert(bits@ == m.merged(peer, update@));
        self.planner.set_peer_havelist(peer, bits.clone());
        assert(self.state() =~= RsView { planner: m.planner.informed(peer, bits@), ..m });
        self.recall(peer, Some(&bits))
    }

    fn poll_chunks(&mut self) -> (r: Vec<ChunkDispatch<u32>>) {
        let ghost m = self.state();
        let peers: Vec<u64> = order::ascending_items(&self.peers);
        let mut out: Vec<ChunkDispatch<u32>> = Vec::new();
        let mut i: usize = 0;
        assert(peers@.take(0) =~= Seq::<u64>::empty());
        assert(dispatch::dispatches(out@) =~= Seq::<DispatchView<u32>>::empty());
        while i < peers.len()
            invariant
                i <= peers@.len(),
                self.state().valid(),
                (self.state(), dispatch::dispatches(out@)) == m.dispatched_all(peers@.take(i as int)),
            decreases peers@.len() - i,
        {
            proof {
                assert(peers@.take(i + 1).drop_last() =~= peers@.take(i as int));
                assert(peers@.take(i + 1).last() == peers@[i as int]);
            }
            let ghost before = out@;
            if let Some(d) = self.dispatch_one(peers[i]) {
                out.push(d);
                assert(dispatch::dispatches(out@) =~= dispatch::dispatches(before).push(d@));
            }
            i = i + 1;
        }
        assert(peers@.take(peers@.len() as int) =~= peers@);
        out
    }

    fn poll_routing(&mut self, force: bool) -> (r: Option<BitMap>) {
        if self.config.disable_bitmap {
            return None;
        }
        let count: u32 = self.accepted_count();
        let total: u32 = self.total_shards();
        let threshold: u64 = self.config.bitmap_threshold as u64;
        assert(threshold * (total as u64) <= 255 * 0xffff_ffff) by (nonlinear_arith)
            requires
                threshold <= 255,
        ;
        let reached: bool = count as u64 * 100 >= threshold * total as u64;
        if force || (count != self.announced && reached) {
            let bits = self.havelist();
            self.announced = count;
            Some(bits)
        } else {
            None
        }
    }

    fn chunk_sent(&mut self, peer: PeerId, handle: DispatchHandle, ok: bool) {
        let ghost m = self.state();
        let mut i: usize = 0;
        while i < self.flights.len()
            invariant
                self.state() == m,
                m == old(self).model(),
                m.valid(),
                i <= m.flights.len(),
                m.flight(peer, handle, 0) == m.flight(peer, handle, i as int),
            decreases m.flights.len() - i,
        {
            let f: Flight = self.flights[i];
            if f.handle == handle && f.peer == peer {
                let _ = self.flights.remove(i);
                if ok {
                    self.planner.record_sent(peer, f.idx);
                } else {
                    self.planner.cancel_in_flight(peer, f.idx);
                }
                assert(self.state() =~= m.reported(peer, handle, ok));
                return;
            }
            i = i + 1;
        }
    }

    fn progress(&self) -> (r: (u32, u32)) {
        (self.accepted_count(), self.preamble.num_data as u32)
    }

    fn decode(&self) -> (r: Result<Vec<u8>, DecodeError>) {
        let r = self.reconstruct();
        assert forall|payload: Seq<u8>| #[trigger] Self::bears(self.model(), payload) implies Self::message(
            self.model(),
        ) == Some(payload) by {
            let m = self.state();
            let config = choose|config: RsConfig|
                {
                    &&& #[trigger] encode::encodes(m.preamble, payload, config)
                    &&& code::drawn_from(m.chunks, encode::shards_of(payload, config))
                    &&& m.complete()
                };
            assert(encode::encodes(m.preamble, payload, config));
        }
        r
    }
}

/// Dispatching does not change what is held.
proof fn lemma_dispatching_keeps(m: RsView, peers: Seq<PeerId>)
    ensures
        m.dispatched_all(peers).0.preamble == m.preamble,
        m.dispatched_all(peers).0.chunks == m.chunks,
    decreases peers.len(),
{
    if peers.len() > 0 {
        lemma_dispatching_keeps(m, peers.drop_last());
    }
}

/// Dispatching leaves the chunks and the last announcement as they are and
/// uses one handle per dispatch.
pub(crate) proof fn lemma_dispatched_all(m: RsView, peers: Seq<PeerId>)
    ensures
        ({
            let (after, ds) = m.dispatched_all(peers);
            &&& after.chunks == m.chunks
            &&& after.announced == m.announced
            &&& after.next_handle == m.next_handle + ds.len()
        }),
    decreases peers.len(),
{
    if peers.len() > 0 {
        lemma_dispatched_all(m, peers.drop_last());
    }
}

/// Nanoseconds in the upper half, a process number in the lower half.
pub open spec fn mixed(nanos: u32, pid: u32) -> int {
    nanos * 0x1_0000_0000 + pid
}

/// Seed of a planner: the nanoseconds in the upper half, a process number in
/// the lower half.
pub fn planner_seed(nanos: u32, pid: u32) -> (r: u64)
    ensures
        r == mixed(nanos, pid),
{
    proof {
        assert(((nanos as u64) << 32) | (pid as u64) == (nanos as u64) * 0x1_0000_0000u64 + (pid as u64))
            by (bit_vector);
    }
    ((nanos as u64) << 32) | (pid as u64)
}

/// Calls `SystemTime::elapsed` on the epoch: the nanoseconds within the
/// current second, below one billion, or 0 when the clock is before the epoch.
#[verifier::external_body]
pub(crate) fn clock_nanos() -> (r: u32)
    ensures
        r < 1_000_000_000,
{
    std::time::UNIX_EPOCH.elapsed().map_or(0, |d| d.subsec_nanos())
}

} // verus!
