//! Properties of the Reed-Solomon strategy as a whole.

use vstd::prelude::*;

use crate::hash;
use crate::order;
use crate::pb::rs::PreambleView;
use crate::strategy::config::RsConfig;
use crate::strategy::rs::code;
use crate::strategy::rs::decode;
use crate::strategy::rs::code::RsError;
use crate::strategy::rs::encode;
use crate::strategy::rs::encode::EncodeError;
use crate::strategy::rs::planner;
use crate::strategy::rs::state::{Flight, RsStrategy, RsView};
use crate::strategy::rs::verify;
use crate::strategy::rs::HASH_LEN;
use crate::strategy::{DispatchHandle, PeerId, Strategy, Verdict};

verus! {

/// Delivering a chunk never loses one. The count grows by one exactly when
/// the verdict is `Accepted`; any other verdict leaves the state unchanged.
pub proof fn law_chunks_only_grow(m: RsView, idx: u32, data: Seq<u8>)
    requires
        m.valid(),
    ensures
        ({
            let (after, r) = m.taken(idx, data);
            &&& forall|i: int|
                0 <= i < m.chunks.len() && #[trigger] m.chunks[i] is Some ==> after.chunks[i] == m.chunks[i]
            &&& if r is Ok && r->Ok_0.verdict == Verdict::Accepted {
                after.accepted() == m.accepted() + 1 && after.holds(idx) && !m.holds(idx)
            } else {
                after == m
            }
        }),
{
    if idx < m.chunks.len() && !m.holds(idx) {
        code::lemma_filled_update(m.chunks, idx as int, data);
    }
}

/// With a fixed shard length, a payload is cut into as few shards of that
/// length as hold it, and gets as many parity shards. It can be encoded as
/// long as there are at most 256 shards in all and its length is a signed
/// 32-bit number.
pub proof fn law_fixed_length_decides_shape(payload: Seq<u8>, config: RsConfig, k: int)
    requires
        payload.len() > 0,
        config.chunk_len > 0,
        (k - 1) * config.chunk_len < payload.len() <= k * config.chunk_len,
    ensures
        encode::encode_fault(payload, config) is None <==> 2 * k <= 256 && payload.len() <= i32::MAX,
        2 * k > 256 ==> encode::encode_fault(payload, config) == Some(
            EncodeError::Rs(RsError::TooManyShards),
        ),
        forall|p: PreambleView| #[trigger]
            encode::encodes(p, payload, config) ==> {
                &&& p.num_data == k
                &&& p.num_parity == k
                &&& p.length == payload.len()
                &&& encode::shards_of(payload, config).len() == 2 * k
                &&& code::uniform(encode::shards_of(payload, config), config.chunk_len as int)
            },
{
    let n = payload.len() as int;
    let c = config.chunk_len as int;
    assert(k > 0) by (nonlinear_arith)
        requires
            0 < n <= k * c,
            c > 0,
    ;
    assert(encode::data_count(n, config) == k) by {
        assert((n + c - 1) / c == k) by (nonlinear_arith)
            requires
                c > 0,
                (k - 1) * c < n <= k * c,
        ;
    }
}

/// With a fixed number of shards, a payload is cut into that many data shards,
/// as short as they can be to hold it, and gets the configured parity shards.
/// It can be encoded as long as there is a parity shard, there are at most 256
/// shards in all, and its length is a signed 32-bit number.
pub proof fn law_fixed_count_decides_shape(payload: Seq<u8>, config: RsConfig, len: int)
    requires
        payload.len() > 0,
        config.chunk_len == 0,
        config.data_shards > 0,
        (len - 1) * config.data_shards < payload.len() <= len * config.data_shards,
    ensures
        encode::encode_fault(payload, config) is None <==> config.parity_shards > 0
            && config.data_shards + config.parity_shards <= 256 && payload.len() <= i32::MAX,
        config.parity_shards == 0 ==> encode::encode_fault(payload, config) == Some(
            EncodeError::Rs(RsError::TooFewParityShards),
        ),
        config.parity_shards > 0 && config.data_shards + config.parity_shards > 256
            ==> encode::encode_fault(payload, config) == Some(
            EncodeError::Rs(RsError::TooManyShards),
        ),
        forall|p: PreambleView| #[trigger]
            encode::encodes(p, payload, config) ==> {
                &&& p.num_data == config.data_shards
                &&& p.num_parity == config.parity_shards
                &&& p.length == payload.len()
                &&& encode::shards_of(payload, config).len() == config.data_shards + config.parity_shards
                &&& code::uniform(encode::shards_of(payload, config), len)
            },
{
    let n = payload.len() as int;
    let d = config.data_shards as int;
    assert(encode::shard_len(n, config) == len) by {
        assert((n + d - 1) / d == len) by (nonlinear_arith)
            requires
                d > 0,
                (len - 1) * d < n <= len * d,
        ;
    }
}

/// Nothing can be encoded of an empty payload, and a payload of too many bytes
/// is refused for its length, where its shape is in order.
pub proof fn law_payload_length_is_bounded(payload: Seq<u8>, config: RsConfig)
    requires
        encode::has_shape(config),
    ensures
        encode::encode_fault(payload, config) == Some(EncodeError::EmptyPayload) <==> payload.len() == 0,
        encode::encode_fault(payload, config) == Some(EncodeError::ShardCountOverflow) ==> payload.len()
            > i32::MAX,
{
}

/// The data shards hold the payload as it is: byte `x` is byte `x % len` of
/// shard `x / len`, where `len` is the length of the shards, and zeros follow
/// the payload. Each shard, and the payload, has its digest in the preamble.
pub proof fn law_data_shards_hold_payload(p: PreambleView, payload: Seq<u8>, config: RsConfig, len: int)
    requires
        encode::encodes(p, payload, config),
        code::uniform(encode::shards_of(payload, config), len),
    ensures
        ({
            let shards = encode::shards_of(payload, config);
            &&& len > 0
            &&& p.num_data * len >= payload.len()
            &&& forall|i: int, j: int|
                0 <= i < p.num_data && 0 <= j < len ==> #[trigger] shards[i][j] == (if i * len + j
                    < payload.len() {
                    payload[i * len + j]
                } else {
                    0
                })
            &&& p.hashes.len() == shards.len()
            &&& forall|i: int| 0 <= i < shards.len() ==> #[trigger] p.hashes[i] == hash::sha256(shards[i])
            &&& p.hash == hash::sha256(payload)
            &&& p.length == payload.len()
        }),
{
    let n = payload.len() as int;
    let shards = encode::shards_of(payload, config);
    let d = encode::data_count(n, config);
    let l = encode::shard_len(n, config);
    assert(d > 0 && l > 0 && d * l >= n) by {
        if config.chunk_len > 0 {
            let c = config.chunk_len as int;
            assert((n + c - 1) / c > 0 && ((n + c - 1) / c) * c >= n) by (nonlinear_arith)
                requires
                    c > 0,
                    n > 0,
            ;
        } else {
            let c = config.data_shards as int;
            assert((n + c - 1) / c > 0 && c * ((n + c - 1) / c) >= n) by (nonlinear_arith)
                requires
                    c > 0,
                    n > 0,
            ;
        }
    }
    assert(shards[0].len() == len);
    assert(l == len);
    assert forall|i: int, j: int| 0 <= i < p.num_data && 0 <= j < len implies #[trigger] shards[i][j] == (
    if i * len + j < payload.len() {
        payload[i * len + j]
    } else {
        0
    }) by {
        assert(shards[i] == encode::data_shard(payload, len, i));
    }
}

/// A strategy after the shards of `word` at the given places came in turn.
pub open spec fn fed(m: RsView, word: Seq<Seq<u8>>, order: Seq<u32>) -> RsView
    decreases order.len(),
{
    if order.len() == 0 {
        m
    } else {
        fed(m, word, order.drop_last()).taken(order.last(), word[order.last() as int]).0
    }
}

proof fn lemma_fed(
    p: PreambleView,
    payload: Seq<u8>,
    config: RsConfig,
    own: RsConfig,
    seed: u64,
    order: Seq<u32>,
)
    requires
        encode::encodes(p, payload, config),
        order.no_duplicates(),
        forall|i: int| 0 <= i < order.len() ==> #[trigger] order[i] < p.num_data + p.num_parity,
    ensures
        ({
            let word = encode::shards_of(payload, config);
            let m = fed(RsView::relay(p, own, seed), word, order);
            &&& m.preamble == p
            &&& code::drawn_from(m.chunks, word)
            &&& m.accepted() == order.len()
            &&& forall|i: u32| m.holds(i) <==> order.contains(i)
        }),
    decreases order.len(),
{
    let word = encode::shards_of(payload, config);
    let empty = RsView::relay(p, own, seed);
    if order.len() == 0 {
        code::lemma_none_filled(empty.chunks);
    } else {
        let head = order.drop_last();
        let last = order.last();
        lemma_fed(p, payload, config, own, seed, head);
        let m = fed(empty, word, head);
        assert(order[order.len() - 1] == last);
        assert(!head.contains(last)) by {
            if head.contains(last) {
                let i = choose|i: int| 0 <= i < head.len() && head[i] == last;
                assert(order[i] == order[order.len() - 1]);
            }
        }
        assert(verify::authentic(p, last as int, word[last as int])) by {
            assert(p.hashes[last as int].len() == HASH_LEN);
        }
        code::lemma_filled_update(m.chunks, last as int, word[last as int]);
        let after = fed(empty, word, order);
        assert forall|i: u32| after.holds(i) <==> order.contains(i) by {
            assert(m.holds(i) <==> head.contains(i));
            if head.contains(i) {
                let k = choose|k: int| 0 <= k < head.len() && head[k] == i;
                assert(order[k] == i);
            }
            if order.contains(i) && i != last {
                let k = choose|k: int| 0 <= k < order.len() && order[k] == i;
                assert(head[k] == i);
            }
        }
    }
}

/// Any shards of a message, as many as it has data shards, are enough for a
/// relay: whichever they are and in whatever order they come, it then bears
/// the payload, which is what decoding such a state returns.
pub proof fn law_any_shards_reconstruct(
    p: PreambleView,
    payload: Seq<u8>,
    config: RsConfig,
    own: RsConfig,
    seed: u64,
    order: Seq<u32>,
)
    requires
        encode::encodes(p, payload, config),
        order.no_duplicates(),
        forall|i: int| 0 <= i < order.len() ==> #[trigger] order[i] < p.num_data + p.num_parity,
        order.len() >= p.num_data,
    ensures
        fed(RsView::relay(p, own, seed), encode::shards_of(payload, config), order).bears(payload),
{
    lemma_fed(p, payload, config, own, seed, order);
}

/// What is decoded is what was announced: whatever the shards are, a message
/// comes out of them only with the length and the digest of the preamble.
pub proof fn law_decoded_is_announced(p: PreambleView, shards: Seq<(u32, Seq<u8>)>)
    ensures
        decode::decoded(p, shards) matches Ok(m) ==> m.len() == p.length && hash::sha256(m) == p.hash,
{
}

/// A chunk whose digest is not the announced one is refused and changes
/// nothing.
pub proof fn law_tampered_chunk_refused(m: RsView, idx: u32, data: Seq<u8>)
    requires
        m.valid(),
        idx < m.chunks.len(),
        !m.holds(idx),
        !verify::authentic(m.preamble, idx as int, data),
    ensures
        m.taken(idx, data).0 == m,
        m.taken(idx, data).1 is Ok,
        m.taken(idx, data).1->Ok_0.verdict == Verdict::Invalid,
        !m.taken(idx, data).1->Ok_0.complete,
{
}

/// Dispatches go to the peers asked for, at most one each and in their order,
/// carry shards that are held, and bear fresh consecutive handles.
pub proof fn law_dispatches_are_sound(m: RsView, peers: Seq<PeerId>)
    requires
        m.valid(),
    ensures
        ({
            let (after, ds) = m.dispatched_all(peers);
            &&& ds.len() <= peers.len()
            &&& after.chunks == m.chunks
            &&& after.planner.allocation.len() == m.planner.allocation.len()
            &&& after.next_handle == m.next_handle + ds.len()
            &&& forall|k: int|
                0 <= k < ds.len() ==> {
                    let d = #[trigger] ds[k];
                    &&& peers.contains(d.peer)
                    &&& m.holds(d.chunk_id)
                    &&& m.chunks[d.chunk_id as int] == Some(d.payload)
                    &&& d.handle == m.next_handle + k
                }
        }),
    decreases peers.len(),
{
    if peers.len() > 0 {
        let head = peers.drop_last();
        law_dispatches_are_sound(m, head);
        let (m1, ds) = m.dispatched_all(head);
        planner::law_best_is_least_allocated(m1.planner, peers.last(), Some(m1.held()));
        lemma_dispatched_to(m, peers);
    }
}

pub(crate) proof fn lemma_flight(m: RsView, peer: PeerId, handle: DispatchHandle, from: int)
    requires
        0 <= from,
    ensures
        match m.flight(peer, handle, from) {
            Some(i) => from <= i < m.flights.len() && m.flights[i].handle == handle && m.flights[i].peer == peer,
            None => forall|i: int|
                from <= i < m.flights.len() ==> !((#[trigger] m.flights[i]).handle == handle && m.flights[i].peer
                    == peer),
        },
    decreases m.flights.len() - from,
{
    if from < m.flights.len() {
        lemma_flight(m, peer, handle, from + 1);
    }
}

/// A dispatch is resolved once: reporting its outcome again changes nothing.
pub proof fn law_outcome_counts_once(m: RsView, peer: PeerId, handle: DispatchHandle, ok: bool, again: bool)
    requires
        m.valid(),
    ensures
        m.reported(peer, handle, ok).reported(peer, handle, again) == m.reported(peer, handle, ok),
{
    lemma_flight(m, peer, handle, 0);
    let after = m.reported(peer, handle, ok);
    lemma_flight(after, peer, handle, 0);
    if m.flight(peer, handle, 0) is Some && after.flight(peer, handle, 0) is Some {
        let i = m.flight(peer, handle, 0)->0;
        let j = after.flight(peer, handle, 0)->0;
        let k = if j < i {
            j
        } else {
            j + 1
        };
        assert(after.flights[j] == m.flights[k]);
        assert(m.flights[i].handle == m.flights[k].handle);
        assert(false);
    }
}

/// A failed send returns the shard to the pool: it is no longer in flight to
/// the peer, and its allocation count stands.
pub proof fn law_failed_send_reopens(m: RsView, peer: PeerId, handle: DispatchHandle)
    requires
        m.valid(),
        m.flight(peer, handle, 0) is Some,
    ensures
        ({
            let idx = m.flights[m.flight(peer, handle, 0)->0].idx;
            let after = m.reported(peer, handle, false);
            &&& !after.planner.plan(peer).in_flight.contains(idx)
            &&& after.planner.allocation == m.planner.allocation
            &&& after.planner.plan(peer).havelist == m.planner.plan(peer).havelist
        }),
{
}

/// The flights kept by a withdrawal are those it does not hit.
proof fn lemma_kept(m: RsView, peer: PeerId, bits: Seq<bool>, n: int)
    requires
        0 <= n <= m.flights.len(),
    ensures
        ({
            let (p, kept, gone) = m.withdrawn(peer, bits, n);
            &&& kept == m.flights.take(n).filter(|f: Flight| !RsView::hit(f, peer, bits))
            &&& gone == m.flights.take(n).filter(|f: Flight| RsView::hit(f, peer, bits)).map_values(
                |f: Flight| f.handle,
            )
            &&& forall|q: PeerId| q != peer ==> #[trigger] p.plan(q) == m.planner.plan(q)
            &&& forall|i: int|
                0 <= i < n && RsView::hit(#[trigger] m.flights[i], peer, bits) ==> !p.plan(peer).in_flight.contains(
                    m.flights[i].idx,
                )
            &&& p.plan(peer).in_flight.subset_of(m.planner.plan(peer).in_flight)
            &&& p.plan(peer).havelist == m.planner.plan(peer).havelist
        }),
    decreases n,
{
    reveal(Seq::filter);
    let keep = |f: Flight| !RsView::hit(f, peer, bits);
    let drop = |f: Flight| RsView::hit(f, peer, bits);
    if n > 0 {
        lemma_kept(m, peer, bits, n - 1);
        let was = m.flights.take(n - 1);
        let now = m.flights.take(n);
        let f = m.flights[n - 1];
        assert(now.drop_last() =~= was);
        assert(now.last() == f);
        let (p, kept, gone) = m.withdrawn(peer, bits, n - 1);
        let (q, k2, g2) = m.withdrawn(peer, bits, n);
        if RsView::hit(f, peer, bits) {
            assert(now.filter(drop) =~= was.filter(drop).push(f));
            assert(now.filter(drop).map_values(|f: Flight| f.handle) =~= gone.push(f.handle));
            assert(now.filter(keep) =~= was.filter(keep));
        } else {
            assert(now.filter(drop) =~= was.filter(drop));
            assert(now.filter(keep) =~= was.filter(keep).push(f));
        }
        assert(k2 == now.filter(keep));
        assert(g2 == now.filter(drop).map_values(|f: Flight| f.handle));
        assert forall|x: PeerId| x != peer implies #[trigger] q.plan(x) == m.planner.plan(x) by {
            assert(p.plan(x) == m.planner.plan(x));
            assert(q.plan(x) == p.plan(x));
        }
        assert(q.plan(peer).in_flight.subset_of(m.planner.plan(peer).in_flight));
        assert(q.plan(peer).havelist == m.planner.plan(peer).havelist);
        assert forall|i: int| 0 <= i < n && RsView::hit(#[trigger] m.flights[i], peer, bits) implies !q.plan(
            peer,
        ).in_flight.contains(m.flights[i].idx) by {
            if i < n - 1 {
                assert(!p.plan(peer).in_flight.contains(m.flights[i].idx));
            }
        }
    } else {
        assert(m.flights.take(0) =~= Seq::<Flight>::empty());
        assert(m.flights.take(0).filter(drop).map_values(|f: Flight| f.handle) =~= Seq::<DispatchHandle>::empty());
    }
}

/// A routing update makes redundant exactly the flights to that peer of shards
/// it turns out to hold; those are withdrawn and the others stay.
pub proof fn law_routing_update_withdraws(m: RsView, peer: PeerId, update: Seq<bool>)
    requires
        m.valid(),
        update.len() == m.chunks.len(),
    ensures
        ({
            let (after, gone) = m.routed(peer, update);
            let bits = m.merged(peer, update);
            &&& after.flights == m.flights.filter(|f: Flight| !RsView::hit(f, peer, bits))
            &&& gone == m.flights.filter(|f: Flight| RsView::hit(f, peer, bits)).map_values(
                |f: Flight| f.handle,
            )
            &&& after.planner.plan(peer).havelist == Some(bits)
            &&& forall|i: int| 0 <= i < update.len() && update[i] ==> bits[i]
        }),
{
    let bits = m.merged(peer, update);
    let told = RsView { planner: m.planner.informed(peer, bits), ..m };
    lemma_kept(told, peer, bits, told.flights.len() as int);
    assert(told.flights.take(told.flights.len() as int) =~= m.flights);
}

/// After a peer left, nothing is in flight to it, and the flights to others
/// are as before.
pub proof fn law_detach_clears_flights(m: RsView, peer: PeerId)
    requires
        m.valid(),
    ensures
        !m.detached(peer).peers.contains(peer),
        m.detached(peer).flights == m.flights.filter(|f: Flight| f.peer != peer),
        m.detached(peer).chunks == m.chunks,
{
    let left = RsView { peers: m.peers.remove(peer), ..m };
    let bits = m.every();
    lemma_kept(left, peer, bits, left.flights.len() as int);
    assert(left.flights.take(left.flights.len() as int) =~= m.flights);
    lemma_same_filter(m, peer, m.flights.len() as int);
    assert(m.flights.take(m.flights.len() as int) =~= m.flights);
}

/// A peer that left, or that has the message, is planned no chunk until it is
/// attached again.
pub proof fn law_detached_peer_gets_no_chunks(m: RsView, peer: PeerId)
    requires
        m.valid(),
        m.peers.finite(),
    ensures
        ({
            let after = m.detached(peer);
            let ds = after.dispatched_all(order::ascending(after.peers)).1;
            forall|k: int| 0 <= k < ds.len() ==> (#[trigger] ds[k]).peer != peer
        }),
{
    let after = m.detached(peer);
    let peers = order::ascending(after.peers);
    order::lemma_ascending(after.peers);
    lemma_dispatched_to(after, peers);
    let ds = after.dispatched_all(peers).1;
    assert forall|k: int| 0 <= k < ds.len() implies (#[trigger] ds[k]).peer != peer by {
        assert(peers.to_set().contains(ds[k].peer));
    }
}

proof fn lemma_dispatched_to(m: RsView, peers: Seq<PeerId>)
    ensures
        forall|k: int|
            0 <= k < m.dispatched_all(peers).1.len() ==> peers.contains(
                (#[trigger] m.dispatched_all(peers).1[k]).peer,
            ),
    decreases peers.len(),
{
    if peers.len() > 0 {
        let head = peers.drop_last();
        lemma_dispatched_to(m, head);
        let ds = m.dispatched_all(head).1;
        let all = m.dispatched_all(peers).1;
        assert forall|k: int| 0 <= k < all.len() implies peers.contains((#[trigger] all[k]).peer) by {
            if k < ds.len() {
                assert(all[k] == ds[k]);
                let i = choose|i: int| 0 <= i < head.len() && head[i] == ds[k].peer;
                assert(peers[i] == ds[k].peer);
            } else {
                assert(peers[peers.len() - 1] == all[k].peer);
            }
        }
    }
}

proof fn lemma_same_filter(m: RsView, peer: PeerId, n: int)
    requires
        m.valid(),
        0 <= n <= m.flights.len(),
    ensures
        m.flights.take(n).filter(|f: Flight| !RsView::hit(f, peer, m.every())) == m.flights.take(n).filter(
            |f: Flight| f.peer != peer,
        ),
    decreases n,
{
    reveal(Seq::filter);
    if n > 0 {
        lemma_same_filter(m, peer, n - 1);
        assert(m.flights.take(n).drop_last() =~= m.flights.take(n - 1));
        assert(m.flights.take(n).last() == m.flights[n - 1]);
    }
}

/// Routing is announced at most once per change: after an announcement, and
/// until another chunk is accepted, polling without force returns nothing.
pub proof fn law_announced_once_per_change(m: RsView, force: bool)
    requires
        m.valid(),
        m.polled_routing(force).1 is Some,
    ensures
        m.polled_routing(force).1 == Some(m.held()),
        m.polled_routing(force).0.polled_routing(false).1 is None,
{
    code::lemma_filled_at_most(m.chunks);
}

/// With bitmaps disabled no routing is ever announced.
pub proof fn law_disabled_bitmap_is_silent(m: RsView, force: bool)
    requires
        m.config.disable_bitmap,
    ensures
        m.polled_routing(force) == (m, None::<Seq<bool>>),
{
}

/// A shard that is not held yet and is what the preamble announces is stored,
/// and nothing else changes. The message is complete with it as soon as there
/// are as many shards as carry data. A shard that is held is redundant; an
/// index past the last shard is an error.
pub proof fn law_authentic_chunk_is_stored(m: RsView, idx: u32, data: Seq<u8>)
    requires
        m.valid(),
    ensures
        ({
            let (after, r) = m.taken(idx, data);
            &&& idx >= m.chunks.len() ==> after == m && r is Err
            &&& idx < m.chunks.len() && m.chunks[idx as int] is Some ==> {
                &&& after == m
                &&& r matches Ok(o) && o.verdict == Verdict::Redundant && (o.complete <==> code::filled(
                    m.chunks,
                ) >= m.preamble.num_data)
            }
            &&& idx < m.chunks.len() && m.chunks[idx as int] is None && verify::authentic(
                m.preamble,
                idx as int,
                data,
            ) ==> {
                &&& after.chunks == m.chunks.update(idx as int, Some(data))
                &&& after == (RsView { chunks: after.chunks, ..m })
                &&& r matches Ok(o) && o.verdict == Verdict::Accepted && (o.complete <==> code::filled(
                    m.chunks,
                ) + 1 >= m.preamble.num_data)
            }
        }),
{
    if idx < m.chunks.len() && m.chunks[idx as int] is None {
        code::lemma_filled_update(m.chunks, idx as int, data);
    }
}

/// What a peer is believed to hold after its routing update is what it was
/// believed to hold before and what the update says. The beliefs about the
/// others stay, and an update of another size than the message has shards
/// changes nothing.
pub proof fn law_routing_update_adds(m: RsView, peer: PeerId, update: Seq<bool>, i: u32, other: PeerId)
    requires
        m.valid(),
        m.planner.plan(peer).havelist matches Some(bits) ==> bits.len() == m.chunks.len(),
    ensures
        ({
            let (after, gone) = m.routed(peer, update);
            &&& update.len() != m.chunks.len() ==> after == m && gone.len() == 0
            &&& update.len() == m.chunks.len() && i < update.len() ==> (after.planner.plan(peer).has(i)
                <==> m.planner.plan(peer).has(i) || update[i as int])
            &&& other != peer ==> after.planner.plan(other) == m.planner.plan(other)
            &&& after.chunks == m.chunks
            &&& after.peers == m.peers
            &&& after.next_handle == m.next_handle
        }),
{
    if update.len() == m.chunks.len() {
        law_routing_update_withdraws(m, peer, update);
        let bits = m.merged(peer, update);
        let told = RsView { planner: m.planner.informed(peer, bits), ..m };
        lemma_kept(told, peer, bits, told.flights.len() as int);
    }
}

/// Polling for routing gives the shards held, and gives them unless bitmaps
/// are disabled: whenever it is forced, and else exactly when their number
/// differs from that of the last announcement and is at least the threshold,
/// in percent of all shards.
pub proof fn law_routing_is_announced_when_due(m: RsView, force: bool)
    requires
        m.valid(),
    ensures
        ({
            let (after, r) = m.polled_routing(force);
            let have = code::filled(m.chunks);
            &&& r is Some <==> !m.config.disable_bitmap && (force || (have != m.announced && have * 100
                >= m.config.bitmap_threshold * m.chunks.len()))
            &&& r matches Some(bits) ==> {
                &&& bits.len() == m.chunks.len()
                &&& forall|i: int| 0 <= i < bits.len() ==> #[trigger] bits[i] == (m.chunks[i] is Some)
                &&& after.announced == have
            }
            &&& r is None ==> after == m
            &&& after == (RsView { announced: after.announced, ..m })
        }),
{
    code::lemma_filled_at_most(m.chunks);
}

/// A relay starts with no shard and may send each as often as its forward
/// multiplier says; an origin starts with every shard of the payload and may
/// send it to everyone. Neither has peers, nor anything sent.
pub proof fn law_strategies_start_empty(
    payload: Seq<u8>,
    preamble: PreambleView,
    config: RsConfig,
    seed: u64,
    i: int,
)
    requires
        0 <= i,
        verify::preamble_fault(preamble) is None,
        encode::shards_of(payload, config).len() <= u32::MAX,
    ensures
        ({
            let m = RsView::relay(preamble, config, seed);
            &&& m.chunks.len() == preamble.num_data + preamble.num_parity
            &&& i < m.chunks.len() ==> m.chunks[i] is None && m.planner.allocation[i] == 0
            &&& m.planner.mode == (planner::PlannerMode::Relay {
                forward_multiplier: config.forward_multiplier,
            })
            &&& m.planner.seed == seed
            &&& m.planner.allocation.len() == m.chunks.len()
            &&& m.peers == Set::<PeerId>::empty() && m.flights.len() == 0 && m.announced == 0
            &&& m.preamble == preamble
        }),
        ({
            let m = RsView::origin(payload, config, seed);
            let word = encode::shards_of(payload, config);
            &&& m.chunks.len() == word.len()
            &&& i < word.len() ==> m.chunks[i] == Some(word[i]) && m.planner.allocation[i] == 0
            &&& m.planner.mode == planner::PlannerMode::Origin
            &&& m.planner.seed == seed
            &&& m.planner.allocation.len() == m.chunks.len()
            &&& m.peers == Set::<PeerId>::empty() && m.flights.len() == 0 && m.announced == 0
            &&& m.preamble == encode::preamble_of(payload, config)
        }),
{
    verify::law_valid_preamble(preamble);
}

/// A poll gives every attached peer a shard for which there is one: a peer
/// that gets none, while handles are left, has or is getting every shard that
/// is held, or a relay has sent those as often as it may.
pub proof fn law_poll_serves_every_peer(m: RsView, peers: Seq<PeerId>, k: int, idx: u32)
    requires
        m.valid(),
        m.chunks.len() <= u32::MAX,
        m.next_handle < u64::MAX,
        0 <= k < peers.len(),
        m.dispatched_all(peers).1.len() == 0,
        m.holds(idx),
    ensures
        ({
            let plan = m.planner.plan(peers[k]);
            ||| plan.in_flight.contains(idx)
            ||| plan.has(idx)
            ||| m.planner.mode matches planner::PlannerMode::Relay { forward_multiplier } && m.planner.allocation[idx as int] >= forward_multiplier
        }),
    decreases peers.len(),
{
    let head = peers.drop_last();
    let (m1, ds) = m.dispatched_all(head);
    let d = m1.dispatched(peers.last()).1;
    assert(ds.len() == 0 && d is None);
    lemma_idle(m, head);
    assert(m1 == m);
    if k == peers.len() - 1 {
        let plan = m.planner.plan(peers[k]);
        if !plan.in_flight.contains(idx) && !plan.has(idx) && (m.planner.mode matches planner::PlannerMode::Relay {
            forward_multiplier,
        } ==> m.planner.allocation[idx as int] < forward_multiplier) {
            planner::law_available_shard_is_allocated(m.planner, peers[k], m.held(), idx);
        }
    } else {
        assert(head[k] == peers[k]);
        law_poll_serves_every_peer(m, head, k, idx);
    }
}

/// A poll that gives nothing changes nothing.
pub(crate) proof fn lemma_idle(m: RsView, peers: Seq<PeerId>)
    ensures
        m.dispatched_all(peers).1.len() == 0 ==> m.dispatched_all(peers).0 == m,
    decreases peers.len(),
{
    if peers.len() > 0 {
        lemma_idle(m, peers.drop_last());
    }
}

/// Progress is the number of shards held, of as many as carry data: it grows
/// by one with each that is accepted, and what is needed stays.
pub proof fn law_progress_counts_chunks(m: RsView, idx: u32, data: Seq<u8>)
    requires
        m.valid(),
        m.chunks.len() <= u32::MAX,
    ensures
        ({
            let (have, need) = RsStrategy::counts(m);
            let (after, r) = m.taken(idx, data);
            let (have1, need1) = RsStrategy::counts(after);
            &&& have == code::filled(m.chunks)
            &&& need == m.preamble.num_data
            &&& need1 == need
            &&& r is Ok && r->Ok_0.verdict == Verdict::Accepted ==> have1 == have + 1
            &&& !(r is Ok && r->Ok_0.verdict == Verdict::Accepted) ==> have1 == have
            &&& m.complete() <==> have >= need
        }),
{
    code::lemma_filled_at_most(m.chunks);
    code::lemma_filled_at_most(m.taken(idx, data).0.chunks);
    if idx < m.chunks.len() && m.chunks[idx as int] is None {
        code::lemma_filled_update(m.chunks, idx as int, data);
    }
}

/// An outcome that names another peer than the chunk went to, or a handle
/// that nothing is in flight under, changes nothing.
pub proof fn law_outcome_must_name_its_flight(m: RsView, peer: PeerId, handle: DispatchHandle, ok: bool)
    requires
        forall|i: int|
            0 <= i < m.flights.len() ==> (#[trigger] m.flights[i]).handle != handle || m.flights[i].peer
                != peer,
    ensures
        m.reported(peer, handle, ok) == m,
{
    lemma_flight(m, peer, handle, 0);
}

/// A resolved flight is over, and the others stay. Whatever the outcome, what
/// is held, who takes part and the counts of allocations stay.
pub proof fn law_outcome_ends_one_flight(m: RsView, k: int, ok: bool)
    requires
        m.valid(),
        0 <= k < m.flights.len(),
    ensures
        ({
            let f = m.flights[k];
            let after = m.reported(f.peer, f.handle, ok);
            &&& after.flights == m.flights.remove(k)
            &&& after.chunks == m.chunks
            &&& after.peers == m.peers
            &&& after.next_handle == m.next_handle
            &&& after.planner.allocation == m.planner.allocation
            &&& !after.planner.plan(f.peer).in_flight.contains(f.idx)
        }),
{
    let f = m.flights[k];
    lemma_flight(m, f.peer, f.handle, 0);
    assert(m.flights[k].handle == f.handle);
    let j = m.flight(f.peer, f.handle, 0)->0;
    if j < k {
        assert(m.flights[j].handle != m.flights[k].handle);
    }
    if k < j {
        assert(m.flights[k].handle != m.flights[j].handle);
    }
}

} // verus!
