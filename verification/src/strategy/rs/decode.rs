//! Reed-Solomon reconstruction with end-to-end integrity check.

use vstd::prelude::*;

use crate::hash;
use crate::pb;
use crate::pb::rs::{Preamble, PreambleView};
use crate::strategy::config::RsConfig;
use crate::strategy::rs::code;
use crate::strategy::rs::code::RsError;
use crate::strategy::rs::encode;
use crate::strategy::rs::verify;
use crate::strategy::rs::verify::{validate_preamble, PreambleError};

verus! {

/// Errors returned by [`decode`].
#[derive(Debug, Clone, Copy, PartialEq, Eq, Structural)]
pub enum DecodeError {
    /// The preamble fails [`validate_preamble`].
    Preamble(PreambleError),
    /// The code does not exist for the announced shape or could not
    /// reconstruct (insufficient shards).
    Rs(RsError),
    /// A shard's index in the input is out of range.
    ShardIndexOutOfRange { idx: u32, total: u32 },
    /// Two shards in the input collided on the same index.
    DuplicateShardIndex { idx: u32 },
    /// Shards in the input have inconsistent lengths.
    InconsistentShardLength { expected: usize, got: usize },
    /// Reconstruction succeeded but the message hash did not match.
    MessageHashMismatch,
}

/// Contents of a list of indexed shards.
pub open spec fn indexed(v: Seq<(u32, Vec<u8>)>) -> Seq<(u32, Seq<u8>)> {
    v.map_values(|s: (u32, Vec<u8>)| (s.0, s.1@))
}

/// Index `idx` occurs among the first `n` shards.
pub open spec fn occurs(shards: Seq<(u32, Seq<u8>)>, idx: u32, n: int) -> bool {
    exists|j: int| 0 <= j < n && #[trigger] shards[j].0 == idx
}

/// What is wrong with shard `i` of the input, if anything is.
pub open spec fn shard_fault(shards: Seq<(u32, Seq<u8>)>, total: int, i: int) -> Option<DecodeError> {
    let (idx, data) = shards[i];
    if idx >= total {
        Some(DecodeError::ShardIndexOutOfRange { idx, total: total as u32 })
    } else if data.len() != shards[0].1.len() {
        Some(
            DecodeError::InconsistentShardLength {
                expected: shards[0].1.len() as usize,
                got: data.len() as usize,
            },
        )
    } else if occurs(shards, idx, i) {
        Some(DecodeError::DuplicateShardIndex { idx })
    } else {
        None
    }
}

/// The first fault among the shards from position `i` on.
pub open spec fn first_fault(shards: Seq<(u32, Seq<u8>)>, total: int, i: int) -> Option<DecodeError>
    decreases shards.len() - i,
{
    if i < 0 || i >= shards.len() {
        None
    } else if shard_fault(shards, total, i) is Some {
        shard_fault(shards, total, i)
    } else {
        first_fault(shards, total, i + 1)
    }
}

/// The first `n` input shards, each in the slot of its index.
pub open spec fn gathered(shards: Seq<(u32, Seq<u8>)>, total: int, n: int) -> Seq<Option<Seq<u8>>>
    decreases n,
{
    if n <= 0 {
        Seq::new(total as nat, |i: int| None)
    } else {
        gathered(shards, total, n - 1).update(shards[n - 1].0 as int, Some(shards[n - 1].1))
    }
}

/// Byte strings, one after the other.
pub open spec fn joined(parts: Seq<Seq<u8>>) -> Seq<u8>
    decreases parts.len(),
{
    if parts.len() == 0 {
        Seq::empty()
    } else {
        joined(parts.drop_last()) + parts.last()
    }
}

/// The message that `bytes` starts with, checked against the preamble.
pub open spec fn finished(p: PreambleView, bytes: Seq<u8>) -> Result<Seq<u8>, DecodeError> {
    if p.length > bytes.len() {
        Err(
            DecodeError::InconsistentShardLength {
                expected: p.length as usize,
                got: bytes.len() as usize,
            },
        )
    } else if hash::sha256(bytes.take(p.length as int)) != p.hash {
        Err(DecodeError::MessageHashMismatch)
    } else {
        Ok(bytes.take(p.length as int))
    }
}

/// The message that `shards` give under the preamble, or why there is none.
pub open spec fn decoded(p: PreambleView, shards: Seq<(u32, Seq<u8>)>) -> Result<Seq<u8>, DecodeError> {
    let total = p.num_data + p.num_parity;
    let slots = gathered(shards, total, shards.len() as int);
    if verify::preamble_fault(p) is Some {
        Err(DecodeError::Preamble(verify::preamble_fault(p)->0))
    } else if shards.len() == 0 {
        Err(DecodeError::Rs(RsError::TooFewShards))
    } else if first_fault(shards, total, 0) is Some {
        Err(first_fault(shards, total, 0)->0)
    } else if code::restore_fault(slots, p.num_data as int, p.num_parity as int) is Some {
        Err(DecodeError::Rs(code::restore_fault(slots, p.num_data as int, p.num_parity as int)->0))
    } else {
        finished(p, joined(code::rs_restored(slots, p.num_data as nat)))
    }
}

/// `shards` are at least as many shards of the encoded payload as it has data
/// shards, no two of them at one index.
pub open spec fn enough_of(shards: Seq<(u32, Seq<u8>)>, payload: Seq<u8>, config: RsConfig) -> bool {
    let word = encode::shards_of(payload, config);
    &&& shards.len() >= encode::data_count(payload.len() as int, config)
    &&& forall|i: int|
        0 <= i < shards.len() ==> (#[trigger] shards[i]).0 < word.len() && shards[i].1 == word[shards[i].0 as int]
    &&& forall|i: int, j: int| 0 <= i < j < shards.len() ==> (#[trigger] shards[i]).0 != (#[trigger] shards[j]).0
}

proof fn lemma_gathered(shards: Seq<(u32, Seq<u8>)>, total: int, n: int)
    requires
        0 <= n <= shards.len(),
        0 <= total,
        forall|i: int| 0 <= i < n ==> (#[trigger] shards[i]).0 < total,
    ensures
        gathered(shards, total, n).len() == total,
        forall|k: int|
            0 <= k < total ==> ((#[trigger] gathered(shards, total, n)[k]) is Some <==> occurs(
                shards,
                k as u32,
                n,
            ) && k <= u32::MAX),
        forall|k: int|
            0 <= k < total && (#[trigger] gathered(shards, total, n)[k]) is Some ==> exists|j: int|
                0 <= j < n && (#[trigger] shards[j]).0 == k && gathered(shards, total, n)[k] == Some(
                    shards[j].1,
                ),
    decreases n,
{
    if n > 0 {
        lemma_gathered(shards, total, n - 1);
        let was = gathered(shards, total, n - 1);
        let now = gathered(shards, total, n);
        let at = shards[n - 1].0 as int;
        assert forall|k: int| 0 <= k < total implies ((#[trigger] now[k]) is Some <==> occurs(
            shards,
            k as u32,
            n,
        ) && k <= u32::MAX) by {
            if k == at {
                assert(shards[n - 1].0 == k as u32);
            } else {
                assert(now[k] == was[k]);
                if occurs(shards, k as u32, n) && k <= u32::MAX {
                    let j = choose|j: int| 0 <= j < n && #[trigger] shards[j].0 == k as u32;
                    assert(j < n - 1);
                    assert(occurs(shards, k as u32, n - 1));
                }
                if was[k] is Some {
                    let j = choose|j: int| 0 <= j < n - 1 && #[trigger] shards[j].0 == k as u32;
                    assert(shards[j].0 == k as u32);
                }
            }
        }
        assert forall|k: int| 0 <= k < total && (#[trigger] now[k]) is Some implies exists|j: int|
            0 <= j < n && (#[trigger] shards[j]).0 == k && now[k] == Some(shards[j].1) by {
            if k == at {
                assert(shards[n - 1].0 == k && now[k] == Some(shards[n - 1].1));
            } else {
                assert(now[k] == was[k]);
                let j = choose|j: int|
                    0 <= j < n - 1 && (#[trigger] shards[j]).0 == k && was[k] == Some(shards[j].1);
                assert(shards[j].0 == k && now[k] == Some(shards[j].1));
            }
        }
    }
}

/// Reconstruct the payload from a subset of available shards.
///
/// `shards_in` is a slice of `(index, bytes)` pairs covering at least
/// `num_data` indices. Indices may be data or parity; this function
/// reconstructs missing data shards, concatenates them, truncates to
/// `preamble.length`, and verifies SHA-256 against `preamble.hash`.
///
/// Whatever payload was encoded, any `num_data` of its shards give it back.
#[verifier::loop_isolation(false)]
pub fn decode(preamble: &Preamble, shards_in: &[(u32, Vec<u8>)]) -> (r: Result<Vec<u8>, DecodeError>)
    ensures
        match r {
            Ok(v) => decoded(preamble@, indexed(shards_in@)) == Ok::<Seq<u8>, DecodeError>(v@),
            Err(e) => decoded(preamble@, indexed(shards_in@)) == Err::<Seq<u8>, DecodeError>(e),
        },
        forall|payload: Seq<u8>, config: RsConfig| #[trigger]
            encode::encodes(preamble@, payload, config) && enough_of(
                indexed(shards_in@),
                payload,
                config,
            ) ==> (r matches Ok(v) && v@ == payload),
{
    let ghost p = preamble@;
    let ghost sh = indexed(shards_in@);
    proof {
        assert forall|payload: Seq<u8>, config: RsConfig| #[trigger]
            encode::encodes(p, payload, config) && enough_of(sh, payload, config) implies decodable(
            p,
            sh,
            payload,
            config,
        ) by {
            lemma_round_trip(p, sh, payload, config);
        }
    }
    if let Err(e) = validate_preamble(preamble) {
        return Err(DecodeError::Preamble(e));
    }
    proof {
        verify::law_valid_preamble(p);
    }
    let have: usize = preamble.hashes.len();
    let data_shards: usize = preamble.num_data as usize;
    let parity_shards: usize = preamble.num_parity as usize;
    let total: usize = data_shards + parity_shards;
    assert(total == p.num_data + p.num_parity);
    if shards_in.len() == 0 {
        return Err(DecodeError::Rs(RsError::TooFewShards));
    }
    let shard_len: usize = shards_in[0].1.len();
    assert(sh[0].1.len() == shard_len);
    let mut buckets: Vec<Option<Vec<u8>>> = Vec::new();
    let mut t: usize = 0;
    while t < total
        invariant
            t <= total,
            buckets@.len() == t,
            forall|k: int| 0 <= k < t ==> #[trigger] buckets@[k] is None,
        decreases total - t,
    {
        buckets.push(None);
        t = t + 1;
    }
    assert(code::slots_of(buckets@) =~= gathered(sh, total as int, 0));
    let mut i: usize = 0;
    while i < shards_in.len()
        invariant
            i <= sh.len(),
            sh.len() == shards_in@.len(),
            buckets@.len() == total,
            first_fault(sh, total as int, 0) == first_fault(sh, total as int, i as int),
            code::slots_of(buckets@) == gathered(sh, total as int, i as int),
            forall|j: int| 0 <= j < i ==> (#[trigger] sh[j]).0 < total && sh[j].1.len() == shard_len,
            forall|j: int, k: int| 0 <= j < k < i ==> (#[trigger] sh[j]).0 != (#[trigger] sh[k]).0,
        decreases sh.len() - i,
    {
        let idx: u32 = shards_in[i].0;
        let data: &Vec<u8> = &shards_in[i].1;
        proof {
            assert(sh[i as int] == (idx, data@));
            lemma_gathered(sh, total as int, i as int);
        }
        if idx as usize >= total {
            return Err(DecodeError::ShardIndexOutOfRange { idx, total: total as u32 });
        }
        if data.len() != shard_len {
            return Err(
                DecodeError::InconsistentShardLength { expected: shard_len, got: data.len() },
            );
        }
        assert(code::slots_of(buckets@)[idx as int] == code::slot_of(buckets@[idx as int]));
        if buckets[idx as usize].is_some() {
            return Err(DecodeError::DuplicateShardIndex { idx });
        }
        let ghost before = buckets@;
        let copy: Vec<u8> = pb::copy_bytes(data.as_slice());
        buckets[idx as usize] = Some(copy);
        proof {
            assert(code::slots_of(buckets@) =~= code::slots_of(before).update(idx as int, Some(data@)));
            assert(gathered(sh, total as int, i + 1) == gathered(sh, total as int, i as int).update(
                idx as int,
                Some(data@),
            ));
            assert forall|j: int, k: int| 0 <= j < k < i + 1 implies (#[trigger] sh[j]).0 != (#[trigger] sh[k]).0 by {
                if k == i && sh[j].0 == sh[k].0 {
                    assert(occurs(sh, idx, i as int));
                }
            }
        }
        i = i + 1;
    }
    let ghost slots = code::slots_of(buckets@);
    proof {
        lemma_gathered(sh, total as int, sh.len() as int);
        lemma_even(sh, total as int, shard_len as int);
    }
    if let Err(e) = code::restore_data(data_shards, parity_shards, &mut buckets) {
        return Err(DecodeError::Rs(e));
    }
    let ghost restored = code::rs_restored(slots, data_shards as nat);
    let mut out: Vec<u8> = Vec::new();
    let mut j: usize = 0;
    while j < data_shards
        invariant
            j <= data_shards,
            out@ == joined(restored.take(j as int)),
        decreases data_shards - j,
    {
        proof {
            assert(code::slots_of(buckets@).take(data_shards as int)[j as int] == Some(restored[j as int]));
            assert(code::slot_of(buckets@[j as int]) == Some(restored[j as int]));
            assert(restored.take(j + 1).drop_last() =~= restored.take(j as int));
        }
        match &buckets[j] {
            Some(s) => {
                out.extend_from_slice(s.as_slice());
                assert(out@ =~= joined(restored.take(j as int)) + restored[j as int]);
            },
            None => {
                return Err(DecodeError::Rs(RsError::TooFewShards));
            },
        }
        j = j + 1;
    }
    assert(restored.take(data_shards as int) =~= restored);
    let length: usize = preamble.length as usize;
    if length > out.len() {
        return Err(
            DecodeError::InconsistentShardLength { expected: length, got: out.len() },
        );
    }
    out.truncate(length);
    let computed = hash::sha256_digest(out.as_slice());
    if !pb::same_bytes(computed.as_slice(), preamble.hash.as_slice()) {
        return Err(DecodeError::MessageHashMismatch);
    }
    Ok(out)
}

/// Shards at distinct indices fill as many slots.
proof fn lemma_all_filled(shards: Seq<(u32, Seq<u8>)>, total: int, n: int)
    requires
        0 <= n <= shards.len(),
        0 <= total,
        forall|i: int| 0 <= i < shards.len() ==> (#[trigger] shards[i]).0 < total,
        forall|i: int, j: int| 0 <= i < j < shards.len() ==> (#[trigger] shards[i]).0 != (#[trigger] shards[j]).0,
    ensures
        code::filled(gathered(shards, total, n)) == n,
    decreases n,
{
    if n == 0 {
        code::lemma_none_filled(gathered(shards, total, 0));
    } else {
        lemma_all_filled(shards, total, n - 1);
        lemma_gathered(shards, total, n - 1);
        let was = gathered(shards, total, n - 1);
        let at = shards[n - 1].0 as int;
        if was[at] is Some {
            let j = choose|j: int| 0 <= j < n - 1 && #[trigger] shards[j].0 == at as u32;
            assert(shards[j].0 != shards[n - 1].0);
        }
        code::lemma_filled_update(was, at, shards[n - 1].1);
    }
}

/// Shards of one length at distinct indices in range have no fault.
proof fn lemma_no_fault(shards: Seq<(u32, Seq<u8>)>, total: int, from: int)
    requires
        0 <= from,
        forall|i: int|
            0 <= i < shards.len() ==> (#[trigger] shards[i]).0 < total && shards[i].1.len() == shards[0].1.len(),
        forall|i: int, j: int| 0 <= i < j < shards.len() ==> (#[trigger] shards[i]).0 != (#[trigger] shards[j]).0,
    ensures
        first_fault(shards, total, from) is None,
    decreases shards.len() - from,
{
    if from < shards.len() {
        if occurs(shards, shards[from].0, from) {
            let j = choose|j: int| 0 <= j < from && #[trigger] shards[j].0 == shards[from].0;
            assert(shards[j].0 != shards[from].0);
        }
        lemma_no_fault(shards, total, from + 1);
    }
}

/// Byte `x` of joined parts of `len` bytes each.
proof fn lemma_joined(parts: Seq<Seq<u8>>, len: int)
    requires
        len > 0,
        code::uniform(parts, len),
    ensures
        joined(parts).len() == parts.len() * len,
        forall|x: int| 0 <= x < parts.len() * len ==> #[trigger] joined(parts)[x] == parts[x / len][x % len],
    decreases parts.len(),
{
    if parts.len() > 0 {
        let head = parts.drop_last();
        let n = head.len() as int;
        assert(code::uniform(head, len));
        lemma_joined(head, len);
        assert((n + 1) * len == n * len + len) by (nonlinear_arith);
        assert forall|x: int| 0 <= x < parts.len() * len implies #[trigger] joined(parts)[x] == parts[x / len][x
            % len] by {
            if x < n * len {
                assert(joined(parts)[x] == joined(head)[x]);
                assert(x / len < n) by (nonlinear_arith)
                    requires
                        0 <= x < n * len,
                        len > 0,
                ;
                assert(x / len >= 0) by (nonlinear_arith)
                    requires
                        0 <= x,
                        len > 0,
                ;
                assert(head[x / len] == parts[x / len]);
            } else {
                assert(x / len == n && x % len == x - n * len) by (nonlinear_arith)
                    requires
                        n * len <= x < n * len + len,
                        len > 0,
                ;
                assert(joined(parts)[x] == parts.last()[x - n * len]);
            }
        }
    } else {
        assert(parts.len() * len == 0) by (nonlinear_arith)
            requires
                parts.len() == 0,
        ;
    }
}

/// Joining the shards of a payload gives the payload and padding.
proof fn lemma_split_joined(payload: Seq<u8>, count: int, len: int)
    requires
        len > 0,
        count >= 0,
        count * len >= payload.len(),
    ensures
        joined(encode::split(payload, count, len)).len() == count * len,
        joined(encode::split(payload, count, len)).take(payload.len() as int) == payload,
{
    let parts = encode::split(payload, count, len);
    assert(code::uniform(parts, len));
    lemma_joined(parts, len);
    assert forall|x: int| 0 <= x < payload.len() implies joined(parts)[x] == payload[x] by {
        assert(0 <= x / len < count && x % len >= 0 && x % len < len && (x / len) * len + x % len == x)
            by (nonlinear_arith)
            requires
                0 <= x < count * len,
                len > 0,
        ;
        assert(joined(parts)[x] == parts[x / len][x % len]);
    }
    assert(joined(parts).take(payload.len() as int) =~= payload);
}

/// Decoding these shards meets no fault before the code restores the data
/// shards of the payload, which give the payload back.
spec fn decodable(p: PreambleView, shards: Seq<(u32, Seq<u8>)>, payload: Seq<u8>, config: RsConfig) -> bool {
    let k = p.num_data as int;
    let slots = gathered(shards, p.num_data + p.num_parity, shards.len() as int);
    let data = encode::split(payload, k, encode::shard_len(payload.len() as int, config));
    &&& verify::preamble_fault(p) is None
    &&& shards.len() > 0
    &&& first_fault(shards, p.num_data + p.num_parity, 0) is None
    &&& code::restore_fault(slots, k, p.num_parity as int) is None
    &&& data.len() == k
    &&& code::uniform(data, code::width(slots))
    &&& code::drawn_from(slots, data + code::rs_parity(data, p.num_parity as nat))
    &&& code::rs_restored(slots, k as nat) == data ==> decoded(p, shards) == Ok::<Seq<u8>, DecodeError>(
        payload,
    )
}

/// Enough shards of an encoded payload decode to it, given that the code
/// restores the data shards of the codeword they are drawn from.
proof fn lemma_round_trip(p: PreambleView, shards: Seq<(u32, Seq<u8>)>, payload: Seq<u8>, config: RsConfig)
    requires
        encode::encodes(p, payload, config),
        enough_of(shards, payload, config),
    ensures
        decodable(p, shards, payload, config),
{
    let n = payload.len() as int;
    let k = encode::data_count(n, config);
    let m = encode::parity_count(n, config);
    let len = encode::shard_len(n, config);
    let word = encode::shards_of(payload, config);
    let total = p.num_data + p.num_parity;
    let data = encode::split(payload, k, len);
    encode::lemma_shape_fits(n, config);
    assert(p.num_data == k && p.num_parity == m);
    assert(p.hashes.len() == word.len());
    assert forall|i: int| 0 <= i < p.hashes.len() implies (#[trigger] p.hashes[i]).len() == 32 by {
    }
    verify::lemma_even_hashes(p.hashes, 0);
    assert forall|i: int| 0 <= i < shards.len() implies (#[trigger] shards[i]).0 < total && shards[i].1.len()
        == len by {
        assert(word[shards[i].0 as int].len() == len);
    }
    lemma_no_fault(shards, total, 0);
    lemma_even(shards, total, len);
    lemma_all_filled(shards, total, shards.len() as int);
    lemma_gathered(shards, total, shards.len() as int);
    lemma_split_joined(payload, k, len);
}

/// The slots that faultless input fills hold shards of one length.
proof fn lemma_even(shards: Seq<(u32, Seq<u8>)>, total: int, len: int)
    requires
        0 <= total,
        shards.len() > 0,
        forall|j: int| 0 <= j < shards.len() ==> (#[trigger] shards[j]).0 < total && shards[j].1.len() == len,
    ensures
        code::even(gathered(shards, total, shards.len() as int)),
        code::width(gathered(shards, total, shards.len() as int)) == len,
{
    let n = shards.len() as int;
    let slots = gathered(shards, total, n);
    lemma_gathered(shards, total, n);
    let at = shards[0].0 as int;
    assert(shards[0].0 == at as u32);
    assert(occurs(shards, at as u32, n));
    assert(slots[at] is Some);
}

proof fn lemma_first_fault(shards: Seq<(u32, Seq<u8>)>, total: int, from: int, i: int)
    requires
        0 <= from <= i < shards.len(),
        shard_fault(shards, total, i) is Some,
        forall|j: int| 0 <= j < i ==> #[trigger] shard_fault(shards, total, j) is None,
    ensures
        first_fault(shards, total, from) == shard_fault(shards, total, i),
    decreases i - from,
{
    if from < i {
        lemma_first_fault(shards, total, from + 1, i);
    }
}

/// Decoding refuses, in this order: a preamble that is not well shaped, no
/// shards at all, and the first shard whose index is past the last, whose
/// length differs from that of the first, or whose index came before.
pub proof fn law_first_bad_shard_is_told(p: PreambleView, shards: Seq<(u32, Seq<u8>)>, i: int)
    requires
        0 <= i < shards.len(),
        forall|j: int|
            0 <= j < i ==> (#[trigger] shards[j]).0 < p.num_data + p.num_parity && shards[j].1.len()
                == shards[0].1.len(),
        forall|j: int, k: int| 0 <= j < k < i ==> (#[trigger] shards[j]).0 != (#[trigger] shards[k]).0,
    ensures
        verify::preamble_fault(p) matches Some(e) ==> decoded(p, shards) == Err::<Seq<u8>, DecodeError>(
            DecodeError::Preamble(e),
        ),
        verify::preamble_fault(p) is None ==> decoded(p, Seq::empty()) == Err::<Seq<u8>, DecodeError>(
            DecodeError::Rs(RsError::TooFewShards),
        ),
        verify::preamble_fault(p) is None && shards[i].0 >= p.num_data + p.num_parity ==> decoded(
            p,
            shards,
        ) == Err::<Seq<u8>, DecodeError>(
            DecodeError::ShardIndexOutOfRange {
                idx: shards[i].0,
                total: (p.num_data + p.num_parity) as u32,
            },
        ),
        verify::preamble_fault(p) is None && shards[i].0 < p.num_data + p.num_parity
            && shards[i].1.len() != shards[0].1.len() ==> decoded(p, shards) == Err::<
            Seq<u8>,
            DecodeError,
        >(
            DecodeError::InconsistentShardLength {
                expected: shards[0].1.len() as usize,
                got: shards[i].1.len() as usize,
            },
        ),
        verify::preamble_fault(p) is None && shards[i].0 < p.num_data + p.num_parity
            && shards[i].1.len() == shards[0].1.len() && (exists|j: int|
            0 <= j < i && (#[trigger] shards[j]).0 == shards[i].0) ==> decoded(p, shards) == Err::<
            Seq<u8>,
            DecodeError,
        >(DecodeError::DuplicateShardIndex { idx: shards[i].0 }),
{
    let total = p.num_data + p.num_parity;
    assert forall|j: int| 0 <= j < i implies #[trigger] shard_fault(shards, total, j) is None by {
        assert(shards[j].0 < total);
        if occurs(shards, shards[j].0, j) {
            let k = choose|k: int| 0 <= k < j && #[trigger] shards[k].0 == shards[j].0;
            assert(shards[k].0 != shards[j].0);
        }
    }
    if exists|j: int| 0 <= j < i && (#[trigger] shards[j]).0 == shards[i].0 {
        let j = choose|j: int| 0 <= j < i && (#[trigger] shards[j]).0 == shards[i].0;
        assert(shards[j].0 == shards[i].0);
        assert(occurs(shards, shards[i].0, i));
    }
    if shard_fault(shards, total, i) is Some {
        lemma_first_fault(shards, total, 0, i);
    }
}

} // verus!
