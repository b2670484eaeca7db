//! Synchronous per-chunk verification.

use vstd::prelude::*;

use crate::hash;
use crate::pb;
use crate::pb::rs::{Preamble, PreambleView};
use crate::strategy::rs::HASH_LEN;

verus! {

/// Verdict on a single chunk.
#[derive(Debug, Clone, Copy, PartialEq, Eq, Structural)]
pub enum Verdict {
    /// The chunk's digest is the one that the preamble announces.
    Accept,
    /// The chunk is not the announced one.
    Reject,
    /// Verification has not finished. Not used by this strategy.
    Pending,
}

/// Errors returned by [`validate_preamble`].
#[derive(Debug, Clone, Copy, PartialEq, Eq, Structural)]
pub enum PreambleError {
    /// `num_data` or `num_parity` is negative.
    NegativeShardCount { num_data: i32, num_parity: i32 },
    /// `num_data + num_parity` overflows `u32`.
    ShardCountOverflow,
    /// The number of hashes does not match the total shard count.
    HashCountMismatch { hashes: usize, expected: u32 },
    /// One of the per-shard hash entries has a length other than 32 bytes.
    HashLengthInvalid { idx: usize, len: usize },
    /// The end-to-end message hash is not 32 bytes.
    MessageHashLengthInvalid { len: usize },
    /// `length` is negative.
    NegativeLength { length: i32 },
}

/// First entry whose length is not that of a digest, at `from` or later.
pub open spec fn odd_hash(hashes: Seq<Seq<u8>>, from: int) -> Option<int>
    decreases hashes.len() - from,
{
    if from < 0 || from >= hashes.len() {
        None
    } else if hashes[from].len() != HASH_LEN {
        Some(from)
    } else {
        odd_hash(hashes, from + 1)
    }
}

/// What is wrong with the shape of a preamble, if anything is.
///
/// Two non-negative `i32` never overflow `u32`, so a preamble is never
/// refused for [`PreambleError::ShardCountOverflow`].
pub open spec fn preamble_fault(p: PreambleView) -> Option<PreambleError> {
    let total = p.num_data + p.num_parity;
    if p.num_data < 0 || p.num_parity < 0 {
        Some(PreambleError::NegativeShardCount { num_data: p.num_data, num_parity: p.num_parity })
    } else if p.length < 0 {
        Some(PreambleError::NegativeLength { length: p.length })
    } else if p.hashes.len() != total {
        Some(PreambleError::HashCountMismatch { hashes: p.hashes.len() as usize, expected: total as u32 })
    } else {
        match odd_hash(p.hashes, 0) {
            Some(i) => Some(
                PreambleError::HashLengthInvalid { idx: i as usize, len: p.hashes[i].len() as usize },
            ),
            None => if p.hash.len() != HASH_LEN {
                Some(PreambleError::MessageHashLengthInvalid { len: p.hash.len() as usize })
            } else {
                None
            },
        }
    }
}

/// Validate a preamble's shape. Called once at session establishment.
#[verifier::loop_isolation(false)]
pub fn validate_preamble(p: &Preamble) -> (r: Result<(), PreambleError>)
    ensures
        match r {
            Ok(()) => preamble_fault(p@) is None,
            Err(e) => preamble_fault(p@) == Some(e),
        },
{
    if p.num_data < 0 || p.num_parity < 0 {
        return Err(
            PreambleError::NegativeShardCount { num_data: p.num_data, num_parity: p.num_parity },
        );
    }
    if p.length < 0 {
        return Err(PreambleError::NegativeLength { length: p.length });
    }
    let total: u32 = match (p.num_data as u32).checked_add(p.num_parity as u32) {
        Some(t) => t,
        None => {
            return Err(PreambleError::ShardCountOverflow);
        },
    };
    if p.hashes.len() != total as usize {
        return Err(
            PreambleError::HashCountMismatch { hashes: p.hashes.len(), expected: total },
        );
    }
    let mut i: usize = 0;
    while i < p.hashes.len()
        invariant
            i <= p.hashes@.len(),
            odd_hash(p@.hashes, 0) == odd_hash(p@.hashes, i as int),
        decreases p.hashes@.len() - i,
    {
        if p.hashes[i].len() != HASH_LEN {
            return Err(PreambleError::HashLengthInvalid { idx: i, len: p.hashes[i].len() });
        }
        i = i + 1;
    }
    if p.hash.len() != HASH_LEN {
        return Err(PreambleError::MessageHashLengthInvalid { len: p.hash.len() });
    }
    Ok(())
}

/// The chunk is the one that the preamble announces at `idx`.
pub open spec fn authentic(p: PreambleView, idx: int, data: Seq<u8>) -> bool {
    &&& p.num_data >= 0 && p.num_parity >= 0
    &&& idx < p.num_data + p.num_parity
    &&& idx < p.hashes.len()
    &&& p.hashes[idx].len() == HASH_LEN
    &&& p.hashes[idx] == hash::sha256(data)
}

/// Verify a single chunk against the preamble.
///
/// An out-of-range index, a malformed preamble entry (non-32-byte hash) and
/// a hash mismatch are rejected. Only a 32-byte hash match is accepted.
#[must_use]
pub fn verify_chunk(preamble: &Preamble, idx: u32, data: &[u8]) -> (r: Verdict)
    ensures
        r == (if authentic(preamble@, idx as int, data@) {
            Verdict::Accept
        } else {
            Verdict::Reject
        }),
{
    if preamble.num_data < 0 || preamble.num_parity < 0 {
        return Verdict::Reject;
    }
    let total: u32 = match (preamble.num_data as u32).checked_add(preamble.num_parity as u32) {
        Some(t) => t,
        None => {
            return Verdict::Reject;
        },
    };
    if idx >= total || idx as usize >= preamble.hashes.len() {
        return Verdict::Reject;
    }
    let entry: &Vec<u8> = &preamble.hashes[idx as usize];
    assert(preamble@.hashes[idx as int] == entry@);
    if entry.len() != HASH_LEN {
        return Verdict::Reject;
    }
    let computed = hash::sha256_digest(data);
    if pb::same_bytes(computed.as_slice(), entry.as_slice()) {
        Verdict::Accept
    } else {
        Verdict::Reject
    }
}

/// In a well-shaped preamble every shard index has a digest of full length.
pub proof fn law_valid_preamble(p: PreambleView)
    requires
        preamble_fault(p) is None,
    ensures
        p.hashes.len() == p.num_data + p.num_parity,
        forall|i: int| 0 <= i < p.hashes.len() ==> (#[trigger] p.hashes[i]).len() == HASH_LEN,
        p.hash.len() == HASH_LEN,
{
    lemma_no_odd_hash(p.hashes, 0);
}

proof fn lemma_no_odd_hash(hashes: Seq<Seq<u8>>, from: int)
    requires
        odd_hash(hashes, from) is None,
        0 <= from,
    ensures
        forall|i: int| from <= i < hashes.len() ==> (#[trigger] hashes[i]).len() == HASH_LEN,
    decreases hashes.len() - from,
{
    if from < hashes.len() {
        lemma_no_odd_hash(hashes, from + 1);
    }
}

/// A list of full-length digests has no odd entry.
pub(crate) proof fn lemma_even_hashes(hashes: Seq<Seq<u8>>, from: int)
    requires
        forall|i: int| 0 <= i < hashes.len() ==> (#[trigger] hashes[i]).len() == HASH_LEN,
        0 <= from,
    ensures
        odd_hash(hashes, from) is None,
    decreases hashes.len() - from,
{
    if from < hashes.len() {
        lemma_even_hashes(hashes, from + 1);
    }
}

/// A preamble is well shaped exactly when no number in it is negative, there
/// is a digest of 32 bytes for every shard, and one for the message.
pub proof fn law_shape_is_judged(p: PreambleView)
    ensures
        preamble_fault(p) is None <==> {
            &&& p.num_data >= 0 && p.num_parity >= 0 && p.length >= 0
            &&& p.hashes.len() == p.num_data + p.num_parity
            &&& forall|i: int| 0 <= i < p.hashes.len() ==> (#[trigger] p.hashes[i]).len() == 32
            &&& p.hash.len() == 32
        },
{
    if preamble_fault(p) is None {
        law_valid_preamble(p);
    }
    if forall|i: int| 0 <= i < p.hashes.len() ==> (#[trigger] p.hashes[i]).len() == 32 {
        lemma_even_hashes(p.hashes, 0);
    }
}

/// What is wrong with a preamble is told: counts before the length, that
/// before the number of digests, that before the first digest of another
/// length than 32 bytes, and that before the digest of the message.
pub proof fn law_first_fault_of_shape_is_told(p: PreambleView, i: int)
    requires
        p.hashes.len() <= u32::MAX,
    ensures
        p.num_data < 0 || p.num_parity < 0 ==> preamble_fault(p) == Some(
            PreambleError::NegativeShardCount { num_data: p.num_data, num_parity: p.num_parity },
        ),
        p.num_data >= 0 && p.num_parity >= 0 && p.length < 0 ==> preamble_fault(p) == Some(
            PreambleError::NegativeLength { length: p.length },
        ),
        p.num_data >= 0 && p.num_parity >= 0 && p.length >= 0 && p.hashes.len() != p.num_data
            + p.num_parity ==> preamble_fault(p) == Some(
            PreambleError::HashCountMismatch {
                hashes: p.hashes.len() as usize,
                expected: (p.num_data + p.num_parity) as u32,
            },
        ),
        p.num_data >= 0 && p.num_parity >= 0 && p.length >= 0 && p.hashes.len() == p.num_data
            + p.num_parity && 0 <= i < p.hashes.len() && p.hashes[i].len() != 32 && (forall|j: int|
            0 <= j < i ==> (#[trigger] p.hashes[j]).len() == 32) ==> preamble_fault(p) == Some(
            PreambleError::HashLengthInvalid { idx: i as usize, len: p.hashes[i].len() as usize },
        ),
        p.num_data >= 0 && p.num_parity >= 0 && p.length >= 0 && p.hashes.len() == p.num_data
            + p.num_parity && p.hash.len() != 32 && (forall|j: int|
            0 <= j < p.hashes.len() ==> (#[trigger] p.hashes[j]).len() == 32) ==> preamble_fault(p)
            == Some(PreambleError::MessageHashLengthInvalid { len: p.hash.len() as usize }),
{
    if 0 <= i < p.hashes.len() && p.hashes[i].len() != 32 && (forall|j: int|
        0 <= j < i ==> (#[trigger] p.hashes[j]).len() == 32) {
        lemma_first_odd(p.hashes, 0, i);
    }
    if forall|j: int| 0 <= j < p.hashes.len() ==> (#[trigger] p.hashes[j]).len() == 32 {
        lemma_even_hashes(p.hashes, 0);
    }
}

proof fn lemma_first_odd(hashes: Seq<Seq<u8>>, from: int, i: int)
    requires
        0 <= from <= i < hashes.len(),
        hashes[i].len() != 32,
        forall|j: int| 0 <= j < i ==> (#[trigger] hashes[j]).len() == 32,
    ensures
        odd_hash(hashes, from) == Some(i),
    decreases i - from,
{
    if from < i {
        lemma_first_odd(hashes, from + 1, i);
    }
}

/// Under a well-shaped preamble a chunk is the announced one exactly when
/// there is a shard of its index and its digest is the one listed for it.
pub proof fn law_digest_decides(p: PreambleView, idx: int, data: Seq<u8>)
    requires
        preamble_fault(p) is None,
        0 <= idx,
    ensures
        authentic(p, idx, data) <==> idx < p.hashes.len() && p.hashes[idx] == hash::sha256(data),
{
    law_valid_preamble(p);
}

} // verus!
