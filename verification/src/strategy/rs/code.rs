//! The Reed-Solomon code over GF(2^8).

use reed_solomon_erasure::galois_8::ReedSolomon;
use reed_solomon_erasure::Error;
use vstd::prelude::*;

use crate::pb;

verus! {

/// Reasons for which the code refuses its parameters or its shards.
#[derive(Debug, Clone, Copy, PartialEq, Eq, Structural)]
pub enum RsError {
    TooFewShards,
    TooManyShards,
    TooFewDataShards,
    TooManyDataShards,
    TooFewParityShards,
    TooManyParityShards,
    TooFewBufferShards,
    TooManyBufferShards,
    IncorrectShardSize,
    TooFewShardsPresent,
    EmptyShard,
    InvalidShardFlags,
    InvalidIndex,
}

/// The largest number of shards, data and parity together.
pub const MAX_SHARDS: usize = 256;

/// The parity shards that the code computes for the data shards `data`.
pub uninterp spec fn rs_parity(data: Seq<Seq<u8>>, parity: nat) -> Seq<Seq<u8>>;

/// The data shards that the code restores from `slots`, of which the first
/// `data` are data shards and the others parity shards.
pub uninterp spec fn rs_restored(slots: Seq<Option<Seq<u8>>>, data: nat) -> Seq<Seq<u8>>;

/// Data shards followed by their parity shards.
pub open spec fn codeword(data: Seq<Seq<u8>>, parity: nat) -> Seq<Seq<u8>> {
    data + rs_parity(data, parity)
}

/// Why a code of this shape does not exist, if it does not.
pub open spec fn shape_fault(data: int, parity: int) -> Option<RsError> {
    if data == 0 {
        Some(RsError::TooFewDataShards)
    } else if parity == 0 {
        Some(RsError::TooFewParityShards)
    } else if data + parity > MAX_SHARDS {
        Some(RsError::TooManyShards)
    } else {
        None
    }
}

/// All shards are `len` bytes long.
pub open spec fn uniform(shards: Seq<Seq<u8>>, len: int) -> bool {
    forall|i: int| 0 <= i < shards.len() ==> (#[trigger] shards[i]).len() == len
}

/// Contents of a list of slots.
pub open spec fn slots_of(v: Seq<Option<Vec<u8>>>) -> Seq<Option<Seq<u8>>> {
    v.map_values(|s: Option<Vec<u8>>| slot_of(s))
}

/// Contents of a slot.
pub open spec fn slot_of(s: Option<Vec<u8>>) -> Option<Seq<u8>> {
    match s {
        Some(b) => Some(b@),
        None => None,
    }
}

/// How many slots are filled.
pub open spec fn filled(slots: Seq<Option<Seq<u8>>>) -> nat
    decreases slots.len(),
{
    if slots.len() == 0 {
        0
    } else {
        filled(slots.drop_last()) + (if slots.last() is Some {
            1nat
        } else {
            0nat
        })
    }
}

/// Filling a slot adds one to the number of filled slots, unless it was
/// filled.
pub(crate) proof fn lemma_filled_update(slots: Seq<Option<Seq<u8>>>, at: int, s: Seq<u8>)
    requires
        0 <= at < slots.len(),
    ensures
        filled(slots.update(at, Some(s))) == filled(slots) + (if slots[at] is Some {
            0nat
        } else {
            1nat
        }),
    decreases slots.len(),
{
    let now = slots.update(at, Some(s));
    if at == slots.len() - 1 {
        assert(now.drop_last() =~= slots.drop_last());
    } else {
        assert(now.drop_last() =~= slots.drop_last().update(at, Some(s)));
        lemma_filled_update(slots.drop_last(), at, s);
    }
}

pub(crate) proof fn lemma_none_filled(slots: Seq<Option<Seq<u8>>>)
    requires
        forall|i: int| 0 <= i < slots.len() ==> #[trigger] slots[i] is None,
    ensures
        filled(slots) == 0,
    decreases slots.len(),
{
    if slots.len() > 0 {
        lemma_none_filled(slots.drop_last());
    }
}

pub(crate) proof fn lemma_filled_at_most(slots: Seq<Option<Seq<u8>>>)
    ensures
        filled(slots) <= slots.len(),
    decreases slots.len(),
{
    if slots.len() > 0 {
        lemma_filled_at_most(slots.drop_last());
    }
}

/// Length of the shards in the filled slots, of which there is one at least.
pub open spec fn width(slots: Seq<Option<Seq<u8>>>) -> int {
    let i = choose|i: int| 0 <= i < slots.len() && #[trigger] slots[i] is Some;
    slots[i]->0.len() as int
}

/// Some slot is filled, and all filled slots hold shards of one length.
pub open spec fn even(slots: Seq<Option<Seq<u8>>>) -> bool {
    &&& exists|i: int| 0 <= i < slots.len() && #[trigger] slots[i] is Some
    &&& forall|i: int, j: int|
        0 <= i < slots.len() && 0 <= j < slots.len() && #[trigger] slots[i] is Some && #[trigger] slots[j] is Some
            ==> slots[i]->0.len() == slots[j]->0.len()
}

/// Every filled slot holds the shard of `word` at its place.
pub open spec fn drawn_from(slots: Seq<Option<Seq<u8>>>, word: Seq<Seq<u8>>) -> bool {
    &&& slots.len() == word.len()
    &&& forall|i: int| 0 <= i < slots.len() ==> (#[trigger] slots[i] matches Some(s) ==> s == word[i])
}

/// Why the data shards cannot be restored from `slots`, if they cannot.
pub open spec fn restore_fault(slots: Seq<Option<Seq<u8>>>, data: int, parity: int) -> Option<RsError> {
    if shape_fault(data, parity) is Some {
        shape_fault(data, parity)
    } else if width(slots) == 0 {
        Some(RsError::EmptyShard)
    } else if filled(slots) < data {
        Some(RsError::TooFewShardsPresent)
    } else {
        None
    }
}

/// Calls `ReedSolomon::new` and `ReedSolomon::encode`: fills in the parity
/// shards, which follow the data shards and are overwritten. Refused are
/// shapes without data shards, without parity shards, or of more than
/// [`MAX_SHARDS`] shards, for the first of these that holds.
#[verifier::external_body]
pub(crate) fn fill_parity(data: usize, parity: usize, shards: &mut Vec<Vec<u8>>) -> (r: Result<(), RsError>)
    requires
        data + parity <= usize::MAX,
        old(shards)@.len() == data + parity,
        old(shards)@.len() > 0,
        old(shards)@[0]@.len() > 0,
        uniform(pb::contents(old(shards)@), old(shards)@[0]@.len() as int),
    ensures
        match r {
            Ok(()) => {
                let input = pb::contents(old(shards)@).take(data as int);
                &&& shape_fault(data as int, parity as int) is None
                &&& pb::contents(final(shards)@) == input + rs_parity(input, parity as nat)
                &&& final(shards)@.len() == data + parity
                &&& uniform(pb::contents(final(shards)@), old(shards)@[0]@.len() as int)
            },
            Err(e) => shape_fault(data as int, parity as int) == Some(e),
        },
{
    ReedSolomon::new(data, parity).and_then(|code| code.encode(shards)).map_err(|e| match e {
        Error::TooFewShards => RsError::TooFewShards,
        Error::TooManyShards => RsError::TooManyShards,
        Error::TooFewDataShards => RsError::TooFewDataShards,
        Error::TooManyDataShards => RsError::TooManyDataShards,
        Error::TooFewParityShards => RsError::TooFewParityShards,
        Error::TooManyParityShards => RsError::TooManyParityShards,
        Error::TooFewBufferShards => RsError::TooFewBufferShards,
        Error::TooManyBufferShards => RsError::TooManyBufferShards,
        Error::IncorrectShardSize => RsError::IncorrectShardSize,
        Error::TooFewShardsPresent => RsError::TooFewShardsPresent,
        Error::EmptyShard => RsError::EmptyShard,
        Error::InvalidShardFlags => RsError::InvalidShardFlags,
        Error::InvalidIndex => RsError::InvalidIndex,
    })
}

/// Calls `ReedSolomon::new` and `ReedSolomon::reconstruct_data`: fills the
/// data slots that are empty and leaves filled data slots as they are.
/// Refused are the shapes that [`fill_parity`] refuses, then empty shards,
/// then fewer filled slots than data shards. The code is such that whatever
/// slots are filled, if they agree with some codeword, then the data shards
/// of that codeword come back.
#[verifier::external_body]
pub(crate) fn restore_data(data: usize, parity: usize, slots: &mut Vec<Option<Vec<u8>>>) -> (r: Result<(), RsError>)
    requires
        data + parity <= usize::MAX,
        old(slots)@.len() == data + parity,
        even(slots_of(old(slots)@)),
    ensures
        match r {
            Ok(()) => {
                let before = slots_of(old(slots)@);
                let restored = rs_restored(before, data as nat);
                &&& restore_fault(before, data as int, parity as int) is None
                &&& restored.len() == data
                &&& uniform(restored, width(before))
                &&& forall|i: int|
                    0 <= i < data ==> (#[trigger] before[i] matches Some(s) ==> restored[i] == s)
                &&& final(slots)@.len() == data + parity
                &&& slots_of(final(slots)@).take(data as int) == restored.map_values(|s: Seq<u8>| Some(s))
                &&& forall|word: Seq<Seq<u8>>|
                    word.len() == data && #[trigger] uniform(word, width(before)) && drawn_from(
                        before,
                        word + rs_parity(word, parity as nat),
                    ) ==> restored == word
            },
            Err(e) => restore_fault(slots_of(old(slots)@), data as int, parity as int) == Some(e),
        },
{
    ReedSolomon::new(data, parity).and_then(|code| code.reconstruct_data(slots)).map_err(|e| match e {
        Error::TooFewShards => RsError::TooFewShards,
        Error::TooManyShards => RsError::TooManyShards,
        Error::TooFewDataShards => RsError::TooFewDataShards,
        Error::TooManyDataShards => RsError::TooManyDataShards,
        Error::TooFewParityShards => RsError::TooFewParityShards,
        Error::TooManyParityShards => RsError::TooManyParityShards,
        Error::TooFewBufferShards => RsError::TooFewBufferShards,
        Error::TooManyBufferShards => RsError::TooManyBufferShards,
        Error::IncorrectShardSize => RsError::IncorrectShardSize,
        Error::TooFewShardsPresent => RsError::TooFewShardsPresent,
        Error::EmptyShard => RsError::EmptyShard,
        Error::InvalidShardFlags => RsError::InvalidShardFlags,
        Error::InvalidIndex => RsError::InvalidIndex,
    })
}

} // verus!
