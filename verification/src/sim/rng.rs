//! Draws from a seeded stream of random numbers.
//!
//! The stream is that of `ChaCha8Rng` for the seed. A draw starts at a
//! position in it, counted in 32-bit words, and ends at another.

use rand::{Rng, SeedableRng};
use rand_chacha::ChaCha8Rng;
use vstd::prelude::*;

verus! {

/// The 64-bit number at a position of the seed's stream, and the position
/// behind it.
pub uninterp spec fn chacha_word(seed: u64, pos: u128) -> (u64, u128);

/// The number from 0 to `max` drawn at a position of the seed's stream, and
/// the position behind the draw.
pub uninterp spec fn chacha_range(seed: u64, pos: u128, max: u64) -> (u64, u128);

/// `rand::Rng::random::<u64>` on `rand_chacha::ChaCha8Rng`, seeded with
/// `seed_from_u64` and set to `pos` with `set_word_pos`: the result and the
/// position that `get_word_pos` gives afterwards depend on seed and position
/// alone.
#[verifier::external_body]
pub(crate) fn draw_word(seed: u64, pos: u128) -> (r: (u64, u128))
    ensures
        r == chacha_word(seed, pos),
{
    let mut rng = ChaCha8Rng::seed_from_u64(seed);
    rng.set_word_pos(pos);
    let value: u64 = rng.random();
    (value, rng.get_word_pos())
}

/// `rand::Rng::random_range` with `0..=max` on the same generator: the
/// result, which is in that range, and the position afterwards depend on
/// seed, position and `max` alone.
#[verifier::external_body]
pub(crate) fn draw_range(seed: u64, pos: u128, max: u64) -> (r: (u64, u128))
    ensures
        r == chacha_range(seed, pos, max),
        r.0 <= max,
{
    let mut rng = ChaCha8Rng::seed_from_u64(seed);
    rng.set_word_pos(pos);
    let value: u64 = rng.random_range(0..=max);
    (value, rng.get_word_pos())
}

} // verus!
