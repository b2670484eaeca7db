//! Reed-Solomon broadcast strategy.

use vstd::prelude::*;

pub mod code;
pub mod decode;
pub mod encode;
pub mod laws;
pub mod planner;
pub mod state;
pub mod verify;

verus! {

/// Length of a SHA-256 digest, in bytes.
pub const HASH_LEN: usize = 32;

} // verus!
