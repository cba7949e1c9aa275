//! A tiny non-cryptographic random source, used only where the goal is to
//! avoid collisions or lockstep: the jitter of retries and multipart
//! boundaries.

use crate::platform;
use std::hash::Hasher;
use vstd::prelude::*;

verus! {

/// A number that hardly ever comes twice: the seeds of the hasher that it
/// comes from are random, so nothing is known of its value.
pub fn next_u64() -> u64 {
    let mut hasher = platform::seeded_hasher();
    let now = platform::unix_nanos();
    let nanos: u128 = if now > 0 {
        now as u128
    } else {
        0
    };
    platform::hash_u128(&mut hasher, nanos);
    hasher.finish()
}

} // verus!
