//! Random nonces and ballast for the packet transform.

use vstd::prelude::*;
use rand::rngs::SmallRng;
use crate::randomiser::fill_random;

verus! {

/// Draws a fresh 12-byte nonce.
pub fn fill_nonce(nonce: &mut [u8; 12], rng: &mut SmallRng) {
    fill_random(nonce, rng);
}

/// Fills `buf` with random ballast.
pub fn fill_ballast(buf: &mut [u8], rng: &mut SmallRng)
    ensures
        final(buf)@.len() == old(buf)@.len(),
{
    fill_random(buf, rng);
}

} // verus!
