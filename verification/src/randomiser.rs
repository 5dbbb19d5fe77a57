//! The random source of a worker: seeding, and filling buffers with random
//! bytes.

use vstd::prelude::*;
use rand::rngs::SmallRng;
use rand::{Rng, RngCore, SeedableRng};

verus! {

/// `rand::rngs::SmallRng`, carried through as an opaque value.
#[verifier::external_type_specification]
#[verifier::external_body]
pub struct ExSmallRng(SmallRng);

/// Circular left rotation of a 64-bit word by 13 bits.
pub open spec fn rotl13(x: u64) -> u64 {
    (x << 13) | (x >> 51)
}

/// Circular right rotation of a 64-bit word by 7 bits.
pub open spec fn rotr7(x: u64) -> u64 {
    (x >> 7) | (x << 57)
}

/// The seed mixed from the clock, the process id and extra noise.
pub open spec fn mix_seed_spec(now: u64, pid: u64, noise: u64) -> u64 {
    now ^ rotl13(pid) ^ rotr7(noise)
}

/// Mixes the clock, the process id and extra noise into one seed.
pub fn mix_seed(now: u64, pid: u64, noise: u64) -> (seed: u64)
    ensures
        seed == mix_seed_spec(now, pid, noise),
{
    now ^ ((pid << 13) | (pid >> 51)) ^ ((noise >> 7) | (noise << 57))
}

/// Calls `SmallRng::seed_from_u64`. Nothing is claimed of the generator
/// that comes back.
#[verifier::external_body]
fn small_rng_from_seed(seed: u64) -> SmallRng {
    SmallRng::seed_from_u64(seed)
}

/// Makes the generator of a worker from the clock, the process id and
/// extra noise, mixed by `mix_seed`.
pub fn rng_from_entropy(now: u64, pid: u64, noise: u64) -> SmallRng {
    small_rng_from_seed(mix_seed(now, pid, noise))
}

/// Calls `RngCore::fill_bytes` of `SmallRng` on `buf[start..end]`. The
/// claim: the buffer keeps its length, and the bytes outside the range
/// stay as they were. Nothing is claimed of the bytes inside it.
#[verifier::external_body]
pub(crate) fn fill_random_range(buf: &mut [u8], start: usize, end: usize, rng: &mut SmallRng)
    requires
        start <= end <= old(buf)@.len(),
    ensures
        final(buf)@.len() == old(buf)@.len(),
        forall|i: int|
            0 <= i < start || end <= i < old(buf)@.len() ==> final(buf)@[i] == old(buf)@[i],
{
    rng.fill_bytes(&mut buf[start..end]);
}

/// Calls `Rng::random_range` of `SmallRng` on `low..=high`. The claim: the
/// value lies in the range. The call panics on an empty range, which the
/// precondition leaves out.
#[verifier::external_body]
pub(crate) fn random_in_range(rng: &mut SmallRng, low: usize, high: usize) -> (value: usize)
    requires
        low <= high,
    ensures
        low <= value <= high,
{
    rng.random_range(low..=high)
}

/// Calls `Rng::random_range` of the thread-local generator `rand::rng()` on
/// `low..=high`. The claim: the value lies in the range. The call panics on
/// an empty range, which the precondition leaves out.
#[verifier::external_body]
pub(crate) fn thread_random_in_range(low: u64, high: u64) -> (value: u64)
    requires
        low <= high,
    ensures
        low <= value <= high,
{
    rand::rng().random_range(low..=high)
}

/// Fills `buf` with random bytes.
pub fn fill_random(buf: &mut [u8], rng: &mut SmallRng)
    ensures
        final(buf)@.len() == old(buf)@.len(),
{
    let len = buf.len();
    fill_random_range(buf, 0, len, rng);
}

} // verus!
