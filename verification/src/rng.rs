//! The level's deterministic random generator, carried behind rand's
//! `StdRng`. Every draw the simulation makes goes through the wrappers
//! here; the contracts state only what holds of every outcome, so the
//! logic above them is verified for every possible draw.

use vstd::prelude::*;

verus! {

/// Declares rand's standard generator so it can stand in fields and
/// signatures; its state stays opaque to verification.
#[verifier::external_type_specification]
#[verifier::external_body]
pub struct ExStdRng(rand::rngs::StdRng);

/// Relies on rand's `SeedableRng::from_seed` for `StdRng`: constructs the
/// generator deterministically from a 32-byte seed, here the four given
/// bytes followed by zeros.
#[verifier::external_body]
pub fn rng_from_seed(b0: u8, b1: u8, b2: u8, b3: u8) -> rand::rngs::StdRng {
    let mut seed = [0u8; 32];
    seed[0] = b0;
    seed[1] = b1;
    seed[2] = b2;
    seed[3] = b3;
    <rand::rngs::StdRng as rand::SeedableRng>::from_seed(seed)
}

/// Relies on rand's `Clone` for `StdRng`: duplicates the generator state,
/// used when a level transition carries the generator forward.
#[verifier::external_body]
pub fn rng_clone(rng: &rand::rngs::StdRng) -> rand::rngs::StdRng {
    rng.clone()
}

/// Relies on rand's `Rng::gen_range` over `low..high`: returns a value of
/// the half-open range, which must be non-empty.
#[verifier::external_body]
pub fn rng_gen_range(rng: &mut rand::rngs::StdRng, low: usize, high: usize) -> (r: usize)
    requires
        low < high,
    ensures
        low <= r < high,
{
    rand::Rng::gen_range(rng, low..high)
}

/// Relies on rand's `SliceRandom::shuffle`: a Fisher-Yates pass that
/// permutes the slice in place, so exactly the old elements remain.
#[verifier::external_body]
pub fn rng_shuffle(rng: &mut rand::rngs::StdRng, v: &mut Vec<usize>)
    ensures
        final(v)@.to_multiset() == old(v)@.to_multiset(),
        final(v)@.len() == old(v)@.len(),
{
    rand::seq::SliceRandom::shuffle(v.as_mut_slice(), rng)
}

} // verus!
