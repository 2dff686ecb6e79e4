//! The random source that generators and the shuffle draw from: a seedable
//! generator of the `rand` crate, so that a run can be repeated.
use vstd::prelude::*;

use rand::rngs::StdRng;
use rand::{Rng, SeedableRng};

verus! {

#[verifier::external_type_specification]
#[verifier::external_body]
pub struct ExStdRng(StdRng);

/// Relies on rand_core's SeedableRng::seed_from_u64 for StdRng: a generator
/// whose whole output is fixed by the seed.
#[verifier::external_body]
fn rng_from_seed(seed: u64) -> StdRng {
    StdRng::seed_from_u64(seed)
}

/// Relies on rand's Rng::gen_range with an inclusive `u32` range: a value
/// between the bounds, both included; it panics on an empty range.
#[verifier::external_body]
fn rng_between(rng: &mut StdRng, lo: u32, hi: u32) -> (r: u32)
    requires
        lo <= hi,
    ensures
        lo <= r <= hi,
{
    rng.gen_range(lo..=hi)
}

/// Relies on rand's Rng::gen_range with a half-open `usize` range: a value
/// below the upper bound; it panics on an empty range.
#[verifier::external_body]
fn rng_below(rng: &mut StdRng, len: usize) -> (r: usize)
    requires
        0 < len,
    ensures
        r < len,
{
    rng.gen_range(0..len)
}

/// Relies on rand's Rng::gen for `bool`: either value, with equal chance.
#[verifier::external_body]
fn rng_coin(rng: &mut StdRng) -> bool {
    rng.gen::<bool>()
}

/// A source of random draws, fixed by a seed.
pub struct RandomSource {
    rng: StdRng,
}

impl RandomSource {
    /// A source whose draws are determined by `seed`.
    pub fn seeded(seed: u64) -> (r: Self) {
        RandomSource { rng: rng_from_seed(seed) }
    }

    /// A value drawn uniformly from `lo..=hi`.
    pub fn between(&mut self, lo: u32, hi: u32) -> (r: u32)
        requires
            lo <= hi,
        ensures
            lo <= r <= hi,
    {
        rng_between(&mut self.rng, lo, hi)
    }

    /// An index drawn uniformly from `0..len`.
    pub fn below(&mut self, len: usize) -> (r: usize)
        requires
            0 < len,
        ensures
            r < len,
    {
        rng_below(&mut self.rng, len)
    }

    /// A fair coin.
    pub fn coin(&mut self) -> bool {
        rng_coin(&mut self.rng)
    }
}

} // verus!
