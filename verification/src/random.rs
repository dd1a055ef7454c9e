//! A seedable source of random integers.
//!
//! Random sampling (of coordinates, mutation factors and mutation sites) is
//! drawn from an explicit, injectable generator, so that a run can be made
//! reproducible by fixing the seed. Nothing is assumed of a drawn value beyond
//! its range: to the verifier every draw is an arbitrary value of the range.

use vstd::prelude::*;

verus! {

#[verifier::external_type_specification]
#[verifier::external_body]
pub struct ExStdRng(rand::rngs::StdRng);

/// A deterministic pseudo-random generator behind all sampling of the library.
pub struct RandomSource {
    rng: rand::rngs::StdRng,
}

impl RandomSource {
    /// Relies on `rand::rngs::StdRng` via `rand::SeedableRng::seed_from_u64`:
    /// builds a generator whose stream of draws is determined by `seed`.
    #[verifier::external_body]
    pub fn from_seed(seed: u64) -> (r: RandomSource) {
        RandomSource { rng: rand::SeedableRng::seed_from_u64(seed) }
    }

    /// Relies on `rand::Rng::gen_range` over `lo..hi`: a uniformly drawn
    /// value of the non-empty half-open range (it panics on an empty range,
    /// which the precondition rules out).
    #[verifier::external_body]
    pub fn gen_i64(&mut self, lo: i64, hi: i64) -> (r: i64)
        requires
            lo < hi,
        ensures
            lo <= r < hi,
    {
        rand::Rng::gen_range(&mut self.rng, lo..hi)
    }

    /// Relies on `rand::Rng::gen_range` over `lo..hi`: a uniformly drawn
    /// value of the non-empty half-open range (it panics on an empty range,
    /// which the precondition rules out).
    #[verifier::external_body]
    pub fn gen_usize(&mut self, lo: usize, hi: usize) -> (r: usize)
        requires
            lo < hi,
        ensures
            lo <= r < hi,
    {
        rand::Rng::gen_range(&mut self.rng, lo..hi)
    }
}

} // verus!
