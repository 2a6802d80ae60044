use rand::{Rng, SeedableRng};
use vstd::prelude::*;

verus! {

#[verifier::external_type_specification]
#[verifier::external_body]
pub struct ExSmallRng(rand::rngs::SmallRng);

/// The engine's random capability: uniform index selection and uniform
/// integer selection in a range, backed by a seedable generator. A fixed
/// seed gives a reproducible stream, so sampling with a fixed seed is
/// reproducible as well.
pub struct RandomSource {
    inner: rand::rngs::SmallRng,
}

impl RandomSource {
    /// Relies on rand's `SeedableRng::seed_from_u64`: constructs a generator
    /// from the seed; the same seed always yields the same stream.
    #[verifier::external_body]
    pub fn from_seed(seed: u64) -> RandomSource {
        RandomSource { inner: rand::rngs::SmallRng::seed_from_u64(seed) }
    }

    /// Relies on rand's `Rng::gen_range` over `0..n`, which returns a value
    /// of that range and panics only on an empty range.
    #[verifier::external_body]
    pub fn next_index(&mut self, n: usize) -> (r: usize)
        requires
            n >= 1,
        ensures
            r < n,
    {
        self.inner.gen_range(0..n)
    }

    /// Relies on rand's `Rng::gen_range` over `lo..=hi`, which returns a
    /// value of that range and panics only on an empty range.
    #[verifier::external_body]
    pub fn next_between(&mut self, lo: i64, hi: i64) -> (r: i64)
        requires
            lo <= hi,
        ensures
            lo <= r <= hi,
    {
        self.inner.gen_range(lo..=hi)
    }
}

} // verus!
