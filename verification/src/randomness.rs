//! An explicitly seeded random source, handed to every randomized strategy.
//!
//! All randomness of the crate flows through `RandomSource`, so a simulation
//! run is reproducible from its seed alone.  The generator itself comes from
//! the `rand` crate; nothing is assumed of the values it produces beyond the
//! ranges stated on the wrappers below.

use vstd::prelude::*;

verus! {

#[verifier::external_type_specification]
#[verifier::external_body]
pub struct ExStdRng(rand::rngs::StdRng);

/// An owned, seedable source of randomness.
pub struct RandomSource {
    rng: rand::rngs::StdRng,
}

impl RandomSource {
    /// Relies on rand::rngs::StdRng::seed_from_u64: builds a generator whose
    /// whole stream is determined by `seed`.
    #[verifier::external_body]
    pub fn from_seed(seed: u64) -> RandomSource {
        RandomSource { rng: <rand::rngs::StdRng as rand::SeedableRng>::seed_from_u64(seed) }
    }

    /// Relies on rand::Rng::gen_range over `0..n`: returns a value of the
    /// range, and panics only when the range is empty, which the
    /// precondition rules out.
    #[verifier::external_body]
    pub fn next_below(&mut self, n: usize) -> (r: usize)
        requires
            n >= 1,
        ensures
            r < n,
    {
        rand::Rng::gen_range(&mut self.rng, 0..n)
    }

    /// Relies on rand::seq::SliceRandom::shuffle: reorders the slice in
    /// place by swaps, so the multiset of elements is unchanged.
    #[verifier::external_body]
    pub fn shuffle(&mut self, items: &mut Vec<usize>)
        ensures
            final(items)@.len() == old(items)@.len(),
            final(items)@.to_multiset() == old(items)@.to_multiset(),
    {
        rand::seq::SliceRandom::shuffle(items.as_mut_slice(), &mut self.rng)
    }
}

} // verus!
