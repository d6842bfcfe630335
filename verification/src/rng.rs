//! The randomness that shuffling and resampling draw on: a seeded
//! deterministic generator and the operations the library needs from it,
//! each stating only what the generator's source shows of every outcome.

use vstd::prelude::*;

use rand::rngs::StdRng;

verus! {

#[verifier::external_type_specification]
#[verifier::external_body]
pub struct ExStdRng(StdRng);

/// Relies on rand's `SeedableRng::seed_from_u64` for `StdRng`: a generator
/// built deterministically from the seed.
#[verifier::external_body]
pub(crate) fn rng_from_seed(seed: u64) -> StdRng {
    rand::SeedableRng::seed_from_u64(seed)
}

/// Relies on rand's `RngCore::next_u64`: one draw from the generator.
/// Nothing is promised of the value.
#[verifier::external_body]
pub(crate) fn rng_next_u64(rng: &mut StdRng) -> u64 {
    rand::RngCore::next_u64(rng)
}

/// Relies on rand's `SliceRandom::shuffle`: a Fisher-Yates pass that only
/// swaps elements in place, so the length and the multiset of elements are
/// unchanged, whatever order comes out.
#[verifier::external_body]
pub(crate) fn shuffle<T>(v: &mut Vec<T>, rng: &mut StdRng)
    ensures
        final(v)@.to_multiset() == old(v)@.to_multiset(),
        final(v)@.len() == old(v)@.len(),
{
    rand::seq::SliceRandom::shuffle(v.as_mut_slice(), rng);
}

} // verus!
