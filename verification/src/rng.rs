//! Chance, as `rand` hands it out. Nothing is known of what comes back but
//! what holds of every outcome.

use rand::rngs::StdRng;
use rand::{Rng, SeedableRng};
use vstd::prelude::*;

verus! {

/// The standard generator of `rand`.
#[verifier::external_type_specification]
#[verifier::external_body]
pub struct ExStdRng(StdRng);

/// `rand::random` for a `u64`: some number.
#[verifier::external_body]
pub(crate) fn random_seed() -> (seed: u64) {
    rand::random()
}

/// `SeedableRng::seed_from_u64` for the standard generator.
#[verifier::external_body]
pub(crate) fn seeded_rng(seed: u64) -> (rng: StdRng) {
    StdRng::seed_from_u64(seed)
}

/// `Rng::gen_range` over `0..bound`: some index below the bound. The range
/// must not be empty.
#[verifier::external_body]
pub(crate) fn random_below(rng: &mut StdRng, bound: usize) -> (index: usize)
    requires
        bound > 0,
    ensures
        index < bound,
{
    rng.gen_range(0..bound)
}

/// `Rng::gen_ratio` with one in two: heads or tails.
#[verifier::external_body]
pub(crate) fn coin_flip(rng: &mut StdRng) -> (heads: bool) {
    rng.gen_ratio(1, 2)
}

} // verus!
