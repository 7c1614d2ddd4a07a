//! The random choices of the generator, drawn from a seeded generator of `rand`.

use vstd::prelude::*;
use rand::rngs::SmallRng;
use rand::seq::SliceRandom;
use rand::{Rng, SeedableRng};

verus! {

/// The small, fast generator of `rand`, seeded by the caller.
#[verifier::external_type_specification]
#[verifier::external_body]
pub struct ExSmallRng(SmallRng);

/// Relies on `SeedableRng::seed_from_u64` for `SmallRng`: a generator whose
/// stream is fixed by the seed.
#[verifier::external_body]
pub(crate) fn seeded_rng(seed: u64) -> (rng: SmallRng) {
    SmallRng::seed_from_u64(seed)
}

/// Relies on `SliceRandom::shuffle`: it only swaps elements, so the result is a
/// permutation of the input.
#[verifier::external_body]
pub(crate) fn shuffle_pairs(v: &mut Vec<(usize, usize)>, rng: &mut SmallRng)
    ensures
        final(v)@.to_multiset() == old(v)@.to_multiset(),
        final(v)@.len() == old(v)@.len(),
{
    v.shuffle(rng)
}

/// Relies on `Rng::gen_ratio(1, 2)`: a fair coin.
#[verifier::external_body]
pub(crate) fn coin(rng: &mut SmallRng) -> (heads: bool) {
    rng.gen_ratio(1, 2)
}

} // verus!
