//! The random source of the genetic search: rand's seedable standard
//! generator.
use rand::rngs::StdRng;
use rand::seq::SliceRandom;
use rand::{Rng, SeedableRng};
use vstd::prelude::*;

verus! {

#[verifier::external_type_specification]
#[verifier::external_body]
pub struct ExStdRng(StdRng);

/// Relies on `rand::SeedableRng::seed_from_u64`: a generator whose draws are
/// fixed by the seed.
#[verifier::external_body]
pub(crate) fn seeded(seed: u64) -> StdRng {
    StdRng::seed_from_u64(seed)
}

/// Relies on `rand::Rng::gen_range` over `0..n`: a value below `n` (it
/// panics on an empty range, which `n > 0` rules out).
#[verifier::external_body]
pub(crate) fn below(rng: &mut StdRng, n: u64) -> (r: u64)
    requires
        n > 0,
    ensures
        r < n,
{
    rng.gen_range(0..n)
}

/// Relies on `rand::seq::SliceRandom::shuffle`: the elements are put in a
/// random order, none added or lost.
#[verifier::external_body]
pub(crate) fn shuffle(rng: &mut StdRng, v: &mut Vec<usize>)
    ensures
        final(v)@.to_multiset() == old(v)@.to_multiset(),
{
    v.shuffle(rng)
}

} // verus!
