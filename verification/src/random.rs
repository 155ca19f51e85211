//! The pseudo-random source of the stochastic search, and the draws made from it.

use rand::rngs::StdRng;
use rand::seq::SliceRandom;
use rand::{Rng, SeedableRng};
use vstd::prelude::*;

verus! {

/// `rand::rngs::StdRng`, the generator that the searches draw from; nothing
/// inside it is visible to the proofs.
#[verifier::external_type_specification]
#[verifier::external_body]
pub struct ExStdRng(StdRng);

/// Calls `Rng::gen_range(0, high)`, which draws a number from `0` up to, and
/// not including, `high`. Nothing but that range is claimed of the number.
#[verifier::external_body]
pub(crate) fn below(rng: &mut StdRng, high: usize) -> (r: usize)
    requires
        high > 0,
    ensures
        r < high,
{
    rng.gen_range(0, high)
}

/// Calls `SliceRandom::shuffle`, which rearranges a slice in place by swaps:
/// afterwards it holds the same items, each as often as before.
#[verifier::external_body]
pub(crate) fn shuffle(items: &mut Vec<u8>, rng: &mut StdRng)
    ensures
        final(items)@.to_multiset() == old(items)@.to_multiset(),
{
    items.shuffle(rng)
}

/// Calls `SeedableRng::seed_from_u64`, which makes a generator from a seed.
/// Nothing is claimed of the generator.
#[verifier::external_body]
pub(crate) fn seeded(seed: u64) -> (r: StdRng) {
    StdRng::seed_from_u64(seed)
}

} // verus!
