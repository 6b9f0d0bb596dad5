use vstd::prelude::*;
use rand::rngs::StdRng;
use rand::seq::SliceRandom;
use rand::{Rng, SeedableRng};

verus! {

/// The seedable pseudo-random generator of the `rand` crate.
#[verifier::external_type_specification]
#[verifier::external_body]
pub struct ExStdRng(StdRng);

/// `StdRng::seed_from_u64`: a generator whose stream is fixed by `seed`.
/// Nothing is stated of the generator, which Verus sees as opaque.
#[verifier::external_body]
pub(crate) fn seeded_rng(seed: u64) -> StdRng {
    StdRng::seed_from_u64(seed)
}

/// `Rng::gen_range(lo..=hi)` on `u64`: a value drawn from `lo..=hi`. The
/// range must not be empty (the call panics on an empty range). Which value
/// comes out depends on the state of the generator and is not stated.
#[verifier::external_body]
pub(crate) fn draw_inclusive_u64(rng: &mut StdRng, lo: u64, hi: u64) -> (r: u64)
    requires
        lo <= hi,
    ensures
        lo <= r <= hi,
{
    rng.gen_range(lo..=hi)
}

/// `Rng::gen_range(lo..=hi)` on `usize`: a value drawn from `lo..=hi`. The
/// range must not be empty (the call panics on an empty range). Which value
/// comes out depends on the state of the generator and is not stated.
#[verifier::external_body]
pub(crate) fn draw_inclusive_usize(rng: &mut StdRng, lo: usize, hi: usize) -> (r: usize)
    requires
        lo <= hi,
    ensures
        lo <= r <= hi,
{
    rng.gen_range(lo..=hi)
}

/// `Rng::gen_range(lo..hi)` on `usize`: a value drawn from `lo..hi`. The
/// range must not be empty (the call panics on an empty range). Which value
/// comes out depends on the state of the generator and is not stated.
#[verifier::external_body]
pub(crate) fn draw_below_usize(rng: &mut StdRng, lo: usize, hi: usize) -> (r: usize)
    requires
        lo < hi,
    ensures
        lo <= r < hi,
{
    rng.gen_range(lo..hi)
}

/// `SliceRandom::shuffle` on a vector of `usize`: the items are permuted in
/// place (by swaps), so the same items come back, each as often as before.
/// Which order comes out depends on the state of the generator and is not
/// stated.
#[verifier::external_body]
pub(crate) fn shuffle_usizes(rng: &mut StdRng, items: &mut Vec<usize>)
    ensures
        final(items)@.len() == old(items)@.len(),
        final(items)@.to_multiset() == old(items)@.to_multiset(),
{
    items.shuffle(rng);
}

} // verus!
