//! Random sampling, behind trusted wrappers around the `rand` crate.
//!
//! Nothing can be promised of which value a draw yields, so every contract
//! here states only what holds of every outcome.

use vstd::prelude::*;

verus! {

/// Relies on `rand::Rng::gen_range` over `0..n`: the drawn index is below
/// `n`. The call panics on an empty range, which the precondition excludes.
#[verifier::external_body]
pub fn rand_index(n: usize) -> (r: usize)
    requires
        n > 0,
    ensures
        r < n,
{
    rand::Rng::gen_range(&mut rand::thread_rng(), 0..n)
}

/// Relies on `rand::seq::SliceRandom::shuffle`: the slice is permuted in
/// place, so it holds the same elements with the same multiplicities.
#[verifier::external_body]
pub fn shuffle_indices(v: &mut Vec<usize>)
    ensures
        final(v)@.to_multiset() == old(v)@.to_multiset(),
        final(v)@.len() == old(v)@.len(),
{
    rand::seq::SliceRandom::shuffle(v.as_mut_slice(), &mut rand::thread_rng());
}

} // verus!
