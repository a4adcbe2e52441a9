use vstd::prelude::*;
use rand::Rng;
use rand::seq::SliceRandom;

verus! {

/// Calls `rand::random::<u32>()`: a uniformly random 32-bit integer from the
/// thread-local generator. Nothing is promised of the value.
#[verifier::external_body]
pub(crate) fn random_u32() -> u32 {
    rand::random::<u32>()
}

/// Calls `rand::random::<usize>()`: a uniformly random `usize` from the
/// thread-local generator. Nothing is promised of the value.
#[verifier::external_body]
pub(crate) fn random_usize() -> usize {
    rand::random::<usize>()
}

/// Calls `rand::thread_rng().gen_range(0..n)`, which samples the half-open
/// range `0..n` and panics when it is empty; the contract claims only that
/// the value lies in the range.
#[verifier::external_body]
pub(crate) fn gen_index(n: usize) -> (r: usize)
    requires
        n > 0,
    ensures
        r < n,
{
    rand::thread_rng().gen_range(0..n)
}

/// Calls `SliceRandom::shuffle` on `v` with the thread-local generator. The
/// shuffle only swaps elements (Fisher–Yates), so the result is a
/// permutation of `v`; which one is left open.
#[verifier::external_body]
pub(crate) fn shuffle(v: &mut Vec<usize>)
    ensures
        final(v)@.len() == old(v)@.len(),
        final(v)@.to_multiset() == old(v)@.to_multiset(),
{
    v.shuffle(&mut rand::thread_rng());
}

} // verus!
