use rand::seq::SliceRandom;
use rand::Rng;
use vstd::prelude::*;

verus! {

/// Relies on `rand::Rng::gen_range` on the thread-local generator: for a
/// non-empty range `0..bound` it returns a value in that range (it panics only
/// on an empty range).
#[verifier::external_body]
pub(crate) fn random_below(bound: usize) -> (r: usize)
    requires
        bound > 0,
    ensures
        r < bound,
{
    rand::thread_rng().gen_range(0..bound)
}

/// Relies on `rand::seq::SliceRandom::shuffle` on the thread-local generator:
/// it only swaps elements of the slice, so the result is a permutation.
#[verifier::external_body]
pub(crate) fn shuffle_in_place(cards: &mut Vec<u8>)
    ensures
        final(cards)@.len() == old(cards)@.len(),
        final(cards)@.to_multiset() == old(cards)@.to_multiset(),
{
    cards.as_mut_slice().shuffle(&mut rand::thread_rng())
}

} // verus!
