//! The random source and the two calls that the shuffle makes into it.

use rand::rngs::StdRng;
use rand::seq::SliceRandom;
use rand::Rng;
use vstd::prelude::*;

verus! {

/// The generator of `rand` that both stages draw from. Nothing is known of its
/// state: a draw may return any value of the range it was asked for.
#[verifier::external_type_specification]
#[verifier::external_body]
pub struct ExStdRng(rand::rngs::StdRng);

/// Calls `Rng::gen_range` with the range `0..bound`. `rand` panics on an empty
/// range, which `bound > 0` excludes, and otherwise samples the half-open
/// range: the contract claims that the value lies below `bound`, nothing more.
#[verifier::external_body]
pub(crate) fn draw_below(rng: &mut StdRng, bound: usize) -> (k: usize)
    requires
        bound > 0,
    ensures
        k < bound,
{
    rng.gen_range(0..bound)
}

/// Calls `SliceRandom::shuffle` on the vector. `rand` permutes a slice by
/// swapping pairs of its elements, so the contract claims that the values and
/// their counts stay as they were; the order is left open.
#[verifier::external_body]
pub(crate) fn shuffle_in_place(order: &mut Vec<usize>, rng: &mut StdRng)
    ensures
        final(order)@.to_multiset() == old(order)@.to_multiset(),
{
    order.shuffle(rng);
}

} // verus!
