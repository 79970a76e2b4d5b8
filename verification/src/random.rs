//! Randomness from the `rand` crate. Nothing about which value comes out is
//! promised beyond the range each function documents.

use rand::seq::SliceRandom;
use rand::Rng;
use vstd::prelude::*;

verus! {

/// A uniformly chosen element of `items`, `None` when it is empty.
///
/// Calls `rand::seq::SliceRandom::choose` on the thread-local generator; the
/// contract claims only that the element comes from `items`.
#[verifier::external_body]
pub(crate) fn choose_item<T: Copy>(items: &Vec<T>) -> (r: Option<T>)
    ensures
        r is None <==> items@.len() == 0,
        r matches Some(x) ==> items@.contains(x),
{
    items.as_slice().choose(&mut rand::thread_rng()).copied()
}

/// `true` with probability `numerator / denominator`.
///
/// Calls `rand::Rng::gen_ratio` on the thread-local generator (which panics
/// unless `numerator <= denominator` and `denominator > 0`, hence the
/// precondition); the outcome is left open except that a ratio of one always
/// holds.
#[verifier::external_body]
pub(crate) fn chance(numerator: u32, denominator: u32) -> (r: bool)
    requires
        0 < denominator,
        numerator <= denominator,
    ensures
        numerator == denominator ==> r,
{
    rand::thread_rng().gen_ratio(numerator, denominator)
}

/// A uniformly chosen index below `len`.
///
/// Calls `rand::Rng::gen_range(0..len)` on the thread-local generator, which
/// panics on an empty range.
#[verifier::external_body]
pub(crate) fn index_below(len: usize) -> (r: usize)
    requires
        len > 0,
    ensures
        r < len,
{
    rand::thread_rng().gen_range(0..len)
}

/// Shuffles `items` in place.
///
/// Calls `rand::seq::SliceRandom::shuffle` (a Fisher-Yates shuffle made of
/// swaps) on the thread-local generator: the result is a permutation of the
/// input, nothing more is claimed.
#[verifier::external_body]
pub(crate) fn shuffle<T>(items: &mut Vec<T>)
    ensures
        final(items)@.to_multiset() == old(items)@.to_multiset(),
{
    items.as_mut_slice().shuffle(&mut rand::thread_rng());
}

/// `amount` distinct indices below `length`, in random order.
///
/// Calls `rand::seq::index::sample` on the thread-local generator, which
/// panics when `amount > length`.
#[verifier::external_body]
pub(crate) fn sample_indices(length: usize, amount: usize) -> (r: Vec<usize>)
    requires
        amount <= length,
    ensures
        r@.len() == amount,
        forall|i: int| 0 <= i < r@.len() ==> #[trigger] r@[i] < length,
        forall|i: int, j: int| 0 <= i < j < r@.len() ==> r@[i] != r@[j],
{
    rand::seq::index::sample(&mut rand::thread_rng(), length, amount).into_vec()
}

} // verus!
