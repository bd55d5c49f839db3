//! The random source of the search.
use rand::seq::SliceRandom;
use rand::Rng;
use vstd::prelude::*;

verus! {

/// Relies on rand's `thread_rng` and `Rng::gen_range`: a uniformly drawn
/// index below `n` (the range `0..n` is not empty).
#[verifier::external_body]
pub(crate) fn random_index(n: usize) -> (r: usize)
    requires
        n > 0,
    ensures
        r < n,
{
    rand::thread_rng().gen_range(0..n)
}

/// Relies on rand's `thread_rng` and `Rng::gen_ratio`: `true` with
/// probability `numerator / denominator`, never for a zero numerator and
/// always when the numerator equals the denominator.
#[verifier::external_body]
pub(crate) fn random_ratio(numerator: u32, denominator: u32) -> (r: bool)
    requires
        0 < denominator,
        numerator <= denominator,
    ensures
        numerator == 0 ==> !r,
        numerator == denominator ==> r,
{
    rand::thread_rng().gen_ratio(numerator, denominator)
}

} // verus!

verus! {

/// Relies on rand's `seq::index::sample` (with `thread_rng`): `amount`
/// distinct indices drawn from `0..length`. It panics when
/// `amount > length`, and, in a debug build, when `amount == length` on a
/// `length` beyond `u32::MAX` (its rejection sampler asserts `amount < length`).
#[verifier::external_body]
pub(crate) fn sample_indices(length: usize, amount: usize) -> (r: Vec<usize>)
    requires
        amount <= length,
        length <= u32::MAX || amount < length,
    ensures
        r@.len() == amount,
        r@.no_duplicates(),
        forall|i: int| 0 <= i < r@.len() ==> #[trigger] r@[i] < length,
{
    rand::seq::index::sample(&mut rand::thread_rng(), length, amount).into_vec()
}

/// Relies on rand's `SliceRandom::shuffle` (with `thread_rng`): the same
/// items, in an order drawn at random.
#[verifier::external_body]
pub(crate) fn shuffled(items: Vec<usize>) -> (r: Vec<usize>)
    ensures
        r@.to_multiset() == items@.to_multiset(),
{
    let mut items = items;
    items.shuffle(&mut rand::thread_rng());
    items
}

} // verus!
