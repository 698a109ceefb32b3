use rand::seq::{IteratorRandom, SliceRandom};
use rand::Rng;
use vstd::prelude::*;

verus! {

/// Relies on `rand::random::<bool>`: a fair coin. Nothing is promised of
/// the outcome.
#[verifier::external_body]
pub(crate) fn random_bool() -> bool {
    rand::random::<bool>()
}

/// Relies on `IteratorRandom::choose` over the range `0..n`, with the thread
/// generator: it returns `None` if and only if the range is empty, and else
/// one of its elements.
#[verifier::external_body]
pub(crate) fn random_index(n: usize) -> (r: Option<usize>)
    ensures
        r is None <==> n == 0,
        r matches Some(i) ==> i < n,
{
    (0..n).choose(&mut rand::thread_rng())
}

/// Relies on `Rng::gen_ratio`, with the thread generator: `true` with
/// probability `numerator / denominator`; always `false` when the numerator
/// is 0 and always `true` when it equals the denominator. It panics when the
/// denominator is 0 or smaller than the numerator.
#[verifier::external_body]
pub(crate) fn random_ratio(numerator: u32, denominator: u32) -> (r: bool)
    requires
        0 < denominator,
        numerator <= denominator,
    ensures
        numerator == 0 ==> !r,
        numerator == denominator ==> r,
{
    rand::thread_rng().gen_ratio(numerator, denominator)
}

/// Relies on `SliceRandom::shuffle`, with the thread generator: the slice is
/// permuted in place.
#[verifier::external_body]
pub(crate) fn shuffle_indices(order: &mut Vec<usize>)
    ensures
        final(order)@.to_multiset() == old(order)@.to_multiset(),
{
    order.shuffle(&mut rand::thread_rng());
}

/// Relies on `SliceRandom::choose_multiple_weighted`, with the thread
/// generator: it draws `min(amount, pool.len())` distinct entries of the pool
/// without replacement, with a probability that grows with the weight (the
/// second field), and yields them in some order; here the first field of
/// each entry is its own position. Weights of type `u32` are never invalid,
/// so the call never returns its error.
#[verifier::external_body]
pub(crate) fn choose_weighted(pool: &Vec<(usize, u32)>, amount: usize) -> (r: Vec<usize>)
    requires
        forall|j: int| 0 <= j < pool@.len() ==> #[trigger] pool@[j].0 == j,
    ensures
        r@.len() == if amount <= pool@.len() { amount as int } else { pool@.len() as int },
        r@.no_duplicates(),
        forall|i: int| 0 <= i < r@.len() ==> #[trigger] r@[i] < pool@.len(),
{
    pool.choose_multiple_weighted(&mut rand::thread_rng(), amount, |entry| entry.1)
        .unwrap()
        .map(|entry| entry.0)
        .collect()
}

} // verus!
