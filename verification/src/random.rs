//! Random draws, from the `rand` crate's thread-local generator.
//!
//! What these return rests on chance; each states only what holds of every
//! outcome.
use rand::seq::SliceRandom;
use rand::Rng;
use vstd::prelude::*;

verus! {

/// `rand::Rng::gen_range(0..n)` on `rand::thread_rng()`: some index below `n`
/// (the range must not be empty).
#[verifier::external_body]
pub fn random_below(n: usize) -> (r: usize)
    requires
        n > 0,
    ensures
        r < n,
{
    rand::thread_rng().gen_range(0..n)
}

/// `rand::seq::SliceRandom::shuffle` on `rand::thread_rng()`: the same pairs,
/// in an order that rests on chance.
#[verifier::external_body]
pub fn shuffle_pairs(v: &mut Vec<(usize, usize)>)
    ensures
        final(v)@.to_multiset() == old(v)@.to_multiset(),
        final(v)@.len() == old(v)@.len(),
{
    v.shuffle(&mut rand::thread_rng())
}

/// `rand::seq::SliceRandom::choose` on `rand::thread_rng()`: `None` for an
/// empty list, else one of its entries; which one rests on chance.
#[verifier::external_body]
pub fn choose_from(v: &Vec<usize>) -> (r: Option<usize>)
    ensures
        r is None <==> v@.len() == 0,
        r matches Some(x) ==> v@.contains(x),
{
    v.choose(&mut rand::thread_rng()).copied()
}

/// `rand::seq::index::sample(rand::thread_rng(), length, amount)`:
/// `amount` distinct indices below `length`, which ones and in what order
/// resting on chance (it panics if `amount > length`).
#[verifier::external_body]
pub fn sample_distinct(length: usize, amount: usize) -> (r: Vec<usize>)
    requires
        amount <= length,
    ensures
        r@.len() == amount,
        r@.no_duplicates(),
        forall|i: int| 0 <= i < r@.len() ==> #[trigger] r@[i] < length,
{
    rand::seq::index::sample(&mut rand::thread_rng(), length, amount).into_vec()
}

} // verus!
