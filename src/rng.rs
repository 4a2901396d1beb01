//! The randomness this library draws on, all of it from the `rand` crate.
use rand::distributions::{Alphanumeric, DistString, Distribution, WeightedError, WeightedIndex};
use rand::rngs::StdRng;
use rand::seq::SliceRandom;
use rand::Rng;
use vstd::prelude::*;

verus! {

/// The random number generator that every draw takes from.
#[verifier::external_type_specification]
#[verifier::external_body]
pub struct ExStdRng(StdRng);

/// A distribution over indices, each drawn with probability proportional to
/// its weight.
#[verifier::external_body]
pub struct WeightedDraw {
    dist: WeightedIndex<u64>,
}

/// Why a weighted distribution could not be built.
#[verifier::external_type_specification]
#[verifier::external_body]
pub struct ExWeightedError(WeightedError);

/// The sum of a list of weights.
pub open spec fn weight_sum(w: Seq<u64>) -> nat
    decreases w.len(),
{
    if w.len() == 0 {
        0
    } else {
        weight_sum(w.drop_last()) + w.last() as nat
    }
}

/// The weights that a weighted index distribution was built from.
pub uninterp spec fn index_weights(d: WeightedDraw) -> Seq<u64>;

/// Relies on Rng::gen_range on an inclusive range: a value between the bounds.
#[verifier::external_body]
pub(crate) fn gen_inclusive(rng: &mut StdRng, lo: i128, hi: i128) -> (r: i128)
    requires
        lo <= hi,
    ensures
        lo <= r <= hi,
{
    rng.gen_range(lo..=hi)
}

/// Relies on WeightedIndex::new: it fails only on an empty list or on weights
/// that are all zero, and it remembers the weights it was given.
#[verifier::external_body]
pub(crate) fn weighted_index(weights: &Vec<u64>) -> (r: Result<WeightedDraw, WeightedError>)
    requires
        weight_sum(weights@) <= u64::MAX,
    ensures
        weights.len() > 0 && weight_sum(weights@) > 0 ==> r is Ok,
        r matches Ok(d) ==> index_weights(d) == weights@,
{
    WeightedIndex::new(weights.iter().copied()).map(|dist| WeightedDraw { dist })
}

/// Relies on WeightedIndex::sample: an index whose weight is not zero.
#[verifier::external_body]
pub(crate) fn weighted_sample(d: &WeightedDraw, rng: &mut StdRng) -> (r: usize)
    ensures
        r < index_weights(*d).len(),
        index_weights(*d)[r as int] > 0,
{
    d.dist.sample(rng)
}

/// Relies on SliceRandom::shuffle: the same items in some order.
#[verifier::external_body]
pub(crate) fn shuffle_items(items: &mut Vec<String>, rng: &mut StdRng)
    ensures
        final(items)@.to_multiset() == old(items)@.to_multiset(),
        final(items).len() == old(items).len(),
{
    items.shuffle(rng)
}

/// An ASCII letter or digit.
pub open spec fn is_alphanumeric(c: char) -> bool {
    ('a' <= c <= 'z') || ('A' <= c <= 'Z') || ('0' <= c <= '9')
}

/// Relies on Alphanumeric::sample_string: `len` ASCII letters and digits.
#[verifier::external_body]
pub(crate) fn alphanumeric_string(rng: &mut StdRng, len: usize) -> (r: String)
    ensures
        r@.len() == len,
        forall|i: int| 0 <= i < len ==> is_alphanumeric(#[trigger] r@[i]),
{
    Alphanumeric.sample_string(rng, len)
}

} // verus!
