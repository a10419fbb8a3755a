//! The random choices of the search, made by the `rand` crate. Nothing in
//! this file is proved: each contract states what the crate's source and
//! documentation give, and holds of every outcome.

use vstd::prelude::*;
use rand::distr::weighted::Error as WeightError;
use rand::distr::weighted::WeightedIndex;
use rand::rngs::ThreadRng;
use crate::car::CarIndex;

verus! {

/// `rand::rngs::ThreadRng`, the generator of the current thread.
#[verifier::external_type_specification]
#[verifier::external_body]
pub struct ExThreadRng(ThreadRng);

/// `rand::distr::weighted::Error`, the ways in which weights can be refused.
#[verifier::external_type_specification]
#[verifier::external_body]
pub struct ExWeightError(WeightError);

/// A `rand::distr::weighted::WeightedIndex` over 128-bit weights: a
/// distribution over the positions of the weights that it was made from.
#[verifier::external_body]
pub struct WeightedPicker {
    dist: WeightedIndex<u128>,
}

/// The weights that a picker was made from.
pub uninterp spec fn picker_weights(picker: &WeightedPicker) -> Seq<u128>;

/// Sum of the weights.
pub open spec fn weight_total(weights: Seq<u128>) -> int
    decreases weights.len(),
{
    if weights.len() == 0 {
        0
    } else {
        weight_total(weights.drop_last()) + weights.last()
    }
}

/// Weights that make a distribution: at least one, with a sum that fits in
/// 128 bits and is not zero.
pub open spec fn accepted(weights: Seq<u128>) -> bool {
    weights.len() > 0 && 0 < weight_total(weights) <= u128::MAX
}

/// `rand::rng`: a handle to the generator of the current thread.
#[verifier::external_body]
pub(crate) fn thread_rng() -> ThreadRng {
    rand::rng()
}

/// `WeightedIndex::new`. It accepts the weights if and only if there is at
/// least one, their sum fits in 128 bits and is not zero; the distribution
/// then remembers them.
#[verifier::external_body]
pub(crate) fn weighted_picker(weights: &Vec<u128>) -> (made: Result<WeightedPicker, WeightError>)
    ensures
        made is Ok <==> accepted(weights@),
        made matches Ok(picker) ==> picker_weights(&picker) == weights@,
{
    match WeightedIndex::new(weights) {
        Ok(dist) => Ok(WeightedPicker { dist }),
        Err(e) => Err(e),
    }
}

/// `Distribution::sample` on a `WeightedIndex`: a position of the weights,
/// drawn with a chance proportional to its weight; a position of weight zero
/// is never drawn.
#[verifier::external_body]
pub(crate) fn sample_picker(picker: &WeightedPicker, rng: &mut ThreadRng) -> (position: usize)
    ensures
        position < picker_weights(picker).len(),
        picker_weights(picker)[position as int] > 0,
{
    rand_distr::Distribution::sample(&picker.dist, rng)
}

/// `SliceRandom::shuffle`: puts the entries in a random order.
#[verifier::external_body]
pub(crate) fn shuffle_indexes(indexes: &mut Vec<CarIndex>, rng: &mut ThreadRng)
    ensures
        final(indexes)@.to_multiset() == old(indexes)@.to_multiset(),
{
    rand::seq::SliceRandom::shuffle(indexes.as_mut_slice(), rng);
}

} // verus!
