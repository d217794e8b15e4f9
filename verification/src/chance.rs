//! The random source, and draws by weight.
//!
//! Everything in this file is taken from the `rand` crate on trust: Verus does
//! not see how `rand` works. What is claimed of a draw is only what holds of
//! every outcome.

use rand::distributions::{Distribution, WeightedError, WeightedIndex};
use rand::rngs::ThreadRng;
use rand::Rng;
use vstd::prelude::*;

verus! {

/// `rand::rngs::ThreadRng`: the random source of the current thread.
#[verifier::external_type_specification]
#[verifier::external_body]
pub struct ExThreadRng(ThreadRng);

/// A draw of an index by weight: a `rand::distributions::WeightedIndex` over
/// weights of 32 bits.
#[verifier::external_body]
pub struct WeightedDraw {
    inner: WeightedIndex<u32>,
}

/// The weights that a draw by weight was made from, in their order.
pub uninterp spec fn index_weights(d: WeightedDraw) -> Seq<u32>;

/// The sum of a list of weights.
pub open spec fn total_weight(weights: Seq<u32>) -> nat
    decreases weights.len(),
{
    if weights.len() == 0 {
        0
    } else {
        total_weight(weights.drop_last()) + weights.last() as nat
    }
}

/// Why no draw by weight can be made from a list of weights.
#[derive(Copy, Clone, Debug, PartialEq, Eq, Structural)]
pub enum WeightedFailure {
    /// The list is empty.
    NoItem,
    /// A weight is not a valid weight.
    InvalidWeight,
    /// All weights are zero.
    AllWeightsZero,
    /// The list is too long.
    TooMany,
}

/// `rand::thread_rng`: a handle to the random source of the current thread.
#[verifier::external_body]
pub(crate) fn thread_rng() -> ThreadRng {
    rand::thread_rng()
}

/// `rand::Rng::gen::<bool>`: the toss of a fair coin. Nothing is claimed of
/// the outcome.
#[verifier::external_body]
pub(crate) fn toss(rng: &mut ThreadRng) -> bool {
    rng.gen::<bool>()
}

/// `WeightedIndex::new`: prepares draws from a list of weights. `rand` adds
/// the weights up in 32 bits, so their sum has to fit. It refuses an empty
/// list and a list of zeros, and nothing else where the weights are unsigned
/// numbers.
#[verifier::external_body]
pub(crate) fn weighted_index(weights: &Vec<u32>) -> (r: Result<WeightedDraw, WeightedFailure>)
    requires
        total_weight(weights@) <= u32::MAX,
    ensures
        match r {
            Ok(d) => weights@.len() > 0 && total_weight(weights@) > 0 && index_weights(d)
                == weights@,
            Err(WeightedFailure::NoItem) => weights@.len() == 0,
            Err(WeightedFailure::AllWeightsZero) => weights@.len() > 0 && total_weight(weights@)
                == 0,
            Err(_) => false,
        },
{
    match WeightedIndex::new(weights) {
        Ok(inner) => Ok(WeightedDraw { inner }),
        Err(WeightedError::NoItem) => Err(WeightedFailure::NoItem),
        Err(WeightedError::InvalidWeight) => Err(WeightedFailure::InvalidWeight),
        Err(WeightedError::AllWeightsZero) => Err(WeightedFailure::AllWeightsZero),
        Err(WeightedError::TooMany) => Err(WeightedFailure::TooMany),
    }
}

/// `WeightedIndex::sample`: draws an index with a chance in proportion to its
/// weight. Whatever the random source gives, the index is one of the list,
/// and its weight is not zero.
#[verifier::external_body]
pub(crate) fn draw_index(d: &WeightedDraw, rng: &mut ThreadRng) -> (i: usize)
    ensures
        i < index_weights(*d).len(),
        index_weights(*d)[i as int] > 0,
{
    d.inner.sample(rng)
}

} // verus!
