//! The one random step of the solver: drawing a tile from a weighted
//! distribution, through the `rand` crate.

use vstd::prelude::*;
use crate::counting::sum_u32;

verus! {

/// Relies on rand's `WeightedIndex::new` and `Distribution::sample` with
/// `thread_rng`: draws an index with probability proportional to its weight.
/// An index of weight zero is never drawn, so nothing more than positivity and
/// the range can be promised of the outcome.
#[verifier::external_body]
pub(crate) fn sample_weighted(weights: &Vec<u32>) -> (r: usize)
    requires
        sum_u32(weights@) <= u32::MAX,
        exists|i: int| 0 <= i < weights@.len() && weights@[i] > 0,
    ensures
        r < weights@.len(),
        weights@[r as int] > 0,
{
    let dist = rand::distributions::WeightedIndex::new(weights).unwrap();
    rand::distributions::Distribution::sample(&dist, &mut rand::thread_rng())
}

} // verus!
