//! The index-linked variant of the benchmark, which spreads a total number of
//! iterations over its samples.
pub use crate::pointer_chasing::PaddedNode;
use vstd::prelude::*;

verus! {

/// Links followed per sample when `iterations` links are spread evenly over `samples`
/// samples (the remainder is not followed).
pub fn iterations_per_sample(iterations: usize, samples: usize) -> (per_sample: usize)
    requires
        samples > 0,
    ensures
        per_sample == iterations / samples,
{
    iterations / samples
}

} // verus!
