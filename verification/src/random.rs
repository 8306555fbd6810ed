//! The seeded random source.
//!
//! One generator is threaded through everything that draws. With the same
//! seed it hands out the same values in the same order, so the order in which
//! the library draws is part of what it does.

use vstd::prelude::*;
use rand::Rng;

verus! {

#[verifier::external_type_specification]
#[verifier::external_body]
pub struct ExStdRng(rand::rngs::StdRng);

/// A number below `bound`, from `rand::Rng::random_range` on the half-open
/// range `0..bound`. Nothing is claimed of the value but that it lies in the
/// range; an empty range is left out, as `random_range` panics on it.
#[verifier::external_body]
pub(crate) fn random_below(rng: &mut rand::rngs::StdRng, bound: usize) -> (r: usize)
    requires
        bound > 0,
    ensures
        r < bound,
{
    rng.random_range(0..bound)
}

} // verus!
