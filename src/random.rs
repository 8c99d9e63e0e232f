//! Uniform random draws.

use rand::Rng;
use vstd::prelude::*;

verus! {

/// Relies on rand's `thread_rng` and `Rng::gen_range`: a value drawn uniformly
/// from `0..bound`.
#[verifier::external_body]
pub(crate) fn random_below(bound: u128) -> (r: u128)
    requires
        bound > 0,
    ensures
        r < bound,
{
    rand::thread_rng().gen_range(0..bound)
}

} // verus!
