//! What this library relies on from the `rand` crate.

use rand::Rng;
use vstd::prelude::*;

verus! {

/// `Rng::random_range` on the generator that `rand::rng` returns, with the
/// range `0..bound`: some number below `bound`. Which one is left open, and
/// two calls may differ.
#[verifier::external_body]
pub(crate) fn random_below(bound: u32) -> (pick: u32)
    requires
        bound > 0,
    ensures
        pick < bound,
{
    rand::rng().random_range(0..bound)
}

} // verus!
