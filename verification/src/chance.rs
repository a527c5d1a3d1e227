//! Random choices, drawn from the `rand` crate.
//!
//! All draws come from the generator of the thread, which the system seeds
//! when the thread first draws; where the system gives no seed, `rand`
//! stops the program.

use rand::Rng;
use vstd::prelude::*;

verus! {

/// A `usize` drawn by `rand::random`.
///
/// Nothing is promised of the value: every `usize` may come back, and two
/// calls need not agree.
#[verifier::external_body]
pub(crate) fn random_usize() -> usize {
    rand::random::<usize>()
}

/// A number below `bound`, drawn by `Rng::gen_range` from the generator of
/// the thread. `gen_range` panics on an empty range, so `bound` is not 0;
/// it hands back a value of the range, and two calls need not agree.
#[verifier::external_body]
pub(crate) fn random_below(bound: usize) -> (drawn: usize)
    requires
        bound > 0,
    ensures
        drawn < bound,
{
    rand::thread_rng().gen_range(0..bound)
}

/// A yes with the chance `numerator / denominator`, drawn by
/// `Rng::gen_ratio` from the generator of the thread. `gen_ratio` panics
/// where the denominator is 0 or less than the numerator; it says yes for
/// certain where the two are equal, and no for certain where the numerator
/// is 0.
#[verifier::external_body]
pub(crate) fn random_ratio(numerator: u32, denominator: u32) -> (yes: bool)
    requires
        denominator > 0,
        numerator <= denominator,
    ensures
        numerator == denominator ==> yes,
        numerator == 0 ==> !yes,
{
    rand::thread_rng().gen_ratio(numerator, denominator)
}

} // verus!
