//! The random source. Every random decision of the search is drawn here, from
//! a generator that the caller owns, so that a seeded generator replays a run.

use rand::rngs::StdRng;
use rand::seq::SliceRandom;
use rand::Rng;
use vstd::prelude::*;

verus! {

/// The standard generator of `rand`. The library hands it on to the calls
/// below and never looks inside.
#[verifier::external_type_specification]
#[verifier::external_body]
pub struct ExStdRng(rand::rngs::StdRng);

/// Calls `Rng::gen_range` on the half-open range `low..high`. Trusted: the
/// drawn value lies in that range; nothing else is known of it. An empty
/// range, on which `gen_range` panics, is excluded.
#[verifier::external_body]
pub(crate) fn random_in_range(rng: &mut StdRng, low: usize, high: usize) -> (r: usize)
    requires
        low < high,
    ensures
        low <= r < high,
{
    rng.gen_range(low..high)
}

/// Calls `Rng::gen_ratio`, which answers `true` with probability
/// `numerator / denominator`. Trusted: a zero numerator always gives `false`
/// and a numerator equal to the denominator always gives `true`. The inputs on
/// which `gen_ratio` panics are excluded.
#[verifier::external_body]
pub(crate) fn random_ratio(rng: &mut StdRng, numerator: u32, denominator: u32) -> (hit: bool)
    requires
        denominator > 0,
        numerator <= denominator,
    ensures
        numerator == 0 ==> !hit,
        numerator == denominator ==> hit,
{
    rng.gen_ratio(numerator, denominator)
}

/// Calls `SliceRandom::shuffle`, which reorders the slice by swaps. Trusted:
/// the vector afterwards holds the same entries, each as often as before.
#[verifier::external_body]
pub(crate) fn shuffle(rng: &mut StdRng, items: &mut Vec<usize>)
    ensures
        final(items)@.len() == old(items)@.len(),
        final(items)@.to_multiset() == old(items)@.to_multiset(),
{
    items.shuffle(rng)
}

} // verus!
