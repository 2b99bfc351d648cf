//! The pseudorandom capabilities the simulation draws on, taken from the
//! `rand` crate: a uniform integer in a range and an in-place shuffle.

use vstd::prelude::*;
use rand::Rng;

verus! {

/// rand's standard seedable generator, carried through opaquely.
#[verifier::external_type_specification]
#[verifier::external_body]
pub struct ExStdRng(rand::StdRng);

/// Relies on rand's `Rng::gen_range`: a value drawn from `[low, high)`. It
/// panics unless `low < high`.
#[verifier::external_body]
pub(crate) fn gen_range(rng: &mut rand::StdRng, low: usize, high: usize) -> (r: usize)
    requires
        low < high,
    ensures
        low <= r < high,
{
    rng.gen_range(low, high)
}

/// Relies on rand's `Rng::shuffle`: the elements are reordered in place by a
/// series of swaps, none added or lost.
#[verifier::external_body]
pub(crate) fn shuffle(rng: &mut rand::StdRng, v: &mut Vec<(usize, usize)>)
    ensures
        final(v)@.len() == old(v)@.len(),
        final(v)@.to_multiset() == old(v)@.to_multiset(),
{
    rng.shuffle(v.as_mut_slice())
}

/// Relies on rand's `random::<bool>`: a value from the thread-local
/// generator, of which nothing is known.
#[verifier::external_body]
pub(crate) fn random_bool() -> bool {
    rand::random::<bool>()
}

} // verus!
