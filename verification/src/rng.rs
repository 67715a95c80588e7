//! Randomness from the `rand` crate.
use rand::Rng;
use vstd::prelude::*;

verus! {

#[verifier::external_type_specification]
#[verifier::external_body]
pub struct ExThreadRng(rand::rngs::ThreadRng);

/// `rand::thread_rng`: a handle to the thread-local random number generator.
///
/// Trusted: nothing is claimed of the generator's state.
#[verifier::external_body]
pub(crate) fn thread_rng() -> rand::rngs::ThreadRng {
    rand::thread_rng()
}

/// `Rng::gen_range` over `low..high`: a value drawn from `[low, high)`.
///
/// Trusted: the result lies in `[low, high)`; which value it is depends on chance
/// and is not stated.  `gen_range` panics on an empty range, which `requires` excludes.
#[verifier::external_body]
pub(crate) fn gen_range_i128(rng: &mut rand::rngs::ThreadRng, low: i128, high: i128) -> (r: i128)
    requires
        low < high,
    ensures
        low <= r < high,
{
    rng.gen_range(low..high)
}

} // verus!
