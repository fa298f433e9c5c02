//! The uniform random draws of the search, taken from the thread-local
//! generator of the `rand` crate. Nothing here is verified: each item states
//! what the crate documents about the call it makes.

use rand::Rng;
use vstd::prelude::*;

verus! {

/// `rand::rngs::ThreadRng`, the generator of the current thread. It is
/// handed to the draws below and never looked into.
#[verifier::external_type_specification]
#[verifier::external_body]
pub struct ExThreadRng(rand::rngs::ThreadRng);

/// `rand::thread_rng` hands out the generator of the current thread. Nothing
/// is claimed about it.
pub assume_specification[ rand::thread_rng ]() -> (rng: rand::rngs::ThreadRng);

/// `Rng::gen_range` on `i64`: the value drawn lies in the half-open range
/// from `low` up to, but not including, `high`. The call panics on an empty
/// range, which the precondition rules out.
#[verifier::external_body]
pub(crate) fn uniform_below(rng: &mut rand::rngs::ThreadRng, low: i64, high: i64) -> (value: i64)
    requires
        low < high,
    ensures
        low <= value < high,
{
    rng.gen_range(low, high)
}

/// `Rng::gen_ratio`: true with probability `numerator / denominator`. Of a
/// single draw the crate promises only the two certain cases: never true at
/// zero, always true when the two numbers are equal. The call panics on a
/// zero denominator and on a ratio above one, which the precondition rules
/// out.
#[verifier::external_body]
pub(crate) fn chance(
    rng: &mut rand::rngs::ThreadRng,
    numerator: u32,
    denominator: u32,
) -> (hit: bool)
    requires
        denominator > 0,
        numerator <= denominator,
    ensures
        numerator == 0 ==> !hit,
        numerator == denominator ==> hit,
{
    rng.gen_ratio(numerator, denominator)
}

} // verus!
