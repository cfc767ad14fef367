//! The random number source: the thread-local generator of `rand`.

use vstd::prelude::*;
use rand::RngExt;
use rand::rngs::ThreadRng;

verus! {

#[verifier::external_type_specification]
#[verifier::external_body]
pub struct ExThreadRng(ThreadRng);

/// Calls `rand::rng`, which hands out the thread-local generator. Nothing is
/// stated of it: the values it yields depend on the system's entropy.
#[verifier::external_body]
pub(crate) fn thread_rng() -> ThreadRng {
    rand::rng()
}

/// Calls `RngExt::random_range` on the range `lo..hi`. Its documentation
/// promises a value inside the range; which one rests on chance. It panics
/// on an empty range, which `requires` rules out.
#[verifier::external_body]
pub(crate) fn random_in(rng: &mut ThreadRng, lo: i64, hi: i64) -> (v: i64)
    requires
        lo < hi,
    ensures
        lo <= v < hi,
{
    rng.random_range(lo..hi)
}

/// Calls `RngExt::random_ratio`, which is true with probability
/// `numerator / denominator`. Its documentation promises `false` when the
/// numerator is zero and `true` when it equals the denominator; otherwise
/// the outcome rests on chance. It panics when the denominator is zero or
/// below the numerator, which `requires` rules out.
#[verifier::external_body]
pub(crate) fn random_ratio(rng: &mut ThreadRng, numerator: u32, denominator: u32) -> (b: bool)
    requires
        0 < denominator,
        numerator <= denominator,
    ensures
        numerator == 0 ==> !b,
        numerator == denominator ==> b,
{
    rng.random_ratio(numerator, denominator)
}

} // verus!
