//! Randomness, drawn from the thread-local generator of the `rand` crate.

use rand::Rng;
use vstd::prelude::*;

verus! {

/// Relies on `rand::Rng::gen_ratio` on `rand::thread_rng()`: returns true
/// with probability `num / den`, always true when `num == den` and always
/// false when `num == 0`; panics when `den == 0` or `num > den`.
#[verifier::external_body]
pub(crate) fn random_ratio(num: u32, den: u32) -> (r: bool)
    requires
        den > 0,
        num <= den,
    ensures
        num == den ==> r,
        num == 0 ==> !r,
{
    rand::thread_rng().gen_ratio(num, den)
}

/// Relies on `rand::Rng::gen_range` on `rand::thread_rng()`: returns a value
/// drawn from `[0, n)`; panics when the range is empty.
#[verifier::external_body]
pub(crate) fn random_index(n: usize) -> (r: usize)
    requires
        n > 0,
    ensures
        r < n,
{
    rand::thread_rng().gen_range(0..n)
}

} // verus!
