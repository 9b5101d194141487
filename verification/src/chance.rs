//! Random numbers for the builder of random games.

use vstd::prelude::*;
use rand::Rng;

verus! {

/// `Rng::random_range` on the thread's generator `rand::rng()`, over
/// `low .. high`: some number in the range.  The same call may give another
/// number each time.
#[verifier::external_body]
pub(crate) fn random_between(low: usize, high: usize) -> (r: usize)
    requires
        low < high,
    ensures
        low <= r < high,
{
    rand::rng().random_range(low..high)
}

} // verus!
