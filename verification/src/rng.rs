//! The one randomized ingredient: a uniform draw from a half-open range,
//! used to pick probe positions for the pivot and the vantage point.

use vstd::prelude::*;

verus! {

/// Relies on `rand::random_range` on `lo..hi`: it returns a value of the
/// non-empty half-open range `lo..hi` drawn from the thread-local
/// generator, and panics only on an empty range.
///
/// No draw is promised beyond its bounds: every caller must be correct
/// for any value in `lo..hi`.
#[verifier::external_body]
pub(crate) fn random_in_range(lo: usize, hi: usize) -> (r: usize)
    requires
        lo < hi,
    ensures
        lo <= r < hi,
{
    rand::random_range(lo..hi)
}

} // verus!
