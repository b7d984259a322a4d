//! The one place where randomness enters the library.

use vstd::prelude::*;

verus! {

/// Relies on `rand::RngExt::random_range` over the thread-local generator:
/// sampling the range `0..n` panics only when the range is empty, and every
/// sample lies below `n`.  Nothing more is assumed of a random draw.
#[verifier::external_body]
pub(crate) fn random_below(n: usize) -> (r: usize)
    requires
        1 <= n,
    ensures
        r < n,
{
    rand::RngExt::random_range(&mut rand::rng(), 0..n)
}

} // verus!
