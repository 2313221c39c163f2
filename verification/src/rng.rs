//! Thin trusted wrappers around the process-wide random source.
//!
//! Nothing is assumed about the distribution of the results; the
//! contracts state only what holds of every outcome, and the callers
//! are verified for every value these can return.

use vstd::prelude::*;

verus! {

/// Relies on rand::random_range: a value drawn from the half-open
/// range `0..n`, which is non-empty because `n > 0`.
#[verifier::external_body]
pub(crate) fn random_index_below(n: usize) -> (r: usize)
    requires
        0 < n,
    ensures
        r < n,
{
    rand::random_range(0..n)
}

/// Relies on rand::random::<bool>: a coin flip; nothing can be
/// promised about the outcome.
#[verifier::external_body]
pub(crate) fn random_coin() -> bool {
    rand::random::<bool>()
}

} // verus!
