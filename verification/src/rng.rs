//! The randomness source used when a slot collapses.

use vstd::prelude::*;

verus! {

/// Relies on rand::Rng::gen_range over a thread-local generator: for a
/// non-empty half-open range `0..n` it returns a uniformly random value of
/// the range; it panics only on an empty range, which the precondition
/// rules out. Nothing more is assumed of the outcome.
#[verifier::external_body]
pub(crate) fn random_below(n: usize) -> (r: usize)
    requires
        n >= 1,
    ensures
        r < n,
{
    rand::Rng::gen_range(&mut rand::thread_rng(), 0..n)
}

} // verus!
