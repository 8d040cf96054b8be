//! Trusted access to the process-wide random number generator, used only
//! by the spawn placement policy.

use vstd::prelude::*;

verus! {

/// Relies on rand::Rng::gen_range over rand::thread_rng: a draw from the
/// half-open range lo..hi. It panics only on an empty range, which the
/// precondition rules out; nothing more is promised of a random draw than
/// its bounds.
#[verifier::external_body]
pub(crate) fn rand_in_range(lo: i32, hi: i32) -> (r: i32)
    requires
        lo < hi,
    ensures
        lo <= r < hi,
{
    rand::Rng::gen_range(&mut rand::thread_rng(), lo..hi)
}

/// Relies on rand::random for bool: a coin flip. Nothing is promised of
/// the outcome.
#[verifier::external_body]
pub(crate) fn rand_coin() -> (r: bool) {
    rand::random::<bool>()
}

} // verus!
