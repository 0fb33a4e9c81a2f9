//! The non-cryptographic random number source behind the random-access
//! patterns, taken from the `fastrand` crate. Verified code sees a draw only
//! through its one guarantee: the result is a valid arena index.
use vstd::prelude::*;

verus! {

#[verifier::external_type_specification]
#[verifier::external_body]
pub struct ExRng(fastrand::Rng);

/// Relies on fastrand's `Rng::usize` over the range `0..bound`: it panics
/// only when the range is empty, and otherwise returns a value below
/// `bound`. Nothing more is assumed of the draw; callers must hold for every
/// in-bounds outcome.
#[verifier::external_body]
pub(crate) fn random_index(rng: &mut fastrand::Rng, bound: usize) -> (r: usize)
    requires
        bound >= 1,
    ensures
        r < bound,
{
    rng.usize(0..bound)
}

} // verus!
