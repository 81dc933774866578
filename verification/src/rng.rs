//! Trusted boundary to the random number generator.

use vstd::prelude::*;

verus! {

/// The standard random number generator of the `rand` crate, declared so
/// that it can be threaded through signatures. Callers construct and seed
/// it themselves; this crate only draws from it.
#[verifier::external_type_specification]
#[verifier::external_body]
pub struct ExStdRng(rand::rngs::StdRng);

/// Relies on rand's `Rng::gen_range`: a draw from the non-empty inclusive
/// range `lo..=hi` lies within that range. Nothing else is assumed of the
/// draw; callers must hold for every value in the range.
#[verifier::external_body]
pub fn gen_range_inclusive(rng: &mut rand::rngs::StdRng, lo: i32, hi: i32) -> (draw: i32)
    requires
        lo <= hi,
    ensures
        lo <= draw <= hi,
{
    rand::Rng::gen_range(rng, lo..=hi)
}

} // verus!
