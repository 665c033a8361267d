//! Trusted boundary to the pseudo-random number generator of the `frand`
//! crate. The solver only ever needs "some value inside a given range";
//! nothing more is assumed of any draw.

use vstd::prelude::*;

verus! {

#[verifier::external_type_specification]
#[verifier::external_body]
pub struct ExRand(frand::Rand);

/// Relies on frand::Rand::with_seed: builds a generator from a seed; it
/// never fails. Nothing is assumed about the values it will produce.
#[verifier::external_body]
pub(crate) fn rand_with_seed(seed: u64) -> frand::Rand {
    frand::Rand::with_seed(seed)
}

/// Relies on frand's `RandomRange for u32`: for a non-empty range the draw
/// is `random % (end - start) + start`, which lies in `[start, end)` and
/// cannot fail.
#[verifier::external_body]
pub(crate) fn rand_below(rng: &mut frand::Rand, n: u32) -> (r: u32)
    requires
        n > 0,
    ensures
        r < n,
{
    rng.gen_range(0u32..n)
}

/// Relies on frand's `RandomRange for i64`: for a non-empty range the draw
/// is computed modulo `end - start` in two's complement and shifted by
/// `start`, which lies in `[start, end)` and cannot fail.
#[verifier::external_body]
pub(crate) fn rand_in_range(rng: &mut frand::Rand, lo: i64, hi: i64) -> (r: i64)
    requires
        lo < hi,
    ensures
        lo <= r < hi,
{
    rng.gen_range(lo..hi)
}

} // verus!
