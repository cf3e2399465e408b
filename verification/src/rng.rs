//! Random-number support for the generators and the evolutionary engine.
//!
//! All randomness in the crate flows through `rng_below`, so every
//! algorithm above it is verified for every value the generator may
//! produce.

use vstd::prelude::*;

verus! {

#[verifier::external_type_specification]
#[verifier::external_body]
pub struct ExStdRng(rand::rngs::StdRng);

/// Relies on `rand::SeedableRng::seed_from_u64` for `StdRng`: builds a
/// generator from a seed word. Nothing is assumed of the stream it yields.
#[verifier::external_body]
pub fn rng_from_seed(seed: u64) -> rand::rngs::StdRng {
    <rand::rngs::StdRng as rand::SeedableRng>::seed_from_u64(seed)
}

/// Relies on `rand::Rng::gen_range` over `0..n`: the documentation promises
/// a value uniformly sampled from the range, so in particular below `n`;
/// the call panics only on an empty range, which the precondition excludes.
/// No other property of the stream is assumed.
#[verifier::external_body]
pub(crate) fn rng_below(rng: &mut rand::rngs::StdRng, n: u64) -> (r: u64)
    requires
        n > 0,
    ensures
        r < n,
{
    rand::Rng::gen_range(rng, 0..n)
}

/// Draw an index below `n`.
pub(crate) fn index_below(rng: &mut rand::rngs::StdRng, n: usize) -> (r: usize)
    requires
        n > 0,
    ensures
        r < n,
{
    let r = rng_below(rng, n as u64);
    r as usize
}

/// Draw a value in `[lo, hi)`.
pub(crate) fn range_u32(rng: &mut rand::rngs::StdRng, lo: u32, hi: u32) -> (r: u32)
    requires
        lo < hi,
    ensures
        lo <= r < hi,
{
    let d = rng_below(rng, (hi - lo) as u64);
    lo + d as u32
}

} // verus!
