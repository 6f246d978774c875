//! The random source that board generation draws from.
use vstd::prelude::*;
use xorshift::Rng;
use xorshift::Xorshift128;

verus! {

/// The xorshift128+ generator of the `xorshift` crate, carried through as an
/// opaque value.
#[verifier::external_type_specification]
#[verifier::external_body]
pub struct ExXorshift128(Xorshift128);

/// Draws an index below `bound` with `Rng::gen_range(0, bound)` of the
/// generator. Nothing is proved of the call: the contract only claims that the
/// value drawn lies in `0..bound`, which is the range the method samples from.
/// The method panics on an empty range, so `bound` must be positive.
#[verifier::external_body]
pub(crate) fn draw_below(rng: &mut Xorshift128, bound: usize) -> (r: usize)
    requires
        bound > 0,
    ensures
        r < bound,
{
    rng.gen_range(0usize, bound)
}

} // verus!
