//! The random source used by the search, and the draws taken from it.
use rand::Rng;
use rand::rngs::StdRng;
use vstd::prelude::*;

verus! {

#[verifier::external_type_specification]
#[verifier::external_body]
pub struct ExStdRng(StdRng);

/// Relies on rand's `Rng::gen_range` over a half-open `u128` range: it
/// returns a value in `0..bound`, and panics when the range is empty.
#[verifier::external_body]
pub(crate) fn draw_below(rng: &mut StdRng, bound: u128) -> (r: u128)
    requires
        bound > 0,
    ensures
        r < bound,
{
    rng.gen_range(0..bound)
}

/// Relies on rand's `Rng::gen` for `u32`: any word may come back.
#[verifier::external_body]
pub(crate) fn draw_word(rng: &mut StdRng) -> (r: u32) {
    rng.gen::<u32>()
}

} // verus!
