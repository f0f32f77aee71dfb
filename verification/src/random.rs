//! Random number generation
//!
//! The game draws its random numbers from a PCG generator of the `rand_pcg`
//! crate, via the `rand` crate's interface. What a draw yields depends on the
//! generator's state, so nothing but the documented range is promised of it.

use vstd::prelude::*;

use rand::Rng;
use rand::RngCore;
use rand_pcg::Mcg128Xsl64;

use crate::util::Colour;

verus! {

/// The random number generator used by the game (`rand_pcg::Pcg64Mcg`)
#[verifier::external_type_specification]
#[verifier::external_body]
pub struct ExMcg128Xsl64(Mcg128Xsl64);

/// Draw a number from `0..bound`
///
/// This calls `rand::Rng::gen_range` with the range `0..bound`. As documented
/// by `rand`, the result lies within the range, and the call panics on an empty
/// range; which number is drawn depends on the generator's state.
#[verifier::external_body]
pub(crate) fn random_below(rng: &mut Mcg128Xsl64, bound: usize) -> (r: usize)
    requires
        bound > 0,
    ensures
        r < bound,
{
    rng.gen_range(0..bound)
}

/// Draw a random boolean
///
/// This calls `rand::Rng::gen::<bool>`. Either value may come back.
#[verifier::external_body]
pub(crate) fn random_bool(rng: &mut Mcg128Xsl64) -> bool {
    rng.gen::<bool>()
}

/// Draw a random 32 bit number
///
/// This calls `rand::RngCore::next_u32`. Any value may come back.
#[verifier::external_body]
pub(crate) fn random_u32(rng: &mut Mcg128Xsl64) -> u32 {
    rng.next_u32()
}

/// Draw a random colour
///
/// The colour is selected via a number drawn from `0..3`; any colour may come
/// back.
pub fn random_colour(rng: &mut Mcg128Xsl64) -> Colour {
    let n = random_below(rng, 3);
    Colour::from_number(n as u8)
}

} // verus!
