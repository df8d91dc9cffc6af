//! Random number generators of the `rand` family, as opaque values, and the
//! bounded draws that the library makes from them.

use rand::Rng;
use vstd::prelude::*;

verus! {

/// The seedable ChaCha20 generator of `rand_chacha`; opaque to the library.
#[verifier::external_type_specification]
#[verifier::external_body]
pub struct ExChaCha20Rng(rand_chacha::ChaCha20Rng);

/// The thread-local generator of `rand`; opaque to the library.
#[verifier::external_type_specification]
#[verifier::external_body]
pub struct ExThreadRng(rand::rngs::ThreadRng);

/// Draws `rand::Rng::gen_range(0..upper)` on a `u8` from a ChaCha20 generator.
/// `gen_range` panics on an empty range (hence `upper > 0`) and otherwise
/// returns a value of the half-open range; which value is not stated.
#[verifier::external_body]
pub(crate) fn random_u8_below(rng: &mut rand_chacha::ChaCha20Rng, upper: u8) -> (r: u8)
    requires
        0 < upper,
    ensures
        r < upper,
{
    rng.gen_range(0..upper)
}

/// Draws `rand::Rng::gen_range(0..upper)` on a `u32` from the thread generator.
/// `gen_range` panics on an empty range (hence `upper > 0`) and otherwise
/// returns a value of the half-open range; which value is not stated.
#[verifier::external_body]
pub(crate) fn random_u32_below(rng: &mut rand::rngs::ThreadRng, upper: u32) -> (r: u32)
    requires
        0 < upper,
    ensures
        r < upper,
{
    rng.gen_range(0..upper)
}

/// Draws `rand::Rng::gen_range(0..upper)` on a `usize` from the thread generator.
/// `gen_range` panics on an empty range (hence `upper > 0`) and otherwise
/// returns a value of the half-open range; which value is not stated.
#[verifier::external_body]
pub(crate) fn random_usize_below(rng: &mut rand::rngs::ThreadRng, upper: usize) -> (r: usize)
    requires
        0 < upper,
    ensures
        r < upper,
{
    rng.gen_range(0..upper)
}

} // verus!
