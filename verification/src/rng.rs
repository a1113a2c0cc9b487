//! The seedable random number generator the server draws from for port
//! selection and nonce issuance.  Randomness is injected: the state machine
//! owns the generator, callers seed it, and no contract promises anything
//! about the values drawn.

use vstd::prelude::*;

verus! {

#[verifier::external_type_specification]
#[verifier::external_body]
pub struct ExStdRng(rand::rngs::StdRng);

/// Relies on rand::RngCore::next_u32 for rand::rngs::StdRng: returns the
/// generator's next value; nothing is promised of it.
#[verifier::external_body]
pub(crate) fn next_u32(rng: &mut rand::rngs::StdRng) -> u32 {
    rand::RngCore::next_u32(rng)
}

/// Relies on rand::RngCore::next_u64 for rand::rngs::StdRng: returns the
/// generator's next value; nothing is promised of it.
#[verifier::external_body]
pub(crate) fn next_u64(rng: &mut rand::rngs::StdRng) -> u64 {
    rand::RngCore::next_u64(rng)
}

} // verus!
