//! Access to the system's cryptographically secure random source.

use vstd::prelude::*;

verus! {

#[verifier::external_type_specification]
#[verifier::external_body]
pub struct ExSystemRandom(ring::rand::SystemRandom);

/// Relies on ring::rand::SecureRandom::fill on a SystemRandom: on success
/// the whole buffer has been overwritten with bytes from the operating
/// system's secure random source. Nothing can be promised about the bytes
/// themselves; only the length of the buffer is stated.
#[verifier::external_body]
pub(crate) fn random_bytes(random: &ring::rand::SystemRandom, len: usize) -> (r: Option<
    Vec<u8>,
>)
    ensures
        r matches Some(bytes) ==> bytes@.len() == len,
{
    let mut bytes = vec![0u8; len];
    match ring::rand::SecureRandom::fill(random, &mut bytes) {
        Ok(()) => Some(bytes),
        Err(_) => None,
    }
}

} // verus!
