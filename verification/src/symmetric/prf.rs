use vstd::prelude::*;
use crate::MESSAGE_LENGTH;

pub mod sha;

verus! {

/// A pseudorandom function that derives one-time key material: domain
/// elements per chain index, and per-signature randomness per message.
pub trait Pseudorandom {
    type Key;

    type Domain;

    type Randomness;

    /// What the derived domain element is.
    spec fn domain_result_ok(key: &Self::Key, epoch: u32, index: u64, r: &Self::Domain) -> bool;

    /// What the derived randomness is.
    spec fn randomness_result_ok(
        key: &Self::Key,
        epoch: u32,
        message: &[u8; MESSAGE_LENGTH],
        counter: u64,
        r: &Self::Randomness,
    ) -> bool;

    /// Sample a fresh key.
    fn key_gen<R: rand::Rng>(rng: &mut R) -> Self::Key;

    /// Derive the domain element of a chain.
    fn get_domain_element(key: &Self::Key, epoch: u32, index: u64) -> (r: Self::Domain)
        ensures
            Self::domain_result_ok(key, epoch, index, &r),
    ;

    /// Derive the randomness bound to a message.
    fn get_randomness(
        key: &Self::Key,
        epoch: u32,
        message: &[u8; MESSAGE_LENGTH],
        counter: u64,
    ) -> (r: Self::Randomness)
        ensures
            Self::randomness_result_ok(key, epoch, message, counter, &r),
    ;
}

} // verus!
