use vstd::prelude::*;
use vstd::arithmetic::power2::pow2;
use crate::MESSAGE_LENGTH;

pub mod poseidon;

verus! {

/// A keyed, epoch-tweaked message hash whose digest is read as a sequence of
/// small chunks: `num_chunks` values, each below `2^chunk_size`.
pub trait MessageHash {
    type Parameter;

    type Randomness;

    /// What a usable parameter looks like.
    spec fn parameter_ok(parameter: &Self::Parameter) -> bool;

    /// What usable randomness looks like.
    spec fn randomness_ok(randomness: &Self::Randomness) -> bool;

    /// What the digest is, on a parameter, an epoch, a randomness and a
    /// message.
    spec fn apply_ok(
        parameter: &Self::Parameter,
        epoch: u32,
        randomness: &Self::Randomness,
        message: &[u8; MESSAGE_LENGTH],
        r: &Vec<u8>,
    ) -> bool;

    /// Number of chunks of the digest.
    spec fn num_chunks_spec() -> nat;

    /// Bits per chunk.
    spec fn chunk_size_spec() -> nat;

    fn num_chunks() -> (r: usize)
        ensures
            r == Self::num_chunks_spec(),
    ;

    fn chunk_size() -> (r: usize)
        ensures
            r == Self::chunk_size_spec(),
    ;

    /// Samples a randomness to be used for the hash.
    fn rand<R: rand::Rng>(rng: &mut R) -> (r: Self::Randomness)
        ensures
            Self::randomness_ok(&r),
    ;

    /// Hash a message under a parameter, an epoch and a randomness, into
    /// `num_chunks` chunks, each below `2^chunk_size`.
    fn apply(
        parameter: &Self::Parameter,
        epoch: u32,
        randomness: &Self::Randomness,
        message: &[u8; MESSAGE_LENGTH],
    ) -> (r: Vec<u8>)
        requires
            Self::parameter_ok(parameter),
            Self::randomness_ok(randomness),
        ensures
            r@.len() == Self::num_chunks_spec(),
            forall|i: int| 0 <= i < r@.len() ==> r@[i] < pow2(Self::chunk_size_spec()),
            Self::apply_ok(parameter, epoch, randomness, message, &r),
    ;
}

} // verus!
