use vstd::prelude::*;
use sha2::{Digest, Sha256};
use crate::symmetric::{
    Pseudorandom, prf_domain_sep_seq, push_bytes, push_domain_sep, push_u64_be, random_key,
    u64_be_seq,
};

verus! {

/// What SHA-256 returns on a byte string: 32 bytes that the input alone
/// decides.
pub uninterp spec fn sha256_of(data: Seq<u8>) -> Seq<u8>;

/// Relies on sha2's Sha256: a 32-byte digest, a function of the hashed bytes
/// alone.
#[verifier::external_body]
fn sha256_hash(data: &Vec<u8>) -> (r: [u8; 32])
    ensures
        r@ == sha256_of(data@),
        r@.len() == 32,
{
    let mut hasher = Sha256::new();
    hasher.update(data.as_slice());
    hasher.finalize().into()
}

/// A SHA-256 based pseudorandom function: hash the domain separator, the key
/// and the big-endian counter.
pub struct Sha256PRF;

impl Pseudorandom for Sha256PRF {
    type Key = [u8; 32];

    type Output = [u8; 32];

    open spec fn apply_ok(key: &[u8; 32], input: u64, r: &[u8; 32]) -> bool {
        r@ == sha256_of(prf_domain_sep_seq() + key@ + u64_be_seq(input))
    }

    fn gen<R: rand::Rng>(rng: &mut R) -> (r: [u8; 32]) {
        random_key(rng)
    }

    fn apply(key: &[u8; 32], input: u64) -> (r: [u8; 32]) {
        let mut combined: Vec<u8> = Vec::new();
        push_domain_sep(&mut combined);
        push_bytes(&mut combined, key.as_slice());
        push_u64_be(&mut combined, input);
        sha256_hash(&combined)
    }
}

} // verus!
