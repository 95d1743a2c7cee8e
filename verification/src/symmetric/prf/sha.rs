use vstd::prelude::*;
use p3_keccak::Keccak256Hash;
use p3_symmetric::CryptographicHasher;
use crate::MESSAGE_LENGTH;
use crate::symmetric::prf::Pseudorandom;
use crate::symmetric::{
    prf_domain_sep_seq, push_bytes, push_domain_sep, push_u32_be, push_u64_be, random_key,
    u32_be_seq, u64_be_seq,
};

verus! {

/// What Keccak-256 returns on a byte string: 32 bytes that the input alone
/// decides.
pub uninterp spec fn keccak256_of(data: Seq<u8>) -> Seq<u8>;

/// Relies on p3_keccak's Keccak256Hash (Keccak-256 over bytes): a 32-byte
/// digest, a function of the hashed bytes alone.
#[verifier::external_body]
fn keccak256_hash(data: &Vec<u8>) -> (r: [u8; 32])
    ensures
        r@ == keccak256_of(data@),
        r@.len() == 32,
{
    Keccak256Hash.hash_iter(data.iter().copied())
}

/// The first `len` bytes of a 32-byte block.
fn take_prefix(block: &[u8; 32], len: usize) -> (r: Vec<u8>)
    requires
        len <= 32,
    ensures
        r@ == block@.take(len as int),
{
    let mut out: Vec<u8> = Vec::new();
    let mut i: usize = 0;
    while i < len
        invariant
            i <= len <= 32,
            out@ == block@.take(i as int),
        decreases len - i,
    {
        proof {
            assert(block@.take(i + 1) =~= block@.take(i as int).push(block@[i as int]));
        }
        out.push(block[i]);
        i += 1;
    }
    out
}

/// A SHA3-based PRF.  Domain length and randomness length are given in
/// bytes; each must be at most 32 bytes, the Keccak-256 digest size, or the
/// derived value is empty.
pub struct ShaPRF<const DOMAIN_LENGTH: usize, const RAND_LENGTH: usize>;

impl<const DOMAIN_LENGTH: usize, const RAND_LENGTH: usize> Pseudorandom for ShaPRF<
    DOMAIN_LENGTH,
    RAND_LENGTH,
> {
    type Key = [u8; 32];

    type Domain = Vec<u8>;

    type Randomness = Vec<u8>;

    open spec fn domain_result_ok(key: &[u8; 32], epoch: u32, index: u64, r: &Vec<u8>) -> bool {
        if DOMAIN_LENGTH <= 32 {
            r@ == keccak256_of(
                prf_domain_sep_seq() + seq![0x00u8] + key@ + u32_be_seq(epoch) + u64_be_seq(index),
            ).take(DOMAIN_LENGTH as int)
        } else {
            r@ == Seq::<u8>::empty()
        }
    }

    open spec fn randomness_result_ok(
        key: &[u8; 32],
        epoch: u32,
        message: &[u8; MESSAGE_LENGTH],
        counter: u64,
        r: &Vec<u8>,
    ) -> bool {
        if RAND_LENGTH <= 32 {
            r@ == keccak256_of(
                prf_domain_sep_seq() + seq![0x01u8] + key@ + u32_be_seq(epoch) + message@
                    + u64_be_seq(counter),
            ).take(RAND_LENGTH as int)
        } else {
            r@ == Seq::<u8>::empty()
        }
    }

    fn key_gen<R: rand::Rng>(rng: &mut R) -> (r: [u8; 32]) {
        random_key(rng)
    }

    fn get_domain_element(key: &[u8; 32], epoch: u32, index: u64) -> (r: Vec<u8>) {
        if DOMAIN_LENGTH > 32 {
            let empty: Vec<u8> = Vec::new();
            return empty;
        }
        let mut combined: Vec<u8> = Vec::new();
        push_domain_sep(&mut combined);
        combined.push(0x00);
        proof {
            assert(prf_domain_sep_seq().push(0x00u8) =~= prf_domain_sep_seq() + seq![0x00u8]);
        }
        push_bytes(&mut combined, key.as_slice());
        push_u32_be(&mut combined, epoch);
        push_u64_be(&mut combined, index);
        let digest = keccak256_hash(&combined);
        take_prefix(&digest, DOMAIN_LENGTH)
    }

    fn get_randomness(
        key: &[u8; 32],
        epoch: u32,
        message: &[u8; MESSAGE_LENGTH],
        counter: u64,
    ) -> (r: Vec<u8>) {
        if RAND_LENGTH > 32 {
            let empty: Vec<u8> = Vec::new();
            return empty;
        }
        let mut combined: Vec<u8> = Vec::new();
        push_domain_sep(&mut combined);
        combined.push(0x01);
        proof {
            assert(prf_domain_sep_seq().push(0x01u8) =~= prf_domain_sep_seq() + seq![0x01u8]);
        }
        push_bytes(&mut combined, key.as_slice());
        push_u32_be(&mut combined, epoch);
        push_bytes(&mut combined, message.as_slice());
        push_u64_be(&mut combined, counter);
        let digest = keccak256_hash(&combined);
        take_prefix(&digest, RAND_LENGTH)
    }
}

} // verus!
