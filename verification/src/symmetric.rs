use vstd::prelude::*;
use rand::RngExt;

pub mod hashprf;
pub mod message_hash;
pub mod prf;
pub mod tweak_hash;

verus! {

/// A pseudorandom function keyed by a fixed-size key, mapping a counter to
/// a fixed-size output.
pub trait Pseudorandom {
    type Key;

    type Output;

    /// What the function returns on a key and a counter.
    spec fn apply_ok(key: &Self::Key, input: u64, r: &Self::Output) -> bool;

    /// Sample a fresh key.
    fn gen<R: rand::Rng>(rng: &mut R) -> Self::Key;

    /// Evaluate the function on a counter.
    fn apply(key: &Self::Key, input: u64) -> (r: Self::Output)
        ensures
            Self::apply_ok(key, input, &r),
    ;
}

/// Relies on rand's Rng::random: a fresh 32-byte key, of unspecified value.
#[verifier::external_body]
pub(crate) fn random_key<R: rand::Rng>(rng: &mut R) -> (r: [u8; 32]) {
    rng.random()
}

/// The domain separator mixed into every input of the hash-based
/// pseudorandom functions.
pub open spec fn prf_domain_sep_seq() -> Seq<u8> {
    seq![
        0x00u8,
        0x01u8,
        0x12u8,
        0xffu8,
        0x00u8,
        0x01u8,
        0xfau8,
        0xffu8,
        0x00u8,
        0xafu8,
        0x12u8,
        0xffu8,
        0x01u8,
        0xfau8,
        0xffu8,
        0x00u8,
    ]
}

/// The big-endian bytes of a 32-bit integer.
pub open spec fn u32_be_seq(x: u32) -> Seq<u8> {
    seq![(x >> 24) as u8, (x >> 16) as u8, (x >> 8) as u8, x as u8]
}

/// The big-endian bytes of a 64-bit integer.
pub open spec fn u64_be_seq(x: u64) -> Seq<u8> {
    seq![
        (x >> 56) as u8,
        (x >> 48) as u8,
        (x >> 40) as u8,
        (x >> 32) as u8,
        (x >> 24) as u8,
        (x >> 16) as u8,
        (x >> 8) as u8,
        x as u8,
    ]
}

/// Append the fixed domain separator.
pub fn push_domain_sep(out: &mut Vec<u8>)
    ensures
        final(out)@ == old(out)@ + prf_domain_sep_seq(),
{
    out.push(0x00);
    out.push(0x01);
    out.push(0x12);
    out.push(0xff);
    out.push(0x00);
    out.push(0x01);
    out.push(0xfa);
    out.push(0xff);
    out.push(0x00);
    out.push(0xaf);
    out.push(0x12);
    out.push(0xff);
    out.push(0x01);
    out.push(0xfa);
    out.push(0xff);
    out.push(0x00);
    proof {
        assert(out@ =~= old(out)@ + prf_domain_sep_seq());
    }
}

/// Append the big-endian bytes of a 32-bit integer.
pub fn push_u32_be(out: &mut Vec<u8>, x: u32)
    ensures
        final(out)@ == old(out)@ + u32_be_seq(x),
{
    out.push((x >> 24) as u8);
    out.push((x >> 16) as u8);
    out.push((x >> 8) as u8);
    out.push(x as u8);
    proof {
        assert(out@ =~= old(out)@ + u32_be_seq(x));
    }
}

/// Append the big-endian bytes of a 64-bit integer.
pub fn push_u64_be(out: &mut Vec<u8>, x: u64)
    ensures
        final(out)@ == old(out)@ + u64_be_seq(x),
{
    out.push((x >> 56) as u8);
    out.push((x >> 48) as u8);
    out.push((x >> 40) as u8);
    out.push((x >> 32) as u8);
    out.push((x >> 24) as u8);
    out.push((x >> 16) as u8);
    out.push((x >> 8) as u8);
    out.push(x as u8);
    proof {
        assert(out@ =~= old(out)@ + u64_be_seq(x));
    }
}

/// Append a copy of every byte of `src`.
pub fn push_bytes(out: &mut Vec<u8>, src: &[u8])
    ensures
        final(out)@ == old(out)@ + src@,
{
    let mut i: usize = 0;
    while i < src.len()
        invariant
            i <= src@.len(),
            out@ == old(out)@ + src@.take(i as int),
        decreases src@.len() - i,
    {
        proof {
            assert(old(out)@ + src@.take(i + 1) =~= (old(out)@ + src@.take(i as int)).push(
                src@[i as int],
            ));
        }
        out.push(src[i]);
        i += 1;
    }
    proof {
        assert(old(out)@ + src@.take(src@.len() as int) =~= old(out)@ + src@);
    }
}

} // verus!
