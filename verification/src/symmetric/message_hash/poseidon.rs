use vstd::prelude::*;
use rand::RngExt;
use vstd::arithmetic::power::{pow, lemma_pow0, lemma_pow1, lemma_pow_adds, lemma_pow_positive};
use vstd::arithmetic::power2::{pow2, lemma_pow2_pos, lemma2_to64};
use vstd::arithmetic::div_mod::lemma_fundamental_div_mod_converse;
use crate::MESSAGE_LENGTH;
use crate::TWEAK_SEPARATOR_FOR_MESSAGE_HASH;
use crate::bignum::BigNat;
use crate::symmetric::message_hash::MessageHash;
use crate::symmetric::tweak_hash::poseidon::{
    BABYBEAR_MODULUS, append_all, base_p_digit_seq, compress_spec, le_u32_value,
    lemma_base_p_digit_seq_value, lemma_le_u32_value_bound, lemma_le_u32_value_injective,
    lemma_le_u32_value_push, lemma_le_u32_value_unfold, poseidon_compress,
};

verus! {

/// Relies on rand's Rng::random: whatever was drawn, the result is a vector
/// of canonical residues of the requested length.
#[verifier::external_body]
pub fn random_field_elements<R: rand::Rng>(rng: &mut R, n: usize) -> (r: Vec<u32>)
    ensures
        r@.len() == n,
        forall|i: int| 0 <= i < r@.len() ==> r@[i] < BABYBEAR_MODULUS,
{
    (0..n).map(|_| rng.random::<u32>() % BABYBEAR_MODULUS).collect()
}

/// A little-endian byte string read back as a number.
pub open spec fn le_bytes_value(s: Seq<u8>) -> nat
    decreases s.len(),
{
    if s.len() == 0 {
        0
    } else {
        (s[0] + 256 * le_bytes_value(s.skip(1))) as nat
    }
}

pub proof fn lemma_le_bytes_value_unfold(s: Seq<u8>)
    ensures
        le_bytes_value(s) == if s.len() == 0 {
            0nat
        } else {
            (s[0] + 256 * le_bytes_value(s.skip(1))) as nat
        },
{
}

/// A big-endian string of field elements read back as a number in base p.
pub open spec fn be_u32_value(s: Seq<u32>, b: nat) -> nat
    decreases s.len(),
{
    if s.len() == 0 {
        0
    } else {
        (be_u32_value(s.drop_last(), b) * b + s.last()) as nat
    }
}

pub proof fn lemma_be_u32_value_unfold(s: Seq<u32>, b: nat)
    ensures
        be_u32_value(s, b) == if s.len() == 0 {
            0nat
        } else {
            (be_u32_value(s.drop_last(), b) * b + s.last()) as nat
        },
{
}

/// A little-endian string of byte-sized chunks read back as a number.
pub open spec fn le_chunks_value(s: Seq<u8>, b: nat) -> nat
    decreases s.len(),
{
    if s.len() == 0 {
        0
    } else {
        (s[0] + b * le_chunks_value(s.skip(1), b)) as nat
    }
}

pub proof fn lemma_le_chunks_value_unfold(s: Seq<u8>, b: nat)
    ensures
        le_chunks_value(s, b) == if s.len() == 0 {
            0nat
        } else {
            (s[0] + b * le_chunks_value(s.skip(1), b)) as nat
        },
{
}

pub proof fn lemma_le_chunks_value_push(s: Seq<u8>, b: nat, x: u8)
    requires
        b >= 1,
    ensures
        le_chunks_value(s.push(x), b) == le_chunks_value(s, b) + x * pow(b as int, s.len()),
    decreases s.len(),
{
    lemma_le_chunks_value_unfold(s.push(x), b);
    lemma_le_chunks_value_unfold(s, b);
    lemma_pow_positive(b as int, s.len());
    assert(s.push(x)[0] == if s.len() == 0 {
        x
    } else {
        s[0]
    });
    if s.len() == 0 {
        assert(s.push(x).skip(1) =~= Seq::<u8>::empty());
        lemma_le_chunks_value_unfold(Seq::<u8>::empty(), b);
        lemma_pow0(b as int);
        assert(le_chunks_value(s.push(x), b) == x + b * 0);
        assert(x * pow(b as int, 0) == x) by (nonlinear_arith)
            requires
                pow(b as int, 0) == 1,
        ;
    } else {
        assert(s.push(x).skip(1) =~= s.skip(1).push(x));
        lemma_le_chunks_value_push(s.skip(1), b, x);
        let p = pow(b as int, (s.len() - 1) as nat);
        lemma_pow_adds(b as int, 1, (s.len() - 1) as nat);
        lemma_pow1(b as int);
        lemma_pow_positive(b as int, (s.len() - 1) as nat);
        assert(pow(b as int, s.len()) == b * p);
        assert(le_chunks_value(s.push(x), b) == s[0] + b * (le_chunks_value(s.skip(1), b) + x * p));
        assert(b * (le_chunks_value(s.skip(1), b) + x * p) == b * le_chunks_value(s.skip(1), b) + x
            * (b * p)) by (nonlinear_arith);
    }
}

pub proof fn lemma_le_chunks_value_bound(s: Seq<u8>, b: nat)
    requires
        b >= 1,
        forall|i: int| 0 <= i < s.len() ==> s[i] < b,
    ensures
        le_chunks_value(s, b) < pow(b as int, s.len()),
    decreases s.len(),
{
    lemma_le_chunks_value_unfold(s, b);
    if s.len() == 0 {
        lemma_pow0(b as int);
    } else {
        assert(forall|i: int| 0 <= i < s.skip(1).len() ==> s.skip(1)[i] == s[i + 1]);
        lemma_le_chunks_value_bound(s.skip(1), b);
        let p = pow(b as int, (s.len() - 1) as nat);
        lemma_pow_adds(b as int, 1, (s.len() - 1) as nat);
        lemma_pow1(b as int);
        lemma_pow_positive(b as int, (s.len() - 1) as nat);
        assert(s[0] + b * le_chunks_value(s.skip(1), b) < b * p) by (nonlinear_arith)
            requires
                s[0] < b,
                le_chunks_value(s.skip(1), b) + 1 <= p,
                b >= 1,
        ;
    }
}

/// Read a little-endian byte string into an arbitrary-precision number.
fn bignat_from_le_bytes(bytes: &[u8]) -> (r: BigNat)
    ensures
        r@ == le_bytes_value(bytes@),
        r.wf(),
{
    let mut acc = BigNat::zero();
    let mut i = bytes.len();
    proof {
        assert(bytes@.skip(bytes@.len() as int) =~= Seq::<u8>::empty());
        lemma_le_bytes_value_unfold(Seq::<u8>::empty());
    }
    while i > 0
        invariant
            i <= bytes@.len(),
            acc.wf(),
            acc@ == le_bytes_value(bytes@.skip(i as int)),
        decreases i,
    {
        i -= 1;
        acc.mul_small_add(256, bytes[i] as u32);
        proof {
            assert(bytes@.skip(i as int)[0] == bytes@[i as int]);
            assert(bytes@.skip(i as int).skip(1) =~= bytes@.skip(i + 1));
            lemma_le_bytes_value_unfold(bytes@.skip(i as int));
        }
    }
    proof {
        assert(bytes@.skip(0) =~= bytes@);
    }
    acc
}

/// Function to encode a message as a vector of field elements: interpret the
/// bytes as a number and write it in base p, least-significant digit first.
pub fn encode_message(message: &[u8; MESSAGE_LENGTH], msg_len_fe: usize) -> (r: Vec<u32>)
    requires
        msg_len_fe <= 0x1_0000,
    ensures
        r@.len() == msg_len_fe,
        forall|i: int| 0 <= i < r@.len() ==> r@[i] < BABYBEAR_MODULUS,
        le_u32_value(r@, BABYBEAR_MODULUS as nat) == le_bytes_value(message@) % (pow(
            BABYBEAR_MODULUS as int,
            msg_len_fe as nat,
        ) as nat),
        r@ == base_p_digit_seq(le_bytes_value(message@), msg_len_fe as nat),
{
    let ghost pn = BABYBEAR_MODULUS as nat;
    let mut acc = bignat_from_le_bytes(message.as_slice());
    let mut out: Vec<u32> = Vec::new();
    let mut k: usize = 0;
    proof {
        lemma_le_u32_value_unfold(Seq::<u32>::empty(), pn);
        lemma_pow0(BABYBEAR_MODULUS as int);
    }
    while k < msg_len_fe
        invariant
            k <= msg_len_fe <= 0x1_0000,
            pn == BABYBEAR_MODULUS as nat,
            acc.wf(),
            out@.len() == k,
            forall|i: int| 0 <= i < out@.len() ==> out@[i] < BABYBEAR_MODULUS,
            le_u32_value(out@, pn) + acc@ * pow(BABYBEAR_MODULUS as int, k as nat)
                == le_bytes_value(message@),
        decreases msg_len_fe - k,
    {
        let ghost acc_old = acc@;
        let (q, digit) = acc.divmod_small(BABYBEAR_MODULUS);
        proof {
            lemma_le_u32_value_push(out@, pn, digit);
        }
        out.push(digit);
        acc = q;
        proof {
            lemma_pow_adds(BABYBEAR_MODULUS as int, k as nat, 1);
            lemma_pow1(BABYBEAR_MODULUS as int);
            lemma_pow_positive(BABYBEAR_MODULUS as int, k as nat);
            let p = pow(BABYBEAR_MODULUS as int, k as nat);
            assert(acc_old == BABYBEAR_MODULUS * (acc_old / BABYBEAR_MODULUS as nat) + acc_old
                % BABYBEAR_MODULUS as nat) by {
                vstd::arithmetic::div_mod::lemma_fundamental_div_mod(
                    acc_old as int,
                    BABYBEAR_MODULUS as int,
                );
            }
            assert(digit * p + (BABYBEAR_MODULUS * acc@ + digit) * p == digit * p + acc_old * p)
                by (nonlinear_arith)
                requires
                    acc_old == BABYBEAR_MODULUS * acc@ + digit,
            ;
            assert((BABYBEAR_MODULUS * acc@ + digit) * p == acc@ * (p * BABYBEAR_MODULUS) + digit
                * p) by (nonlinear_arith);
        }
        k += 1;
    }
    proof {
        lemma_le_u32_value_bound(out@, pn);
        lemma_pow_positive(BABYBEAR_MODULUS as int, msg_len_fe as nat);
        lemma_fundamental_div_mod_converse(
            le_bytes_value(message@) as int,
            pow(BABYBEAR_MODULUS as int, msg_len_fe as nat),
            acc@ as int,
            le_u32_value(out@, pn) as int,
        );
        lemma_base_p_digit_seq_value(le_bytes_value(message@), msg_len_fe as nat);
        lemma_le_u32_value_injective(
            out@,
            base_p_digit_seq(le_bytes_value(message@), msg_len_fe as nat),
            pn,
        );
    }
    out
}

/// Function to encode an epoch (the tweak of the message hash) as a vector
/// of field elements.
pub fn encode_epoch(epoch: u32, tweak_len_fe: usize) -> (r: Vec<u32>)
    requires
        tweak_len_fe <= 64,
    ensures
        r@.len() == tweak_len_fe,
        forall|i: int| 0 <= i < r@.len() ==> r@[i] < BABYBEAR_MODULUS,
        le_u32_value(r@, BABYBEAR_MODULUS as nat) == (epoch * 256
            + TWEAK_SEPARATOR_FOR_MESSAGE_HASH) as nat % (pow(
            BABYBEAR_MODULUS as int,
            tweak_len_fe as nat,
        ) as nat),
        r@ == base_p_digit_seq(
            (epoch * 256 + TWEAK_SEPARATOR_FOR_MESSAGE_HASH) as nat,
            tweak_len_fe as nat,
        ),
{
    let value: u64 = (epoch as u64) * 256 + TWEAK_SEPARATOR_FOR_MESSAGE_HASH as u64;
    crate::symmetric::tweak_hash::poseidon::base_p_digits(value as u128, tweak_len_fe)
}

/// Function to decode a vector of field elements into `num_chunks` chunks,
/// each between 0 and 2^chunk_size - 1 (inclusive): the field elements are
/// read as one big-endian base-p number, which is then written in base
/// 2^chunk_size, least-significant chunk first.
pub fn decode_to_chunks(field_elements: &Vec<u32>, num_chunks: usize, chunk_size: usize) -> (r: Vec<
    u8,
>)
    requires
        1 <= chunk_size <= 8,
        num_chunks <= 0x1_0000,
        forall|i: int| 0 <= i < field_elements@.len() ==> field_elements@[i] < BABYBEAR_MODULUS,
    ensures
        r@.len() == num_chunks,
        forall|i: int| 0 <= i < r@.len() ==> r@[i] < pow2(chunk_size as nat),
        le_chunks_value(r@, pow2(chunk_size as nat)) == be_u32_value(
            field_elements@,
            BABYBEAR_MODULUS as nat,
        ) % (pow(pow2(chunk_size as nat) as int, num_chunks as nat) as nat),
{
    let ghost pn = BABYBEAR_MODULUS as nat;
    // fold the field elements into one number, most significant first
    let mut acc = BigNat::zero();
    let mut i: usize = 0;
    proof {
        lemma_be_u32_value_unfold(field_elements@.take(0), pn);
        assert(field_elements@.take(0) =~= Seq::<u32>::empty());
    }
    while i < field_elements.len()
        invariant
            i <= field_elements@.len(),
            pn == BABYBEAR_MODULUS as nat,
            forall|k: int| 0 <= k < field_elements@.len() ==> field_elements@[k]
                < BABYBEAR_MODULUS,
            acc.wf(),
            acc@ == be_u32_value(field_elements@.take(i as int), pn),
        decreases field_elements@.len() - i,
    {
        acc.mul_small_add(BABYBEAR_MODULUS, field_elements[i]);
        proof {
            assert(field_elements@.take(i + 1).drop_last() =~= field_elements@.take(i as int));
            assert(field_elements@.take(i + 1).last() == field_elements@[i as int]);
            lemma_be_u32_value_unfold(field_elements@.take(i + 1), pn);
        }
        i += 1;
    }
    proof {
        assert(field_elements@.take(field_elements@.len() as int) =~= field_elements@);
    }
    let ghost hash_value = acc@;
    // split the number into chunks
    let base = crate::inc_encoding::pow2_usize(chunk_size);
    proof {
        lemma2_to64();
        if (chunk_size as nat) < 8 {
            vstd::arithmetic::power2::lemma_pow2_strictly_increases(chunk_size as nat, 8);
        }
        lemma_pow2_pos(chunk_size as nat);
    }
    let mut out: Vec<u8> = Vec::new();
    let mut k: usize = 0;
    proof {
        lemma_le_chunks_value_unfold(Seq::<u8>::empty(), base as nat);
        lemma_pow0(base as int);
    }
    while k < num_chunks
        invariant
            k <= num_chunks <= 0x1_0000,
            2 <= base <= 256,
            base == pow2(chunk_size as nat),
            acc.wf(),
            out@.len() == k,
            forall|i2: int| 0 <= i2 < out@.len() ==> out@[i2] < base,
            le_chunks_value(out@, base as nat) + acc@ * pow(base as int, k as nat) == hash_value,
        decreases num_chunks - k,
    {
        let ghost acc_old = acc@;
        let (q, digit) = acc.divmod_small(base as u32);
        let chunk: u8 = digit as u8;
        proof {
            lemma_le_chunks_value_push(out@, base as nat, chunk);
        }
        out.push(chunk);
        acc = q;
        proof {
            lemma_pow_adds(base as int, k as nat, 1);
            lemma_pow1(base as int);
            lemma_pow_positive(base as int, k as nat);
            let p = pow(base as int, k as nat);
            assert(acc_old == base * (acc_old / base as nat) + acc_old % base as nat) by {
                vstd::arithmetic::div_mod::lemma_fundamental_div_mod(acc_old as int, base as int);
            }
            assert((base * acc@ + digit) * p == acc@ * (p * base) + digit * p) by (nonlinear_arith);
        }
        k += 1;
    }
    proof {
        lemma_le_chunks_value_bound(out@, base as nat);
        lemma_pow_positive(base as int, num_chunks as nat);
        lemma_fundamental_div_mod_converse(
            hash_value as int,
            pow(base as int, num_chunks as nat),
            acc@ as int,
            le_chunks_value(out@, base as nat) as int,
        );
    }
    out
}

/// A message hash implemented using Poseidon2.
///
/// Note: PARAMETER_LEN, RAND_LEN, TWEAK_LEN_FE, MSG_LEN_FE, and HASH_LEN_FE
/// must be given in the unit "number of field elements".
///
/// HASH_LEN_FE specifies how many field elements the hash output needs to be
/// before it is decoded to chunks.  CHUNK_SIZE has to be 1, 2, 4, or 8.
pub struct PoseidonMessageHash<
    const PARAMETER_LEN: usize,
    const RAND_LEN: usize,
    const HASH_LEN_FE: usize,
    const NUM_CHUNKS: usize,
    const CHUNK_SIZE: usize,
    const TWEAK_LEN_FE: usize,
    const MSG_LEN_FE: usize,
>;

impl<
    const PARAMETER_LEN: usize,
    const RAND_LEN: usize,
    const HASH_LEN_FE: usize,
    const NUM_CHUNKS: usize,
    const CHUNK_SIZE: usize,
    const TWEAK_LEN_FE: usize,
    const MSG_LEN_FE: usize,
> MessageHash for PoseidonMessageHash<
    PARAMETER_LEN,
    RAND_LEN,
    HASH_LEN_FE,
    NUM_CHUNKS,
    CHUNK_SIZE,
    TWEAK_LEN_FE,
    MSG_LEN_FE,
> {
    type Parameter = Vec<u32>;

    type Randomness = Vec<u32>;

    open spec fn parameter_ok(parameter: &Vec<u32>) -> bool {
        &&& parameter@.len() == PARAMETER_LEN
        &&& forall|i: int| 0 <= i < parameter@.len() ==> parameter@[i] < BABYBEAR_MODULUS
    }

    open spec fn randomness_ok(randomness: &Vec<u32>) -> bool {
        &&& randomness@.len() == RAND_LEN
        &&& forall|i: int| 0 <= i < randomness@.len() ==> randomness@[i] < BABYBEAR_MODULUS
    }

    /// The digest, exactly: the compression of randomness, epoch digits,
    /// message digits and parameter, read as one base-p number and written
    /// in base-2^CHUNK_SIZE chunks.  Configurations the compression mode
    /// cannot take give the all-zero digest.
    open spec fn apply_ok(
        parameter: &Vec<u32>,
        epoch: u32,
        randomness: &Vec<u32>,
        message: &[u8; MESSAGE_LENGTH],
        r: &Vec<u8>,
    ) -> bool {
        if CHUNK_SIZE < 1 || CHUNK_SIZE > 8 || NUM_CHUNKS > 0x1_0000 || PARAMETER_LEN > 24
            || TWEAK_LEN_FE > 24 || RAND_LEN > 24 || MSG_LEN_FE > 24 || HASH_LEN_FE > 24
            || PARAMETER_LEN + TWEAK_LEN_FE + RAND_LEN + MSG_LEN_FE > 24 || HASH_LEN_FE
            > PARAMETER_LEN + TWEAK_LEN_FE + RAND_LEN + MSG_LEN_FE {
            r@ == Seq::new(NUM_CHUNKS as nat, |i: int| 0u8)
        } else {
            le_chunks_value(r@, pow2(CHUNK_SIZE as nat)) == be_u32_value(
                compress_spec(
                    randomness@ + base_p_digit_seq(
                        (epoch * 256 + crate::TWEAK_SEPARATOR_FOR_MESSAGE_HASH) as nat,
                        TWEAK_LEN_FE as nat,
                    ) + base_p_digit_seq(le_bytes_value(message@), MSG_LEN_FE as nat) + parameter@,
                    HASH_LEN_FE as nat,
                ),
                BABYBEAR_MODULUS as nat,
            ) % (pow(pow2(CHUNK_SIZE as nat) as int, NUM_CHUNKS as nat) as nat)
        }
    }

    open spec fn num_chunks_spec() -> nat {
        NUM_CHUNKS as nat
    }

    open spec fn chunk_size_spec() -> nat {
        CHUNK_SIZE as nat
    }

    fn num_chunks() -> (r: usize) {
        NUM_CHUNKS
    }

    fn chunk_size() -> (r: usize) {
        CHUNK_SIZE
    }

    fn rand<R: rand::Rng>(rng: &mut R) -> (r: Vec<u32>) {
        random_field_elements(rng, RAND_LEN)
    }

    /// Hash randomness, epoch, message and parameter in compression mode and
    /// decode the output to chunks.  A configuration whose inputs do not fit
    /// one permutation state, or whose chunks exceed a byte, yields the
    /// all-zero digest instead; such configurations fail the scheme's
    /// consistency checks and are never used.
    fn apply(
        parameter: &Vec<u32>,
        epoch: u32,
        randomness: &Vec<u32>,
        message: &[u8; MESSAGE_LENGTH],
    ) -> (r: Vec<u8>) {
        proof {
            lemma_pow2_pos(CHUNK_SIZE as nat);
        }
        if CHUNK_SIZE < 1 || CHUNK_SIZE > 8 || NUM_CHUNKS > 0x1_0000 || PARAMETER_LEN > 24
            || TWEAK_LEN_FE > 24 || RAND_LEN > 24 || MSG_LEN_FE > 24 || HASH_LEN_FE > 24 {
            let r = zero_chunks(NUM_CHUNKS);
            proof {
                assert(r@ =~= Seq::new(NUM_CHUNKS as nat, |i: int| 0u8));
            }
            return r;
        }
        if PARAMETER_LEN + TWEAK_LEN_FE + RAND_LEN + MSG_LEN_FE > 24 || HASH_LEN_FE > PARAMETER_LEN
            + TWEAK_LEN_FE + RAND_LEN + MSG_LEN_FE {
            let r = zero_chunks(NUM_CHUNKS);
            proof {
                assert(r@ =~= Seq::new(NUM_CHUNKS as nat, |i: int| 0u8));
            }
            return r;
        }
        let message_fe = encode_message(message, MSG_LEN_FE);
        let epoch_fe = encode_epoch(epoch, TWEAK_LEN_FE);
        let mut combined: Vec<u32> = Vec::new();
        append_all(&mut combined, randomness);
        append_all(&mut combined, &epoch_fe);
        append_all(&mut combined, &message_fe);
        append_all(&mut combined, parameter);
        let hash_fe = poseidon_compress(&combined, HASH_LEN_FE);
        decode_to_chunks(&hash_fe, NUM_CHUNKS, CHUNK_SIZE)
    }
}

/// The all-zero digest, for configurations the compression mode cannot take.
fn zero_chunks(n: usize) -> (r: Vec<u8>)
    ensures
        r@.len() == n,
        forall|i: int| 0 <= i < r@.len() ==> r@[i] == 0u8,
{
    let mut out: Vec<u8> = Vec::new();
    let mut i: usize = 0;
    while i < n
        invariant
            i <= n,
            out@.len() == i,
            forall|k: int| 0 <= k < i ==> out@[k] == 0u8,
        decreases n - i,
    {
        out.push(0);
        i += 1;
    }
    out
}


} // verus!
