use vstd::prelude::*;
use vstd::arithmetic::power::{pow, lemma_pow0, lemma_pow1, lemma_pow_adds, lemma_pow_positive};
use vstd::arithmetic::power2::{pow2, lemma_pow2_strictly_increases, lemma2_to64};
use vstd::arithmetic::div_mod::{lemma_fundamental_div_mod, lemma_mod_bound};
use core::marker::PhantomData;
use crate::MESSAGE_LENGTH;
use crate::hypercube::{
    vertex_dist, vertex_ok, lemma_vertex_dist_push, lemma_vertex_dist_unfold,
    lemma_vertex_dist_range,
};
use crate::inc_encoding::{EncodingError, IncomparableEncoding, pow2_usize};
use crate::symmetric::message_hash::MessageHash;

verus! {

/// The k-th base-w digit of s, least significant digit first.
pub open spec fn nth_digit(s: nat, w: nat, k: nat) -> nat {
    (s / (pow(w as int, k) as nat)) % w
}

/// The lowest digit is the remainder modulo the base.
pub proof fn lemma_nth_digit_zero(s: nat, w: nat)
    requires
        w >= 1,
    ensures
        nth_digit(s, w, 0) == s % w,
{
    lemma_pow0(w as int);
    vstd::arithmetic::div_mod::lemma_div_basics(s as int);
}

/// Dropping the lowest digit shifts the whole digit string down by one.
pub proof fn lemma_nth_digit_step(s: nat, w: nat, k: nat)
    requires
        w >= 1,
    ensures
        nth_digit(s, w, (k + 1) as nat) == nth_digit(s / w, w, k),
{
    lemma_pow_positive(w as int, k);
    lemma_pow_adds(w as int, 1, k);
    lemma_pow1(w as int);
    vstd::arithmetic::div_mod::lemma_div_denominator(s as int, w as int, pow(w as int, k));
}

pub proof fn lemma_nth_digit_bound(s: nat, w: nat, k: nat)
    requires
        w >= 1,
    ensures
        nth_digit(s, w, k) < w,
{
    lemma_pow_positive(w as int, k);
    lemma_mod_bound((s / (pow(w as int, k) as nat)) as int, w as int);
}

/// The checksum written in base w, least-significant digit first, to a fixed
/// number of digits.
pub open spec fn checksum_digits(s: nat, w: nat, c: nat) -> Seq<u16> {
    Seq::new(c, |k: int| nth_digit(s, w, k as nat) as u16)
}

/// The codeword of the basic Winternitz encoding: the digest chunks
/// themselves, followed by the checksum sum of (w-1-m_i) in base-w digits.
pub open spec fn basic_codeword(w: nat, c: nat, m: Seq<u8>) -> Seq<u16> {
    m.map(|i: int, x: u8| x as u16) + checksum_digits(vertex_dist(w, m) as nat, w, c)
}

/// Pointwise larger-or-equal coordinates give a smaller-or-equal distance.
pub proof fn lemma_dist_mono(w: nat, a: Seq<u8>, b: Seq<u8>)
    requires
        a.len() == b.len(),
        forall|i: int| 0 <= i < a.len() ==> a[i] >= b[i],
    ensures
        vertex_dist(w, a) <= vertex_dist(w, b),
    decreases a.len(),
{
    lemma_vertex_dist_unfold(w, a);
    lemma_vertex_dist_unfold(w, b);
    if a.len() > 0 {
        assert(forall|i: int| 0 <= i < a.skip(1).len() ==> a.skip(1)[i] == a[i + 1]);
        assert(forall|i: int| 0 <= i < b.skip(1).len() ==> b.skip(1)[i] == b[i + 1]);
        lemma_dist_mono(w, a.skip(1), b.skip(1));
    }
}

/// Pointwise larger coordinates, somewhere strictly, give a strictly smaller
/// distance.
pub proof fn lemma_dist_strict(w: nat, a: Seq<u8>, b: Seq<u8>)
    requires
        a.len() == b.len(),
        a != b,
        forall|i: int| 0 <= i < a.len() ==> a[i] >= b[i],
    ensures
        vertex_dist(w, a) < vertex_dist(w, b),
    decreases a.len(),
{
    lemma_vertex_dist_unfold(w, a);
    lemma_vertex_dist_unfold(w, b);
    assert(a.len() > 0) by {
        if a.len() == 0 {
            assert(a =~= b);
        }
    }
    let ta = a.skip(1);
    let tb = b.skip(1);
    assert(forall|i: int| 0 <= i < ta.len() ==> ta[i] == a[i + 1]);
    assert(forall|i: int| 0 <= i < tb.len() ==> tb[i] == b[i + 1]);
    if a[0] > b[0] {
        lemma_dist_mono(w, ta, tb);
    } else {
        assert(ta != tb) by {
            if ta == tb {
                assert(forall|i: int| 1 <= i < a.len() ==> a[i] == ta[i - 1] && b[i] == tb[i - 1]);
                assert(a =~= b);
            }
        }
        lemma_dist_strict(w, ta, tb);
    }
}

/// If every base-w digit of s1 is at least the matching digit of s2, and both
/// fit in c digits, then s1 is at least s2.
pub proof fn lemma_digits_ge(w: nat, c: nat, s1: nat, s2: nat)
    requires
        2 <= w <= 0x1_0000,
        s1 < pow(w as int, c),
        s2 < pow(w as int, c),
        forall|k: int|
            0 <= k < c ==> #[trigger] checksum_digits(s1, w, c)[k] >= checksum_digits(s2, w, c)[k],
    ensures
        s1 >= s2,
    decreases c,
{
    if c == 0 {
        lemma_pow0(w as int);
    } else {
        lemma_pow_adds(w as int, 1, (c - 1) as nat);
        lemma_pow1(w as int);
        lemma_pow_positive(w as int, (c - 1) as nat);
        lemma_fundamental_div_mod(s1 as int, w as int);
        lemma_fundamental_div_mod(s2 as int, w as int);
        lemma_mod_bound(s1 as int, w as int);
        lemma_mod_bound(s2 as int, w as int);
        let p = pow(w as int, (c - 1) as nat);
        assert(s1 / w < p) by (nonlinear_arith)
            requires
                s1 < w * p,
                w >= 2,
                s1 == w * (s1 / w) + s1 % w,
                s1 % w >= 0,
                p >= 1,
        ;
        assert(s2 / w < p) by (nonlinear_arith)
            requires
                s2 < w * p,
                w >= 2,
                s2 == w * (s2 / w) + s2 % w,
                s2 % w >= 0,
                p >= 1,
        ;
        // heads: the first digits compare as the hypothesis says
        assert(s1 % w >= s2 % w) by {
            assert(checksum_digits(s1, w, c)[0] >= checksum_digits(s2, w, c)[0]);
            lemma_nth_digit_zero(s1, w);
            lemma_nth_digit_zero(s2, w);
            lemma_nth_digit_bound(s1, w, 0);
            lemma_nth_digit_bound(s2, w, 0);
        }
        // tails: the digit vectors of the quotients compare pointwise
        assert forall|k: int|
            0 <= k < c - 1 implies #[trigger] checksum_digits(s1 / w, w, (c - 1) as nat)[k]
            >= checksum_digits(s2 / w, w, (c - 1) as nat)[k] by {
            assert(checksum_digits(s1, w, c)[k + 1] >= checksum_digits(s2, w, c)[k + 1]);
            lemma_nth_digit_step(s1, w, k as nat);
            lemma_nth_digit_step(s2, w, k as nat);
            lemma_nth_digit_bound(s1, w, (k + 1) as nat);
            lemma_nth_digit_bound(s2, w, (k + 1) as nat);
            lemma_nth_digit_bound(s1 / w, w, k as nat);
            lemma_nth_digit_bound(s2 / w, w, k as nat);
        }
        lemma_digits_ge(w, (c - 1) as nat, s1 / w, s2 / w);
        assert(s1 >= s2) by (nonlinear_arith)
            requires
                s1 == w * (s1 / w) + s1 % w,
                s2 == w * (s2 / w) + s2 % w,
                s1 / w >= s2 / w,
                s1 % w >= s2 % w,
                w >= 2,
        ;
    }
}

/// Incomparability of the basic Winternitz encoding: two distinct chunk
/// vectors give codewords of which neither dominates the other; somewhere the
/// first falls strictly below the second.
pub proof fn lemma_basic_incomparable(w: nat, c: nat, m1: Seq<u8>, m2: Seq<u8>)
    requires
        2 <= w <= 0x1_0000,
        m1.len() == m2.len(),
        vertex_ok(w, m1),
        vertex_ok(w, m2),
        m1 != m2,
        (w - 1) * m1.len() < pow(w as int, c),
    ensures
        exists|i: int|
            0 <= i < m1.len() + c && #[trigger] basic_codeword(w, c, m1)[i] < basic_codeword(
                w,
                c,
                m2,
            )[i],
{
    let cw1 = basic_codeword(w, c, m1);
    let cw2 = basic_codeword(w, c, m2);
    let s1 = vertex_dist(w, m1) as nat;
    let s2 = vertex_dist(w, m2) as nat;
    lemma_vertex_dist_range(w, m1);
    lemma_vertex_dist_range(w, m2);
    if exists|i: int| 0 <= i < m1.len() && m1[i] < m2[i] {
        let i = choose|i: int| 0 <= i < m1.len() && m1[i] < m2[i];
        assert(cw1[i] == m1[i] as u16);
        assert(cw2[i] == m2[i] as u16);
        assert(cw1[i] < cw2[i]);
    } else {
        assert(forall|i: int| 0 <= i < m1.len() ==> m1[i] >= m2[i]);
        lemma_dist_strict(w, m1, m2);
        // the checksum of m1 is strictly smaller, so some digit of it falls
        // strictly below the matching digit of the checksum of m2
        if forall|k: int|
            0 <= k < c ==> #[trigger] checksum_digits(s1, w, c)[k] >= checksum_digits(s2, w, c)[k] {
            lemma_digits_ge(w, c, s1, s2);
            assert(false);
        }
        let k = choose|k: int|
            0 <= k < c && !(#[trigger] checksum_digits(s1, w, c)[k] >= checksum_digits(
                s2,
                w,
                c,
            )[k]);
        assert(cw1[m1.len() + k] == checksum_digits(s1, w, c)[k]);
        assert(cw2[m1.len() + k] == checksum_digits(s2, w, c)[k]);
        assert(cw1[m1.len() + k] < cw2[m1.len() + k]);
    }
}

/// The deterministic step of the basic Winternitz encoding: append the
/// base-w checksum digits to the digest chunks.
pub fn winternitz_codeword(w: usize, num_checksum_chunks: usize, digest: &Vec<u8>) -> (r: Vec<u16>)
    requires
        2 <= w <= 0x1_0000,
        1 <= digest@.len() <= 0x1_0000,
        num_checksum_chunks <= 0x1_0000,
        forall|i: int| 0 <= i < digest@.len() ==> digest@[i] < w,
    ensures
        r@ == basic_codeword(w as nat, num_checksum_chunks as nat, digest@),
        r@.len() == digest@.len() + num_checksum_chunks,
        forall|i: int| 0 <= i < r@.len() ==> r@[i] < w,
{
    let ghost wn = w as nat;
    let n = digest.len();
    let c = num_checksum_chunks;
    let mut out: Vec<u16> = Vec::new();
    let mut i: usize = 0;
    while i < n
        invariant
            i <= n,
            n == digest@.len() <= 0x1_0000,
            2 <= w <= 0x1_0000,
            forall|k: int| 0 <= k < n ==> digest@[k] < w,
            out@.len() == i,
            forall|k: int| 0 <= k < i ==> out@[k] == digest@[k] as u16,
        decreases n - i,
    {
        out.push(digest[i] as u16);
        i += 1;
    }
    // checksum: the distance of the digest from the all-(w-1) corner
    let mut sum: usize = 0;
    let mut i2: usize = 0;
    proof {
        lemma_vertex_dist_unfold(wn, digest@.take(0));
        assert(digest@.take(0) =~= Seq::<u8>::empty());
    }
    while i2 < n
        invariant
            i2 <= n,
            n == digest@.len() <= 0x1_0000,
            2 <= w <= 0x1_0000,
            wn == w as nat,
            forall|k: int| 0 <= k < n ==> digest@[k] < w,
            sum == vertex_dist(wn, digest@.take(i2 as int)),
            sum <= (w - 1) * i2,
        decreases n - i2,
    {
        proof {
            assert(digest@.take(i2 + 1) =~= digest@.take(i2 as int).push(digest@[i2 as int]));
            lemma_vertex_dist_push(wn, digest@.take(i2 as int), digest@[i2 as int]);
            assert((w - 1) * (i2 + 1) == (w - 1) * i2 + (w - 1)) by (nonlinear_arith);
            assert((w - 1) * i2 <= 0xFFFF * 0x1_0000) by (nonlinear_arith)
                requires
                    2 <= w <= 0x1_0000,
                    0 <= i2 <= 0x1_0000,
            ;
        }
        sum = sum + (w - 1 - digest[i2] as usize);
        i2 += 1;
    }
    proof {
        assert(digest@.take(n as int) =~= digest@);
    }
    // write the checksum in base w, least-significant digit first
    let ghost sum0 = sum as nat;
    let mut s = sum;
    let mut k: usize = 0;
    while k < c
        invariant
            k <= c <= 0x1_0000,
            n == digest@.len(),
            2 <= w <= 0x1_0000,
            wn == w as nat,
            out@.len() == n + k,
            forall|j: int| 0 <= j < n ==> out@[j] == digest@[j] as u16,
            forall|j: int| n <= j < n + k ==> out@[j] == nth_digit(sum0, wn, (j - n) as nat) as u16,
            forall|m: nat| nth_digit(s as nat, wn, m) == nth_digit(sum0, wn, (k + m) as nat),
        decreases c - k,
    {
        let ghost s_old = s as nat;
        let digit: u16 = (s % w) as u16;
        proof {
            lemma_mod_bound(s as int, w as int);
            lemma_nth_digit_zero(s_old, wn);
            assert(nth_digit(s_old, wn, 0) == nth_digit(sum0, wn, (k + 0) as nat));
        }
        out.push(digit);
        s = s / w;
        proof {
            assert forall|m: nat| nth_digit(s as nat, wn, m) == nth_digit(
                sum0,
                wn,
                ((k + 1) + m) as nat,
            ) by {
                lemma_nth_digit_step(s_old, wn, m);
                assert(nth_digit(s_old, wn, (m + 1) as nat) == nth_digit(
                    sum0,
                    wn,
                    (k + (m + 1)) as nat,
                ));
            }
        }
        k += 1;
    }
    proof {
        assert(out@ =~= basic_codeword(wn, c as nat, digest@)) by {
            assert(basic_codeword(wn, c as nat, digest@).len() == n + c);
            assert forall|j: int| 0 <= j < n + c implies out@[j] == basic_codeword(
                wn,
                c as nat,
                digest@,
            )[j] by {
                if j < n {
                    assert(basic_codeword(wn, c as nat, digest@)[j] == digest@[j] as u16);
                } else {
                    assert(basic_codeword(wn, c as nat, digest@)[j] == checksum_digits(
                        vertex_dist(wn, digest@) as nat,
                        wn,
                        c as nat,
                    )[j - n]);
                }
            }
        }
        assert forall|j: int| 0 <= j < out@.len() implies out@[j] < w by {
            if j >= n {
                lemma_nth_digit_bound(sum0, wn, (j - n) as nat);
            }
        }
    }
    out
}

/// Basic Winternitz encoding: the digest chunks of a message hash, followed
/// by checksum chunks.  Deterministic; encoding never rejects.
pub struct WinternitzEncoding<MH: MessageHash, const NUM_CHUNKS_CHECKSUM: usize>(PhantomData<MH>);

impl<MH: MessageHash, const NUM_CHUNKS_CHECKSUM: usize> IncomparableEncoding for WinternitzEncoding<
    MH,
    NUM_CHUNKS_CHECKSUM,
> {
    type Parameter = MH::Parameter;

    type Randomness = MH::Randomness;

    open spec fn parameter_ok(parameter: &MH::Parameter) -> bool {
        MH::parameter_ok(parameter)
    }

    open spec fn randomness_ok(randomness: &MH::Randomness) -> bool {
        MH::randomness_ok(randomness)
    }

    open spec fn dimension_spec() -> nat {
        (MH::num_chunks_spec() + NUM_CHUNKS_CHECKSUM) as nat
    }

    open spec fn base_spec() -> nat {
        pow2(MH::chunk_size_spec())
    }

    open spec fn max_tries_spec() -> nat {
        1
    }

    open spec fn config_ok() -> bool {
        &&& 1 <= MH::chunk_size_spec() <= 8
        &&& 1 <= MH::num_chunks_spec() <= 0x1_0000
        &&& NUM_CHUNKS_CHECKSUM <= 0x1_0000
    }

    open spec fn never_rejects() -> bool {
        true
    }

    /// The result, exactly: on a supported configuration the codeword is the
    /// digest of the message hash with the base-w checksum digits appended.
    open spec fn encode_ok(
        parameter: &MH::Parameter,
        message: &[u8; MESSAGE_LENGTH],
        randomness: &MH::Randomness,
        epoch: u32,
        r: Result<Vec<u16>, EncodingError>,
    ) -> bool {
        if !Self::config_ok() {
            r == Result::<Vec<u16>, EncodingError>::Err(EncodingError::InvalidDimension)
        } else {
            exists|digest: Vec<u8>|
                {
                    &&& #[trigger] MH::apply_ok(parameter, epoch, randomness, message, &digest)
                    &&& r matches Ok(cw) && cw@ == basic_codeword(
                        pow2(MH::chunk_size_spec()),
                        NUM_CHUNKS_CHECKSUM as nat,
                        digest@,
                    )
                }
        }
    }

    fn dimension() -> (r: usize) {
        let n = MH::num_chunks();
        if n <= usize::MAX - NUM_CHUNKS_CHECKSUM {
            n + NUM_CHUNKS_CHECKSUM
        } else {
            usize::MAX
        }
    }

    fn base() -> (r: usize) {
        let z = MH::chunk_size();
        if z <= 16 {
            pow2_usize(z)
        } else {
            proof {
                lemma2_to64();
                lemma_pow2_strictly_increases(16, z as nat);
            }
            usize::MAX
        }
    }

    fn max_tries() -> (r: usize) {
        1
    }

    fn rand<R: rand::Rng>(rng: &mut R) -> (r: MH::Randomness) {
        MH::rand(rng)
    }

    fn encode(
        parameter: &MH::Parameter,
        message: &[u8; MESSAGE_LENGTH],
        randomness: &MH::Randomness,
        epoch: u32,
    ) -> (r: Result<Vec<u16>, EncodingError>) {
        let z = MH::chunk_size();
        let n = MH::num_chunks();
        if z < 1 || z > 8 || n < 1 || n > 0x1_0000 || NUM_CHUNKS_CHECKSUM > 0x1_0000 {
            return Err(EncodingError::InvalidDimension);
        }
        let w = pow2_usize(z);
        proof {
            lemma2_to64();
            if (z as nat) < 16 {
                lemma_pow2_strictly_increases(z as nat, 16);
            }
            if 1 < z {
                lemma_pow2_strictly_increases(1, z as nat);
            }
        }
        let digest = MH::apply(parameter, epoch, randomness, message);
        let cw = winternitz_codeword(w, NUM_CHUNKS_CHECKSUM, &digest);
        proof {
            assert(MH::apply_ok(parameter, epoch, randomness, message, &digest));
            assert(cw@ == basic_codeword(
                pow2(MH::chunk_size_spec()),
                NUM_CHUNKS_CHECKSUM as nat,
                digest@,
            ));
        }
        Ok(cw)
    }
}

} // verus!
