use vstd::prelude::*;
use vstd::arithmetic::power::pow;
use vstd::arithmetic::power2::{pow2, lemma_pow2_strictly_increases, lemma2_to64};
use core::marker::PhantomData;
use crate::MESSAGE_LENGTH;
use crate::bignum::BigNat;
use crate::hypercube::{
    LayerSizes, part_size_spec, vertex_dist, vertex_index, vertex_ok, lemma_part_size_unfold,
    lemma_part_size_mono, lemma_row_sums, lemma_vertex_dist_unfold,
};
use crate::inc_encoding::{EncodingError, IncomparableEncoding, pow2_usize};
use crate::symmetric::message_hash::MessageHash;

verus! {

/// The digest chunks read as one big-endian base-w integer.
pub open spec fn be_chunks_value(s: Seq<u8>, base: nat) -> nat
    decreases s.len(),
{
    if s.len() == 0 {
        0
    } else {
        (be_chunks_value(s.drop_last(), base) * base + s.last()) as nat
    }
}

pub proof fn lemma_be_chunks_value_unfold(s: Seq<u8>, base: nat)
    ensures
        be_chunks_value(s, base) == if s.len() == 0 {
            0nat
        } else {
            (be_chunks_value(s.drop_last(), base) * base + s.last()) as nat
        },
{
}

/// A vector of chunks below the base reads as an integer below base^len.
pub proof fn lemma_be_chunks_value_bound(s: Seq<u8>, base: nat)
    requires
        base >= 1,
        forall|i: int| 0 <= i < s.len() ==> s[i] < base,
    ensures
        be_chunks_value(s, base) < pow(base as int, s.len()),
    decreases s.len(),
{
    lemma_be_chunks_value_unfold(s, base);
    if s.len() == 0 {
        vstd::arithmetic::power::lemma_pow0(base as int);
    } else {
        assert(forall|i: int| 0 <= i < s.drop_last().len() ==> s.drop_last()[i] == s[i]);
        lemma_be_chunks_value_bound(s.drop_last(), base);
        vstd::arithmetic::power::lemma_pow_adds(base as int, (s.len() - 1) as nat, 1);
        vstd::arithmetic::power::lemma_pow1(base as int);
        let p = pow(base as int, (s.len() - 1) as nat);
        assert(be_chunks_value(s.drop_last(), base) * base + s.last() < p * base)
            by (nonlinear_arith)
            requires
                be_chunks_value(s.drop_last(), base) + 1 <= p,
                s.last() < base,
                base >= 1,
        ;
    }
}

/// The coordinate sum of a vertex.
pub open spec fn coord_sum(a: Seq<u8>) -> int
    decreases a.len(),
{
    if a.len() == 0 {
        0
    } else {
        a[0] + coord_sum(a.skip(1))
    }
}

pub proof fn lemma_coord_sum_unfold(a: Seq<u8>)
    ensures
        coord_sum(a) == if a.len() == 0 {
            0int
        } else {
            a[0] + coord_sum(a.skip(1))
        },
{
}

/// Distance and coordinate sum determine one another: their sum is (w-1)v.
pub proof fn lemma_coord_sum_dist(w: nat, a: Seq<u8>)
    ensures
        coord_sum(a) + vertex_dist(w, a) == (w - 1) * a.len(),
    decreases a.len(),
{
    lemma_coord_sum_unfold(a);
    lemma_vertex_dist_unfold(w, a);
    if a.len() > 0 {
        lemma_coord_sum_dist(w, a.skip(1));
        assert((w - 1) * a.len() == (w - 1) + (w - 1) * (a.len() - 1)) by (nonlinear_arith);
    }
}

/// Two distinct vertices of one layer are incomparable: somewhere the first
/// falls strictly below the second.
pub proof fn lemma_target_sum_incomparable(w: nat, a: Seq<u8>, b: Seq<u8>)
    requires
        a.len() == b.len(),
        a != b,
        vertex_dist(w, a) == vertex_dist(w, b),
    ensures
        exists|i: int| 0 <= i < a.len() && a[i] < b[i],
{
    if forall|i: int| 0 <= i < a.len() ==> a[i] >= b[i] {
        crate::inc_encoding::basic_winternitz::lemma_dist_strict(w, a, b);
        assert(false);
    }
}

/// The codeword as a vertex: entries are below 256, so the u16 entries map
/// back to the bytes they came from.
pub open spec fn cw_vertex(cw: Seq<u16>) -> Seq<u8> {
    cw.map(|i: int, x: u16| x as u8)
}

/// Whether a digest integer x lands in layer d: the layers below d are
/// exhausted before x, and layer d reaches past it.
pub open spec fn target_sum_accepts(w: nat, v: nat, d: int, x: nat) -> bool {
    &&& part_size_spec(w, v, d - 1) <= x
    &&& x < part_size_spec(w, v, d)
}

/// What the deterministic target-sum step returns on a digest: exactly when
/// the digest integer lands in layer d, a codeword pinned by its canonical
/// index inside that layer; the rejection otherwise.
pub open spec fn target_sum_result_ok(
    w: nat,
    v: nat,
    d: int,
    digest: Seq<u8>,
    r: Result<Vec<u16>, EncodingError>,
) -> bool {
    if target_sum_accepts(w, v, d, be_chunks_value(digest, w)) {
        r matches Ok(cw) && {
            &&& cw@.len() == v
            &&& (forall|i: int| 0 <= i < cw@.len() ==> cw@[i] < w)
            &&& vertex_ok(w, cw_vertex(cw@))
            &&& vertex_dist(w, cw_vertex(cw@)) == d
            &&& coord_sum(cw_vertex(cw@)) == (w - 1) * v - d
            &&& part_size_spec(w, v, d - 1) + vertex_index(w, cw_vertex(cw@)) == be_chunks_value(
                digest,
                w,
            )
        }
    } else {
        r == Result::<Vec<u16>, EncodingError>::Err(EncodingError::InvalidLayer)
    }
}

/// The deterministic step of the target-sum encoding: read the digest as a
/// big-endian integer, find its layer, and unrank it there; reject a digest
/// whose layer is not the target one.
pub fn target_sum_codeword(w: usize, d: usize, digest: &Vec<u8>) -> (r: Result<
    Vec<u16>,
    EncodingError,
>)
    requires
        2 <= w <= 256,
        1 <= digest@.len() <= 0x1_0000,
        d <= (w - 1) * digest@.len(),
        forall|i: int| 0 <= i < digest@.len() ==> digest@[i] < w,
    ensures
        r is Ok <==> target_sum_accepts(
            w as nat,
            digest@.len() as nat,
            d as int,
            be_chunks_value(digest@, w as nat),
        ),
        r matches Err(e) ==> e == EncodingError::InvalidLayer,
        r matches Ok(cw) ==> {
            &&& cw@.len() == digest@.len()
            &&& forall|i: int| 0 <= i < cw@.len() ==> cw@[i] < w
            &&& vertex_ok(w as nat, cw_vertex(cw@))
            &&& vertex_dist(w as nat, cw_vertex(cw@)) == d
            &&& coord_sum(cw_vertex(cw@)) == (w - 1) * digest@.len() - d
            &&& part_size_spec(w as nat, digest@.len() as nat, d - 1) + vertex_index(
                w as nat,
                cw_vertex(cw@),
            ) == be_chunks_value(digest@, w as nat)
        },
        target_sum_result_ok(w as nat, digest@.len() as nat, d as int, digest@, r),
{
    let ghost wn = w as nat;
    let n = digest.len();
    // read the digest as one big-endian integer
    let mut x = BigNat::zero();
    let mut i: usize = 0;
    proof {
        lemma_be_chunks_value_unfold(digest@.take(0), wn);
        assert(digest@.take(0) =~= Seq::<u8>::empty());
    }
    while i < n
        invariant
            i <= n,
            n == digest@.len() <= 0x1_0000,
            2 <= w <= 256,
            wn == w as nat,
            forall|k: int| 0 <= k < n ==> digest@[k] < w,
            x.wf(),
            x@ == be_chunks_value(digest@.take(i as int), wn),
        decreases n - i,
    {
        x.mul_small_add(w as u32, digest[i] as u32);
        proof {
            assert(digest@.take(i + 1).drop_last() =~= digest@.take(i as int));
            assert(digest@.take(i + 1).last() == digest@[i as int]);
            lemma_be_chunks_value_unfold(digest@.take(i + 1), wn);
        }
        i += 1;
    }
    proof {
        assert(digest@.take(n as int) =~= digest@);
        lemma_be_chunks_value_bound(digest@, wn);
        lemma_row_sums(wn, n as nat);
    }
    let sizes = LayerSizes::new(w, n);
    let ghost xv = x@;
    let (layer, offset) = sizes.find_layer(n, x);
    if layer != d {
        proof {
            // x lies in one block only: accepting d as well would force d == layer
            if target_sum_accepts(wn, n as nat, d as int, xv) {
                lemma_part_size_unfold(wn, n as nat, layer as int);
                lemma_part_size_unfold(wn, n as nat, d as int);
                if d < layer {
                    lemma_part_size_mono(wn, n as nat, d as int, layer - 1);
                } else {
                    lemma_part_size_mono(wn, n as nat, layer as int, d - 1);
                }
            }
        }
        return Err(EncodingError::InvalidLayer);
    }
    proof {
        lemma_part_size_unfold(wn, n as nat, d as int);
    }
    let a = sizes.unrank(n, d, offset);
    // widen the vertex to codeword entries
    let mut cw: Vec<u16> = Vec::new();
    let mut k: usize = 0;
    while k < n
        invariant
            k <= n,
            a@.len() == n,
            2 <= w <= 256,
            forall|j: int| 0 <= j < n ==> a@[j] < w,
            cw@.len() == k,
            forall|j: int| 0 <= j < k ==> cw@[j] == a@[j] as u16,
        decreases n - k,
    {
        cw.push(a[k] as u16);
        k += 1;
    }
    proof {
        assert(cw_vertex(cw@) =~= a@);
        lemma_coord_sum_dist(wn, a@);
    }
    Ok(cw)
}

/// Target-sum Winternitz encoding: the digest is read as an integer and
/// unranked inside one fixed layer of the hypercube; digests outside the
/// layer are rejected, so every codeword has the same coordinate sum.
pub struct TargetSumEncoding<MH: MessageHash, const TARGET_DISTANCE: usize, const MAX_TRIES: usize>(
    PhantomData<MH>,
);

impl<MH: MessageHash, const TARGET_DISTANCE: usize, const MAX_TRIES: usize> IncomparableEncoding
    for TargetSumEncoding<MH, TARGET_DISTANCE, MAX_TRIES> {
    type Parameter = MH::Parameter;

    type Randomness = MH::Randomness;

    open spec fn parameter_ok(parameter: &MH::Parameter) -> bool {
        MH::parameter_ok(parameter)
    }

    open spec fn randomness_ok(randomness: &MH::Randomness) -> bool {
        MH::randomness_ok(randomness)
    }

    open spec fn dimension_spec() -> nat {
        MH::num_chunks_spec()
    }

    open spec fn base_spec() -> nat {
        pow2(MH::chunk_size_spec())
    }

    open spec fn max_tries_spec() -> nat {
        if MAX_TRIES == 0 {
            1
        } else {
            MAX_TRIES as nat
        }
    }

    open spec fn config_ok() -> bool {
        &&& 1 <= MH::chunk_size_spec() <= 8
        &&& 1 <= MH::num_chunks_spec() <= 0x1_0000
        &&& TARGET_DISTANCE <= (pow2(MH::chunk_size_spec()) - 1) * MH::num_chunks_spec()
    }

    open spec fn never_rejects() -> bool {
        false
    }

    /// The result, exactly: on a supported configuration, success and the
    /// codeword are determined by where the digest of the message hash lands.
    open spec fn encode_ok(
        parameter: &MH::Parameter,
        message: &[u8; MESSAGE_LENGTH],
        randomness: &MH::Randomness,
        epoch: u32,
        r: Result<Vec<u16>, EncodingError>,
    ) -> bool {
        if !Self::config_ok() {
            r == Result::<Vec<u16>, EncodingError>::Err(EncodingError::InvalidDimension)
        } else {
            exists|digest: Vec<u8>|
                {
                    &&& #[trigger] MH::apply_ok(parameter, epoch, randomness, message, &digest)
                    &&& target_sum_result_ok(
                        pow2(MH::chunk_size_spec()),
                        MH::num_chunks_spec(),
                        TARGET_DISTANCE as int,
                        digest@,
                        r,
                    )
                }
        }
    }

    fn dimension() -> (r: usize) {
        MH::num_chunks()
    }

    fn base() -> (r: usize) {
        let z = MH::chunk_size();
        if z <= 16 {
            pow2_usize(z)
        } else {
            proof {
                lemma2_to64();
                lemma_pow2_strictly_increases(16, z as nat);
            }
            usize::MAX
        }
    }

    fn max_tries() -> (r: usize) {
        if MAX_TRIES == 0 {
            1
        } else {
            MAX_TRIES
        }
    }

    fn rand<R: rand::Rng>(rng: &mut R) -> (r: MH::Randomness) {
        MH::rand(rng)
    }

    fn encode(
        parameter: &MH::Parameter,
        message: &[u8; MESSAGE_LENGTH],
        randomness: &MH::Randomness,
        epoch: u32,
    ) -> (r: Result<Vec<u16>, EncodingError>) {
        let z = MH::chunk_size();
        let n = MH::num_chunks();
        if z < 1 || z > 8 || n < 1 || n > 0x1_0000 {
            return Err(EncodingError::InvalidDimension);
        }
        let w = pow2_usize(z);
        proof {
            lemma2_to64();
            if (z as nat) < 16 {
                lemma_pow2_strictly_increases(z as nat, 16);
            }
            if 1 < z {
                lemma_pow2_strictly_increases(1, z as nat);
            }
            assert((w - 1) * n <= 0xFF * 0x1_0000) by (nonlinear_arith)
                requires
                    2 <= w <= 256,
                    1 <= n <= 0x1_0000,
            ;
        }
        if TARGET_DISTANCE > (w - 1) * n {
            return Err(EncodingError::InvalidDimension);
        }
        let digest = MH::apply(parameter, epoch, randomness, message);
        let r = target_sum_codeword(w, TARGET_DISTANCE, &digest);
        proof {
            assert(MH::apply_ok(parameter, epoch, randomness, message, &digest));
            assert(target_sum_result_ok(
                pow2(MH::chunk_size_spec()),
                MH::num_chunks_spec(),
                TARGET_DISTANCE as int,
                digest@,
                r,
            ));
        }
        r
    }
}

} // verus!
