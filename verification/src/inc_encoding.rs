use vstd::prelude::*;
use vstd::arithmetic::power2::{pow2, lemma_pow2_adds, lemma_pow2_strictly_increases, lemma2_to64};
use crate::MESSAGE_LENGTH;

pub mod basic_winternitz;
pub mod target_sum;

verus! {

/// 2^e as a machine word, for small exponents (the base of a code).
pub fn pow2_usize(e: usize) -> (r: usize)
    requires
        e <= 16,
    ensures
        r == pow2(e as nat),
        r >= 1,
{
    proof {
        lemma2_to64();
    }
    let mut r: usize = 1;
    let mut i: usize = 0;
    while i < e
        invariant
            i <= e <= 16,
            r == pow2(i as nat),
        decreases e - i,
    {
        proof {
            lemma2_to64();
            if (i as nat) < 16 {
                lemma_pow2_strictly_increases(i as nat, 16);
            }
            lemma_pow2_adds(i as nat, 1);
        }
        r = r * 2;
        i += 1;
    }
    r
}

/// Error during encoding.
#[derive(Clone, Copy, Debug, PartialEq, Eq, Structural)]
pub enum EncodingError {
    /// A dimension or distance lies outside what the scheme supports.
    InvalidDimension,
    /// The digest does not land in the target layer.
    InvalidLayer,
    /// The retry budget was spent without landing in the target layer.
    EncodingExhausted,
}

/// Trait to model incomparable encoding schemes.
/// These schemes allow to encode a message into a codeword.
///
/// A codeword is a vector of a fixed dimension containing integer entries
/// between 0 and BASE - 1, with BASE at most 1 << 16 so entries fit u16.
///
/// The main feature of these encodings is that no two distinct codewords
/// are "comparable": for no two codewords x and x' do we have x_i > x'_i
/// for all i.
pub trait IncomparableEncoding {
    type Parameter;

    type Randomness;

    /// What a usable parameter looks like.
    spec fn parameter_ok(parameter: &Self::Parameter) -> bool;

    /// What usable randomness looks like.
    spec fn randomness_ok(randomness: &Self::Randomness) -> bool;

    /// Number of entries in a codeword.
    spec fn dimension_spec() -> nat;

    /// Base of the code: codeword entries are between 0 and base - 1.
    spec fn base_spec() -> nat;

    /// How often one should try at most to resample randomness before
    /// giving up.
    spec fn max_tries_spec() -> nat;

    /// Whether the compile-time configuration is one the scheme supports.
    spec fn config_ok() -> bool;

    /// Whether encoding succeeds on every randomness, as the checksummed
    /// variant does, or rejects randomness outside its target, as the
    /// target-sum variant does.
    spec fn never_rejects() -> bool;

    /// What the encoding returns on given inputs.
    spec fn encode_ok(
        parameter: &Self::Parameter,
        message: &[u8; MESSAGE_LENGTH],
        randomness: &Self::Randomness,
        epoch: u32,
        r: Result<Vec<u16>, EncodingError>,
    ) -> bool;

    fn dimension() -> (r: usize)
        ensures
            Self::dimension_spec() <= usize::MAX ==> r == Self::dimension_spec(),
    ;

    fn base() -> (r: usize)
        ensures
            Self::base_spec() <= 0x1_0000 ==> r == Self::base_spec(),
    ;

    fn max_tries() -> (r: usize)
        ensures
            r == Self::max_tries_spec(),
            r >= 1,
    ;

    /// Samples a randomness to be used for the encoding.
    fn rand<R: rand::Rng>(rng: &mut R) -> (r: Self::Randomness)
        ensures
            Self::randomness_ok(&r),
    ;

    /// Apply the incomparable encoding to a message.  It can fail; a
    /// returned codeword has the declared dimension and base, and
    /// `encode_ok` pins the result exactly.
    fn encode(
        parameter: &Self::Parameter,
        message: &[u8; MESSAGE_LENGTH],
        randomness: &Self::Randomness,
        epoch: u32,
    ) -> (r: Result<Vec<u16>, EncodingError>)
        requires
            Self::parameter_ok(parameter),
            Self::randomness_ok(randomness),
        ensures
            r matches Ok(cw) ==> {
                &&& cw@.len() == Self::dimension_spec()
                &&& forall|i: int| 0 <= i < cw@.len() ==> cw@[i] < Self::base_spec()
            },
            !Self::config_ok() ==> r == Result::<Vec<u16>, EncodingError>::Err(
                EncodingError::InvalidDimension,
            ),
            Self::config_ok() && Self::never_rejects() ==> r is Ok,
            Self::encode_ok(parameter, message, randomness, epoch, r),
    ;
}

/// Drive an encoding's rejection sampling: draw fresh randomness and encode,
/// up to the encoding's retry budget.
pub fn encode_with_retry<E: IncomparableEncoding, R: rand::Rng>(
    parameter: &E::Parameter,
    message: &[u8; MESSAGE_LENGTH],
    rng: &mut R,
    epoch: u32,
) -> (r: Result<(E::Randomness, Vec<u16>), EncodingError>)
    requires
        E::parameter_ok(parameter),
    ensures
        r matches Ok(p) ==> {
            &&& p.1@.len() == E::dimension_spec()
            &&& forall|i: int| 0 <= i < p.1@.len() ==> p.1@[i] < E::base_spec()
            &&& E::randomness_ok(&p.0)
            &&& E::encode_ok(
                parameter,
                message,
                &p.0,
                epoch,
                Result::<Vec<u16>, EncodingError>::Ok(p.1),
            )
        },
        r matches Err(e) ==> e == EncodingError::EncodingExhausted,
        E::config_ok() && E::never_rejects() ==> r is Ok,
{
    let tries = E::max_tries();
    let mut attempt: usize = 0;
    while attempt < tries
        invariant
            E::parameter_ok(parameter),
            attempt == 0 || !(E::config_ok() && E::never_rejects()),
        decreases tries - attempt,
    {
        let randomness = E::rand(rng);
        match E::encode(parameter, message, &randomness, epoch) {
            Ok(cw) => {
                return Ok((randomness, cw));
            },
            Err(_) => {},
        }
        attempt += 1;
    }
    Err(EncodingError::EncodingExhausted)
}

} // verus!
