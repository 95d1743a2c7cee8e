use hashsig::MESSAGE_LENGTH;
use hashsig::bignum::BigNat;
use hashsig::hypercube::LayerSizes;
use hashsig::inc_encoding::basic_winternitz::{WinternitzEncoding, winternitz_codeword};
use hashsig::inc_encoding::target_sum::{TargetSumEncoding, target_sum_codeword};
use hashsig::inc_encoding::{EncodingError, IncomparableEncoding, encode_with_retry};
use hashsig::symmetric::message_hash::MessageHash;
use hashsig::symmetric::message_hash::poseidon::PoseidonMessageHash;
use num_bigint::BigUint;

type Mh64 = PoseidonMessageHash<5, 5, 4, 64, 2, 2, 9>;

type Basic64 = WinternitzEncoding<Mh64, 3>;

type TargetSum64 = TargetSumEncoding<Mh64, 96, 1024>;

fn lcg(state: &mut u64) -> u64 {
    *state = state.wrapping_mul(6364136223846793005).wrapping_add(1442695040888963407);
    *state >> 16
}

fn incomparable(a: &[u16], b: &[u16]) -> bool {
    let some_lower = a.iter().zip(b.iter()).any(|(x, y)| x < y);
    let some_higher = a.iter().zip(b.iter()).any(|(x, y)| x > y);
    some_lower && some_higher
}

#[test]
fn test_basic_winternitz_codeword_shape() {
    // w=4, v=64, c=3: a 67-entry codeword whose entries stay below the base
    let parameter: Vec<u32> = vec![1, 2, 3, 4, 5];
    let randomness: Vec<u32> = vec![7, 8, 9, 10, 11];
    let message = [0x5au8; MESSAGE_LENGTH];
    let cw = Basic64::encode(&parameter, &message, &randomness, 13).unwrap();
    assert_eq!(cw.len(), 67);
    assert!(cw.iter().all(|&e| e < 4));
    assert_eq!(Basic64::dimension(), 67);
    assert_eq!(Basic64::base(), 4);
    assert_eq!(Basic64::max_tries(), 1);
}

#[test]
fn test_basic_winternitz_one_byte_difference() {
    // two messages differing in one byte give incomparable codewords
    let parameter: Vec<u32> = vec![1, 2, 3, 4, 5];
    let randomness: Vec<u32> = vec![7, 8, 9, 10, 11];
    let mut m1 = [0u8; MESSAGE_LENGTH];
    let mut m2 = [0u8; MESSAGE_LENGTH];
    m2[17] = 1;
    m1[3] = 9;
    m2[3] = 9;
    let cw1 = Basic64::encode(&parameter, &m1, &randomness, 2).unwrap();
    let cw2 = Basic64::encode(&parameter, &m2, &randomness, 2).unwrap();
    assert_ne!(cw1, cw2);
    assert!(incomparable(&cw1, &cw2));
}

#[test]
fn test_basic_winternitz_incomparability_random() {
    // random pairs of distinct digests always give incomparable codewords
    let mut state = 0x2545f4914f6cdd1du64;
    let w = 4usize;
    let c = 3usize;
    for _ in 0..10_000 {
        let d1: Vec<u8> = (0..64).map(|_| (lcg(&mut state) % 4) as u8).collect();
        let d2: Vec<u8> = (0..64).map(|_| (lcg(&mut state) % 4) as u8).collect();
        if d1 == d2 {
            continue;
        }
        let cw1 = winternitz_codeword(w, c, &d1);
        let cw2 = winternitz_codeword(w, c, &d2);
        assert!(incomparable(&cw1, &cw2));
    }
}

#[test]
fn test_checksum_digits_exact() {
    // digest (0,0), w=4, c=2: checksum 6 = 2 + 1*4 gives digits (2, 1)
    let cw = winternitz_codeword(4, 2, &vec![0u8, 0u8]);
    assert_eq!(cw, vec![0u16, 0, 2, 1]);
    // digest (3,3): checksum 0
    let cw0 = winternitz_codeword(4, 2, &vec![3u8, 3u8]);
    assert_eq!(cw0, vec![3u16, 3, 0, 0]);
}

#[test]
fn test_target_sum_codeword_sum() {
    // every accepted codeword lies in the target layer: coordinates sum to
    // v(w-1) - d = 96
    let mut state = 0x9e3779b97f4a7c15u64;
    let w = 4usize;
    let v = 64usize;
    let d = 96usize;
    let mut accepted = 0usize;
    let mut tried = 0usize;
    while accepted < 200 && tried < 100_000 {
        tried += 1;
        let digest: Vec<u8> = (0..v).map(|_| (lcg(&mut state) % 4) as u8).collect();
        match target_sum_codeword(w, d, &digest) {
            Ok(cw) => {
                accepted += 1;
                assert_eq!(cw.len(), v);
                let sum: usize = cw.iter().map(|&e| e as usize).sum();
                assert_eq!(sum, v * (w - 1) - d);
            },
            Err(e) => {
                assert_eq!(e, EncodingError::InvalidLayer);
            },
        }
    }
    assert!(accepted >= 200, "far fewer acceptances than the layer sizes predict");
}

#[test]
fn test_target_sum_rejection_sampling() {
    // w=4, v=64, d=96 (the mode of the layer sizes): sampling fresh digests
    // lands in the target layer well within 1024 tries on 1,000 runs
    let mut state = 0x6a09e667f3bcc908u64;
    let table = LayerSizes::new(4, 64);
    for _ in 0..1000 {
        let mut found = false;
        for _ in 0..1024 {
            // 128 uniform bits, read as an integer below 4^64
            let words: Vec<u32> = (0..4).map(|_| lcg(&mut state) as u32).collect();
            let x = BigNat { limbs: BigUint::new(words).to_u32_digits() };
            let (layer, offset) = table.find_layer(64, x);
            if layer == 96 {
                let a = table.unrank(64, 96, offset);
                let sum: usize = a.iter().map(|&e| e as usize).sum();
                assert_eq!(sum, 96);
                found = true;
                break;
            }
        }
        assert!(found, "no digest landed in the target layer within the budget");
    }
}

#[test]
fn test_target_sum_encode_via_trait() {
    // drive the rejection loop through the encoding trait with the Poseidon
    // message hash
    let parameter: Vec<u32> = vec![11, 22, 33, 44, 55];
    let message = [0xabu8; MESSAGE_LENGTH];
    let mut rng = rand::rng();
    let result = encode_with_retry::<TargetSum64, _>(&parameter, &message, &mut rng, 7);
    let (_, cw) = result.expect("the retry budget of 1024 should be ample");
    assert_eq!(cw.len(), 64);
    let sum: usize = cw.iter().map(|&e| e as usize).sum();
    assert_eq!(sum, 96);
    assert!(cw.iter().all(|&e| e < 4));
}

#[test]
fn test_target_sum_wrong_layer_rejected() {
    // the all-zero digest reads as integer 0, which lies in layer 0
    let digest = vec![0u8; 64];
    assert_eq!(target_sum_codeword(4, 96, &digest), Err(EncodingError::InvalidLayer));
    // layer 0 accepts it, and its unique vertex is all-threes
    let cw = target_sum_codeword(4, 0, &digest).unwrap();
    assert_eq!(cw, vec![3u16; 64]);
}

#[test]
fn test_invalid_dimension_rejected() {
    // a target distance past (w-1)v cannot name a layer
    type TooFar = TargetSumEncoding<Mh64, 500, 4>;
    let parameter: Vec<u32> = vec![1, 2, 3, 4, 5];
    let randomness: Vec<u32> = vec![6, 7, 8, 9, 10];
    let message = [1u8; MESSAGE_LENGTH];
    assert_eq!(
        TooFar::encode(&parameter, &message, &randomness, 0),
        Err(EncodingError::InvalidDimension)
    );
}

#[test]
fn test_encoding_exhausted() {
    // layer 0 of [0,3]^64 holds one vertex in 4^64; two tries never find it
    type Hopeless = TargetSumEncoding<Mh64, 0, 2>;
    let parameter: Vec<u32> = vec![1, 2, 3, 4, 5];
    let message = [3u8; MESSAGE_LENGTH];
    let mut rng = rand::rng();
    let result = encode_with_retry::<Hopeless, _>(&parameter, &message, &mut rng, 0);
    assert_eq!(result.err(), Some(EncodingError::EncodingExhausted));
}
