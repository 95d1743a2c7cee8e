use hashsig::MESSAGE_LENGTH;
use hashsig::symmetric::Pseudorandom as HashPseudorandom;
use hashsig::symmetric::hashprf::Sha256PRF;
use hashsig::symmetric::message_hash::MessageHash;
use hashsig::symmetric::message_hash::poseidon::{PoseidonMessageHash, encode_message};
use hashsig::symmetric::prf::Pseudorandom;
use hashsig::symmetric::prf::sha::ShaPRF;
use hashsig::symmetric::tweak_hash::TweakableHash;
use hashsig::symmetric::tweak_hash::poseidon::{
    BABYBEAR_MODULUS, PoseidonTweakHash, poseidon_compress,
};

type PoseidonMessageHash445 = PoseidonMessageHash<4, 4, 5, 128, 2, 2, 9>;

type PoseidonTweak44 = PoseidonTweakHash<20, 8, 2, 4, 4, 3>;

type PoseidonTweak37 = PoseidonTweakHash<20, 8, 2, 3, 7, 3>;

#[test]
fn test_apply() {
    let mut rng = rand::rng();
    let parameter = PoseidonTweak44::rand_parameter(&mut rng);
    let mut message = [0u8; MESSAGE_LENGTH];
    for byte in message.iter_mut() {
        *byte = (rand::random::<u32>() % 256) as u8;
    }
    let epoch = 13;
    let randomness = PoseidonMessageHash445::rand(&mut rng);
    let digest = PoseidonMessageHash445::apply(&parameter, epoch, &randomness, &message);
    assert_eq!(digest.len(), 128);
    assert!(digest.iter().all(|&c| c < 4));
    // deterministic in all inputs
    let digest2 = PoseidonMessageHash445::apply(&parameter, epoch, &randomness, &message);
    assert_eq!(digest, digest2);
    // and sensitive to the epoch
    let digest3 = PoseidonMessageHash445::apply(&parameter, 14, &randomness, &message);
    assert_ne!(digest, digest3);
}

#[test]
fn test_apply_44() {
    let mut rng = rand::rng();

    let parameter = PoseidonTweak44::rand_parameter(&mut rng);
    let message_one = PoseidonTweak44::rand_domain(&mut rng);
    let message_two = PoseidonTweak44::rand_domain(&mut rng);
    let tweak_tree = PoseidonTweak44::tree_tweak(0, 3);
    let h = PoseidonTweak44::apply(&parameter, &tweak_tree, &[message_one, message_two]);
    assert_eq!(h.len(), 4);
    assert!(h.iter().all(|&e| e < BABYBEAR_MODULUS));

    let parameter = PoseidonTweak44::rand_parameter(&mut rng);
    let message_one = PoseidonTweak44::rand_domain(&mut rng);
    let tweak_chain = PoseidonTweak44::chain_tweak(2, 3, 4);
    let h2 = PoseidonTweak44::apply(&parameter, &tweak_chain, &[message_one]);
    assert_eq!(h2.len(), 4);
}

#[test]
fn test_apply_37() {
    let mut rng = rand::rng();

    let parameter = PoseidonTweak37::rand_parameter(&mut rng);
    let message_one = PoseidonTweak37::rand_domain(&mut rng);
    let message_two = PoseidonTweak37::rand_domain(&mut rng);
    let tweak_tree = PoseidonTweak37::tree_tweak(0, 3);
    let h = PoseidonTweak37::apply(&parameter, &tweak_tree, &[message_one, message_two]);
    assert_eq!(h.len(), 7);

    let parameter = PoseidonTweak37::rand_parameter(&mut rng);
    let message_one = PoseidonTweak37::rand_domain(&mut rng);
    let tweak_chain = PoseidonTweak37::chain_tweak(2, 3, 4);
    let h2 = PoseidonTweak37::apply(&parameter, &tweak_chain, &[message_one]);
    assert_eq!(h2.len(), 7);
}

#[test]
fn test_poseidon_compress_not_identity() {
    // the compression of an all-zero block must not echo its input: the
    // permutation moves the zero state away from zero
    let input = vec![0u32; 16];
    let out = poseidon_compress(&input, 4);
    assert_eq!(out.len(), 4);
    assert!(out.iter().any(|&e| e != 0));
    // deterministic
    let out2 = poseidon_compress(&input, 4);
    assert_eq!(out, out2);
    // sensitive to the input
    let mut other = vec![0u32; 16];
    other[0] = 1;
    let out3 = poseidon_compress(&other, 4);
    assert_ne!(out, out3);
}

#[test]
fn test_encode_message_base_p() {
    // a one-byte message encodes as itself in the lowest digit
    let mut message = [0u8; MESSAGE_LENGTH];
    message[0] = 42;
    let fe = encode_message(&message, 9);
    assert_eq!(fe.len(), 9);
    assert_eq!(fe[0], 42);
    assert!(fe[1..].iter().all(|&e| e == 0));
    // a message just past the modulus wraps into two digits:
    // value = p + 5 gives digits (5, 1, 0, ...)
    let value = BABYBEAR_MODULUS as u64 + 5;
    let mut message2 = [0u8; MESSAGE_LENGTH];
    message2[0] = (value & 0xff) as u8;
    message2[1] = ((value >> 8) & 0xff) as u8;
    message2[2] = ((value >> 16) & 0xff) as u8;
    message2[3] = ((value >> 24) & 0xff) as u8;
    let fe2 = encode_message(&message2, 9);
    assert_eq!(fe2[0], 5);
    assert_eq!(fe2[1], 1);
    assert!(fe2[2..].iter().all(|&e| e == 0));
}

#[test]
fn test_sha_prf_key_not_all_same() {
    const K: usize = 10;
    const OUTPUT_LEN: usize = 16;
    const RAND_LEN: usize = 13;
    type Prf = ShaPRF<OUTPUT_LEN, RAND_LEN>;

    let mut rng = rand::rng();
    let mut all_same_count = 0;

    for _ in 0..K {
        let key = Prf::key_gen(&mut rng);

        let first = key[0];
        if key.iter().all(|&x| x == first) {
            all_same_count += 1;
        }
    }

    assert!(all_same_count < K, "PRF key had identical bytes in all {} trials", K);
}

#[test]
fn test_sha_prf_domain_elements() {
    type Prf = ShaPRF<16, 13>;
    let key = [7u8; 32];
    let a = Prf::get_domain_element(&key, 1, 2);
    let b = Prf::get_domain_element(&key, 1, 3);
    assert_eq!(a.len(), 16);
    assert_eq!(b.len(), 16);
    // the digest depends on the index, and echoes neither the key nor the
    // separator prefix of the hashed bytes
    assert_ne!(a, b);
    assert_ne!(a, key[..16].to_vec());
    assert_ne!(a, PRF_SEP.to_vec());
    // deterministic
    assert_eq!(a, Prf::get_domain_element(&key, 1, 2));
    let message = [9u8; MESSAGE_LENGTH];
    let r = Prf::get_randomness(&key, 1, &message, 4);
    assert_eq!(r.len(), 13);
}

const PRF_SEP: [u8; 16] = [
    0x00, 0x01, 0x12, 0xff, 0x00, 0x01, 0xfa, 0xff, 0x00, 0xaf, 0x12, 0xff, 0x01, 0xfa, 0xff, 0x00,
];

#[test]
fn test_sha256_prf_output() {
    let key = [0u8; 32];
    let out = Sha256PRF::apply(&key, 0);
    // the digest neither echoes the zero key nor the separator prefix of
    // the hashed bytes
    assert_ne!(out, [0u8; 32]);
    assert_ne!(out[..16], PRF_SEP);
    // deterministic, and sensitive to the counter and the key
    assert_eq!(out, Sha256PRF::apply(&key, 0));
    assert_ne!(out, Sha256PRF::apply(&key, 1));
    let key2 = [1u8; 32];
    assert_ne!(out, Sha256PRF::apply(&key2, 0));
}
