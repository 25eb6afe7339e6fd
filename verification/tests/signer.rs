use rollup::address::Address;
use rollup::signer::{
    CompactSignature, KeyError, PublicKey, RecoverableSignature, Signature, SignatureError, Signer,
};

const ORDER_HEX: &str = "fffffffffffffffffffffffffffffffebaaedce6af48a03bbfd25e8cd0364141";
const ORDER_MINUS_ONE_HEX: &str =
    "fffffffffffffffffffffffffffffffebaaedce6af48a03bbfd25e8cd0364140";
const ONE_HEX: &str = "0000000000000000000000000000000000000000000000000000000000000001";

fn bytes32(text: &str) -> [u8; 32] {
    let bytes = hex::decode(text).unwrap();
    let mut out = [0u8; 32];
    out.copy_from_slice(&bytes);
    out
}

#[test]
fn key_one_has_the_generator_as_public_key() {
    let signer = Signer::from_secret_hex(ONE_HEX).unwrap();
    let expected = hex::decode(
        "0479be667ef9dcbbac55a06295ce870b07029bfcdb2dce28d959f2815b16f81798\
         483ada7726a3c4655da4fbfc0e1108a8fd17b448a68554199c47d08ffb10d4b8",
    )
    .unwrap();
    assert_eq!(signer.public_key().0.to_vec(), expected);
    assert_eq!(signer.secret_bytes(), bytes32(ONE_HEX));
}

#[test]
fn key_one_has_its_known_address() {
    let signer = Signer::from_secret_hex(ONE_HEX).unwrap();
    let expected = hex::decode("7e5f4552091a69125d5dfcb7b8c2659029395bdf").unwrap();
    assert_eq!(signer.address().0.to_vec(), expected);
}

#[test]
fn address_is_last_twenty_bytes_of_keccak_of_key_body() {
    let signer = Signer::random();
    let key = signer.public_key();
    let digest = alloy_primitives::keccak256(&key.0[1..]);
    assert_eq!(signer.address().0[..], digest[12..]);
    assert_eq!(Address::from_public_key(&key), signer.address());
    assert_eq!(Address::from(key), signer.address());
}

#[test]
fn address_differs_from_key_bytes() {
    let signer = Signer::from_secret_hex(ONE_HEX).unwrap();
    let key: PublicKey = signer.public_key();
    assert_ne!(signer.address().0[..], key.0[1..21]);
    assert_ne!(signer.address().0[..], key.0[45..65]);
}

#[test]
fn secret_hex_accepts_upper_case() {
    let lower = Signer::from_secret_hex(ORDER_MINUS_ONE_HEX).unwrap();
    let upper = Signer::from_secret_hex(&ORDER_MINUS_ONE_HEX.to_uppercase()).unwrap();
    assert_eq!(lower.secret_bytes(), upper.secret_bytes());
    assert_eq!(lower.address(), upper.address());
}

#[test]
fn secret_hex_rejects_text_that_is_not_hex() {
    assert_eq!(Signer::from_secret_hex("zz").err(), Some(KeyError::NotHex));
    assert_eq!(Signer::from_secret_hex("abc").err(), Some(KeyError::NotHex));
    assert_eq!(
        Signer::from_secret_hex(&format!("0x{}", &ONE_HEX[2..])).err(),
        Some(KeyError::NotHex)
    );
    assert_eq!(Signer::from_secret_hex("\u{e9}\u{e9}").err(), Some(KeyError::NotHex));
}

#[test]
fn secret_hex_rejects_wrong_length() {
    assert_eq!(Signer::from_secret_hex("").err(), Some(KeyError::WrongLength));
    assert_eq!(Signer::from_secret_hex("01").err(), Some(KeyError::WrongLength));
    assert_eq!(
        Signer::from_secret_hex(&format!("{}00", ONE_HEX)).err(),
        Some(KeyError::WrongLength)
    );
}

#[test]
fn secret_key_must_be_in_range() {
    assert_eq!(Signer::from_secret_bytes([0u8; 32]).err(), Some(KeyError::OutOfRange));
    assert_eq!(Signer::from_secret_bytes(bytes32(ORDER_HEX)).err(), Some(KeyError::OutOfRange));
    assert_eq!(Signer::from_secret_bytes([0xff; 32]).err(), Some(KeyError::OutOfRange));
    assert_eq!(Signer::from_secret_hex(ORDER_HEX).err(), Some(KeyError::OutOfRange));
    assert!(Signer::from_secret_bytes(bytes32(ORDER_MINUS_ONE_HEX)).is_ok());
    assert!(Signer::from_secret_bytes(bytes32(ONE_HEX)).is_ok());
}

#[test]
fn random_signers_differ_and_are_valid() {
    let a = Signer::random();
    let b = Signer::random();
    assert_ne!(a.secret_bytes(), b.secret_bytes());
    let again = Signer::from_secret_bytes(a.secret_bytes()).unwrap();
    assert_eq!(again.public_key(), a.public_key());
    assert_eq!(again.address(), a.address());
}

#[test]
fn sign_matches_the_curve_library() {
    let signer = Signer::from_secret_hex(ONE_HEX).unwrap();
    let digest = [0xab; 32];
    let sig = signer.sign(digest);
    let sk = secp256k1::SecretKey::from_slice(&bytes32(ONE_HEX)).unwrap();
    let msg = secp256k1::Message::from_digest(digest);
    let (id, data) = secp256k1::SECP256K1.sign_ecdsa_recoverable(&msg, &sk).serialize_compact();
    assert_eq!(sig.r[..], data[..32]);
    assert_eq!(sig.s[..], data[32..]);
    assert_eq!(sig.recovery_id, id.to_i32());
    assert_ne!(sig.r, digest);
}

#[test]
fn sign_then_verify_round_trip() {
    for seed in 0u8..8 {
        let signer = Signer::random();
        let digest = [seed; 32];
        let sig = signer.sign(digest);
        assert!(sig.verify(&digest, &signer.address()));
    }
}

#[test]
fn sign_is_deterministic() {
    let signer = Signer::random();
    let digest = [7u8; 32];
    assert_eq!(signer.sign(digest), signer.sign(digest));
}

#[test]
fn recovered_address_is_the_signers() {
    for seed in 0u8..8 {
        let signer = Signer::random();
        let digest = [seed.wrapping_mul(31); 32];
        let sig = signer.sign(digest);
        assert_eq!(sig.recover_address(&digest), Some(signer.address()));
        assert_eq!(sig.recover(&digest), Some(signer.public_key()));
    }
}

#[test]
fn verify_rejects_another_address() {
    let signer = Signer::random();
    let other = Signer::random();
    let digest = [1u8; 32];
    let sig = signer.sign(digest);
    assert!(!sig.verify(&digest, &other.address()));
}

#[test]
fn verify_rejects_another_digest() {
    let signer = Signer::random();
    let sig = signer.sign([1u8; 32]);
    assert!(!sig.verify(&[2u8; 32], &signer.address()));
    assert_ne!(sig.recover_address(&[2u8; 32]), Some(signer.address()));
}

#[test]
fn verify_rejects_a_changed_signature() {
    let signer = Signer::random();
    let digest = [9u8; 32];
    let sig = signer.sign(digest);
    let mut changed = sig;
    changed.s[31] ^= 1;
    assert!(!changed.verify(&digest, &signer.address()));
    let mut changed = sig;
    changed.r[0] ^= 0x40;
    assert!(!changed.verify(&digest, &signer.address()));
    let mut changed = sig;
    changed.recovery_id ^= 1;
    assert!(!changed.verify(&digest, &signer.address()));
}

#[test]
fn compact_forms_concatenate_r_and_s() {
    let mut r = [0u8; 32];
    let mut s = [0u8; 32];
    for i in 0..32 {
        r[i] = i as u8 + 1;
        s[i] = 0x40 + i as u8;
    }
    let sig = Signature { r, s, recovery_id: 2 };
    let mut expected = [0u8; 64];
    expected[..32].copy_from_slice(&r);
    expected[32..].copy_from_slice(&s);
    assert_eq!(sig.compact_bytes(), expected);
    assert_eq!(sig.to_compact(), Ok(CompactSignature(expected)));
    assert_eq!(
        sig.to_recoverable(),
        Ok(RecoverableSignature { compact: expected, recovery_id: 2 })
    );
}

#[test]
fn compact_forms_are_lossless() {
    let signer = Signer::random();
    let sig = signer.sign([3u8; 32]);
    let recoverable = sig.to_recoverable().unwrap();
    assert_eq!(Signature::from_recoverable(&recoverable), sig);
    let again = Signature::from_recoverable(&recoverable).to_recoverable().unwrap();
    assert_eq!(again, recoverable);
    assert_eq!(sig.to_compact().unwrap().0, recoverable.compact);
}

#[test]
fn recovery_id_out_of_range_is_a_domain_error() {
    let signer = Signer::random();
    let digest = [3u8; 32];
    let mut sig = signer.sign(digest);
    sig.recovery_id = 4;
    assert_eq!(sig.to_recoverable(), Err(SignatureError::InvalidRecoveryId));
    assert!(sig.to_compact().is_ok());
    assert_eq!(sig.recover(&digest), None);
    assert!(!sig.verify(&digest, &signer.address()));
    sig.recovery_id = -1;
    assert_eq!(sig.to_recoverable(), Err(SignatureError::InvalidRecoveryId));
    sig.recovery_id = 3;
    assert!(sig.to_recoverable().is_ok());
    sig.recovery_id = 0;
    assert!(sig.to_recoverable().is_ok());
}

#[test]
fn components_at_or_above_the_order_are_a_domain_error() {
    let order = bytes32(ORDER_HEX);
    let below = bytes32(ORDER_MINUS_ONE_HEX);
    let sig = Signature { r: order, s: below, recovery_id: 0 };
    assert_eq!(sig.to_compact(), Err(SignatureError::InvalidSignature));
    assert_eq!(sig.to_recoverable(), Err(SignatureError::InvalidSignature));
    let sig = Signature { r: below, s: order, recovery_id: 0 };
    assert_eq!(sig.to_compact(), Err(SignatureError::InvalidSignature));
    let sig = Signature { r: below, s: [0xff; 32], recovery_id: 1 };
    assert_eq!(sig.to_recoverable(), Err(SignatureError::InvalidSignature));
    let sig = Signature { r: order, s: below, recovery_id: 9 };
    assert_eq!(sig.to_recoverable(), Err(SignatureError::InvalidRecoveryId));
    let sig = Signature { r: below, s: below, recovery_id: 0 };
    assert!(sig.to_compact().is_ok());
    assert!(sig.to_recoverable().is_ok());
    let sig = Signature { r: [0u8; 32], s: [0u8; 32], recovery_id: 0 };
    assert!(sig.to_compact().is_ok());
    assert!(!sig.verify(&[0u8; 32], &Address([0u8; 20])));
}

#[test]
fn signature_bytes_are_little_endian_numbers_then_the_id() {
    let mut r = [0u8; 32];
    r[31] = 0x01;
    r[0] = 0x80;
    let mut s = [0u8; 32];
    s[31] = 0x02;
    let sig = Signature { r, s, recovery_id: 1 };
    let mut out = vec![0xeeu8];
    sig.encode_into(&mut out);
    assert_eq!(out.len(), 1 + 68);
    assert_eq!(out[0], 0xee);
    assert_eq!(out[1], 0x01);
    assert_eq!(out[32], 0x80);
    assert_eq!(out[33], 0x02);
    assert_eq!(out[65..], [1, 0, 0, 0]);
    let sig = Signature { r, s, recovery_id: -2 };
    let mut out = Vec::new();
    sig.encode_into(&mut out);
    assert_eq!(out[64..], [0xfe, 0xff, 0xff, 0xff]);
}

#[test]
fn sign_gives_nonzero_halves_for_every_digest() {
    let signer = Signer::random();
    for digest in [[0u8; 32], [0xff; 32], [0x80; 32]] {
        let sig = signer.sign(digest);
        assert_ne!(sig.r, [0u8; 32]);
        assert_ne!(sig.s, [0u8; 32]);
        assert!((0..=3).contains(&sig.recovery_id));
        assert!(sig.to_recoverable().is_ok());
        assert_eq!(sig.recover(&digest), Some(signer.public_key()));
        assert!(sig.verify(&digest, &signer.address()));
    }
}

#[test]
fn the_compact_form_verifies_against_the_signers_key() {
    let signer = Signer::random();
    let digest = [0x42; 32];
    let sig = signer.sign(digest);
    let compact = secp256k1::ecdsa::Signature::from_compact(&sig.compact_bytes()).unwrap();
    let key = secp256k1::PublicKey::from_slice(&signer.public_key().0).unwrap();
    let msg = secp256k1::Message::from_digest(digest);
    assert!(secp256k1::SECP256K1.verify_ecdsa(&msg, &compact, &key).is_ok());
    let other = secp256k1::Message::from_digest([0x43; 32]);
    assert!(secp256k1::SECP256K1.verify_ecdsa(&other, &compact, &key).is_err());
}
