//! The boundary to the hashing and elliptic-curve code this library calls
//! but does not verify: Keccak-256 from `alloy_primitives` and ECDSA over
//! secp256k1 from `secp256k1`. Every function here is believed, not proved;
//! each comment says what is believed of it.

use vstd::prelude::*;

verus! {

/// The number whose base-256 digits, most significant first, are `bytes`.
pub open spec fn be_value(bytes: Seq<u8>) -> nat
    decreases bytes.len(),
{
    if bytes.len() == 0 {
        0
    } else {
        256 * be_value(bytes.drop_last()) + bytes.last() as nat
    }
}

/// The order of the secp256k1 group.
pub open spec fn curve_order() -> nat {
    0xFFFFFFFFFFFFFFFFFFFFFFFFFFFFFFFEBAAEDCE6AF48A03BBFD25E8CD0364141nat
}

/// A secret key is 32 bytes that, read as a big-endian number, are neither
/// zero nor as large as the group order.
pub open spec fn valid_secret_key(secret: Seq<u8>) -> bool {
    secret.len() == 32 && 0 < be_value(secret) < curve_order()
}

/// A compact signature is 64 bytes, `r` then `s`, each a big-endian number
/// below the group order.
pub open spec fn compact_in_range(compact: Seq<u8>) -> bool {
    &&& compact.len() == 64
    &&& be_value(compact.subrange(0, 32)) < curve_order()
    &&& be_value(compact.subrange(32, 64)) < curve_order()
}

/// Neither half of a compact signature is zero.
pub open spec fn compact_nonzero(compact: Seq<u8>) -> bool {
    &&& 0 < be_value(compact.subrange(0, 32))
    &&& 0 < be_value(compact.subrange(32, 64))
}

/// The recovery ids that the curve library accepts.
pub open spec fn valid_recovery_id(id: int) -> bool {
    0 <= id <= 3
}

/// The Keccak-256 digest of `data`.
pub uninterp spec fn keccak256_digest(data: Seq<u8>) -> Seq<u8>;

/// The uncompressed 65-byte public key that belongs to a secret key.
pub uninterp spec fn public_key_of(secret: Seq<u8>) -> Seq<u8>;

/// The deterministic recoverable signature of a digest under a secret key:
/// the 64 compact bytes and the recovery id.
pub uninterp spec fn ecdsa_sign(secret: Seq<u8>, digest: Seq<u8>) -> (Seq<u8>, int);

/// The uncompressed public key recovered from a compact signature over a
/// digest, or `None` where recovery fails.
pub uninterp spec fn ecdsa_recover(digest: Seq<u8>, compact: Seq<u8>, recovery_id: int) -> Option<
    Seq<u8>,
>;

/// Whether a compact signature over a digest verifies against an
/// uncompressed public key.
pub uninterp spec fn ecdsa_verify(digest: Seq<u8>, compact: Seq<u8>, public_key: Seq<u8>) -> bool;

/// Calls `alloy_primitives::keccak256`. Believed: the 32 bytes it returns
/// depend on `data` alone.
#[verifier::external_body]
pub(crate) fn keccak256(data: &[u8]) -> (digest: [u8; 32])
    ensures
        digest@ == keccak256_digest(data@),
{
    alloy_primitives::keccak256(data).0
}

/// Calls `alloy_primitives::Address::random`. Nothing is believed of the
/// twenty bytes it returns.
#[verifier::external_body]
pub(crate) fn random_address_bytes() -> [u8; 20] {
    alloy_primitives::Address::random().into_array()
}

/// Calls `secp256k1::SecretKey::from_slice`. Believed: it accepts 32 bytes
/// exactly when they are a number in `1..order`, most significant byte first.
#[verifier::external_body]
pub(crate) fn secret_key_is_valid(secret: &[u8; 32]) -> (ok: bool)
    ensures
        ok == valid_secret_key(secret@),
{
    secp256k1::SecretKey::from_slice(secret).is_ok()
}

/// Calls `secp256k1::generate_keypair` with the operating system's random
/// generator. Believed: the secret key is a valid one, whatever was drawn,
/// and the public key is the one that belongs to it.
#[verifier::external_body]
pub(crate) fn generate_keypair() -> (pair: ([u8; 32], [u8; 65]))
    ensures
        valid_secret_key(pair.0@),
        pair.1@ == public_key_of(pair.0@),
{
    let (sk, pk) = secp256k1::generate_keypair(&mut secp256k1::rand::rngs::OsRng);
    (sk.secret_bytes(), pk.serialize_uncompressed())
}

/// Calls `secp256k1::PublicKey::from_secret_key` and serializes the key
/// uncompressed. Believed: the 65 bytes depend on the secret key alone.
#[verifier::external_body]
pub(crate) fn derive_public_key(secret: &[u8; 32]) -> (key: [u8; 65])
    requires
        valid_secret_key(secret@),
    ensures
        key@ == public_key_of(secret@),
{
    let sk = secp256k1::SecretKey::from_slice(secret).expect("a valid secret key");
    secp256k1::PublicKey::from_secret_key(secp256k1::SECP256K1, &sk).serialize_uncompressed()
}

/// Calls `Secp256k1::sign_ecdsa_recoverable` and serializes the signature
/// compactly. Believed: the signature depends on key and digest alone
/// (the nonce is derived from them); its recovery id is in `0..=3` and both
/// halves are below the group order and not zero (signing tries the next
/// nonce until they are); recovering from it over the same digest yields
/// the signer's public key; and it verifies against that key.
#[verifier::external_body]
pub(crate) fn sign_recoverable(secret: &[u8; 32], digest: &[u8; 32]) -> (sig: ([u8; 64], i32))
    requires
        valid_secret_key(secret@),
    ensures
        (sig.0@, sig.1 as int) == ecdsa_sign(secret@, digest@),
        valid_recovery_id(sig.1 as int),
        compact_in_range(sig.0@),
        compact_nonzero(sig.0@),
        ecdsa_recover(digest@, sig.0@, sig.1 as int) == Some(public_key_of(secret@)),
        ecdsa_verify(digest@, sig.0@, public_key_of(secret@)),
{
    let sk = secp256k1::SecretKey::from_slice(secret).expect("a valid secret key");
    let msg = secp256k1::Message::from_digest(*digest);
    let (id, data) = secp256k1::SECP256K1.sign_ecdsa_recoverable(&msg, &sk).serialize_compact();
    (data, id.to_i32())
}

/// Calls `secp256k1::ecdsa::Signature::from_compact`. Believed: 64 bytes
/// parse exactly when `r` and `s` are both below the group order.
#[verifier::external_body]
pub(crate) fn compact_parses(compact: &[u8; 64]) -> (ok: bool)
    ensures
        ok == compact_in_range(compact@),
{
    secp256k1::ecdsa::Signature::from_compact(compact).is_ok()
}

/// Calls `secp256k1::ecdsa::RecoveryId::from_i32` and
/// `secp256k1::ecdsa::RecoverableSignature::from_compact`. Believed: they
/// accept exactly the recovery ids `0..=3` with `r` and `s` below the group
/// order.
#[verifier::external_body]
pub(crate) fn recoverable_parses(compact: &[u8; 64], recovery_id: i32) -> (ok: bool)
    ensures
        ok == (valid_recovery_id(recovery_id as int) && compact_in_range(compact@)),
{
    match secp256k1::ecdsa::RecoveryId::from_i32(recovery_id) {
        Ok(id) => secp256k1::ecdsa::RecoverableSignature::from_compact(compact, id).is_ok(),
        Err(_) => false,
    }
}

/// Calls `Secp256k1::recover_ecdsa`. Believed: whether a key is recovered,
/// and which, depends on digest, signature bytes and recovery id alone.
/// A signature that does not parse recovers nothing.
#[verifier::external_body]
pub(crate) fn recover_public_key(digest: &[u8; 32], compact: &[u8; 64], recovery_id: i32) -> (key:
    Option<[u8; 65]>)
    ensures
        key matches Some(k) ==> ecdsa_recover(digest@, compact@, recovery_id as int) == Some(k@),
        key is None ==> ecdsa_recover(digest@, compact@, recovery_id as int) is None,
{
    let id = secp256k1::ecdsa::RecoveryId::from_i32(recovery_id).ok()?;
    let sig = secp256k1::ecdsa::RecoverableSignature::from_compact(compact, id).ok()?;
    let msg = secp256k1::Message::from_digest(*digest);
    secp256k1::SECP256K1.recover_ecdsa(&msg, &sig).ok().map(|k| k.serialize_uncompressed())
}

/// Calls `Secp256k1::verify_ecdsa`. Believed: the verdict depends on
/// digest, signature bytes and key bytes alone. Bytes that are no signature
/// or no public key do not verify.
#[verifier::external_body]
pub(crate) fn verify_compact(digest: &[u8; 32], compact: &[u8; 64], public_key: &[u8; 65]) -> (ok:
    bool)
    ensures
        ok == ecdsa_verify(digest@, compact@, public_key@),
{
    let msg = secp256k1::Message::from_digest(*digest);
    let sig = secp256k1::ecdsa::Signature::from_compact(compact);
    let pk = secp256k1::PublicKey::from_slice(public_key);
    match (sig, pk) {
        (Ok(sig), Ok(pk)) => secp256k1::SECP256K1.verify_ecdsa(&msg, &sig, &pk).is_ok(),
        _ => false,
    }
}

} // verus!
