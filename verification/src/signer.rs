//! Keys and signatures: the signature envelope, its compact forms, and the
//! signer that holds a secret key.

use vstd::prelude::*;
use crate::address::{address_of_key, Address};
use crate::crypto::{
    be_value, compact_in_range, compact_parses, derive_public_key, ecdsa_recover, ecdsa_sign,
    ecdsa_verify, generate_keypair, public_key_of, recover_public_key, recoverable_parses,
    secret_key_is_valid, sign_recoverable, valid_recovery_id, valid_secret_key, verify_compact,
};
use crate::codec::{
    array_of, i32_encoding, is_prefix, lemma_array_of, lemma_i32_prefix_unique,
    lemma_le_bytes_len, lemma_prefix_split, lemma_prefixes_of_same_length, push_i32, read_i32,
};
use crate::hex;

verus! {

/// An uncompressed secp256k1 public key: a tag byte, then the two
/// coordinates.
#[derive(Clone, Copy, Debug, PartialEq, Eq)]
pub struct PublicKey(pub [u8; 65]);

impl View for PublicKey {
    type V = Seq<u8>;

    open spec fn view(&self) -> Seq<u8> {
        self.0@
    }
}

/// A recoverable secp256k1 signature: `r` and `s` as 32 big-endian bytes
/// each, and the recovery id.
#[derive(Clone, Copy, Debug, PartialEq, Eq)]
pub struct Signature {
    /// The `r` component, most significant byte first.
    pub r: [u8; 32],
    /// The `s` component, most significant byte first.
    pub s: [u8; 32],
    /// The recovery id; a well-formed signature has one of 0, 1, 2, 3.
    pub recovery_id: i32,
}

/// Why a signature envelope has no compact form.
#[derive(Clone, Copy, Debug, PartialEq, Eq, Structural)]
pub enum SignatureError {
    /// The recovery id is not one of 0, 1, 2, 3.
    InvalidRecoveryId,
    /// `r` or `s` is not below the group order.
    InvalidSignature,
}

/// The 64-byte compact form without a recovery id: `r` then `s`.
#[derive(Clone, Copy, Debug, PartialEq, Eq)]
pub struct CompactSignature(pub [u8; 64]);

/// The compact form with its recovery id.
#[derive(Clone, Copy, Debug, PartialEq, Eq)]
pub struct RecoverableSignature {
    /// `r` then `s`, 32 big-endian bytes each.
    pub compact: [u8; 64],
    /// The recovery id.
    pub recovery_id: i32,
}

impl Signature {
    /// `r` followed by `s`.
    pub open spec fn compact(&self) -> Seq<u8> {
        self.r@ + self.s@
    }

    /// The recovery id is in range and both components are below the group
    /// order.
    pub open spec fn well_formed(&self) -> bool {
        valid_recovery_id(self.recovery_id as int) && compact_in_range(self.compact())
    }

    /// The public key that the signature recovers to over `digest`.
    pub open spec fn recovered_key(&self, digest: Seq<u8>) -> Option<Seq<u8>> {
        if self.well_formed() {
            ecdsa_recover(digest, self.compact(), self.recovery_id as int)
        } else {
            None
        }
    }

    /// The address of the key that the signature recovers to over `digest`.
    pub open spec fn recovered_address(&self, digest: Seq<u8>) -> Option<Seq<u8>> {
        match self.recovered_key(digest) {
            Some(key) => Some(address_of_key(key)),
            None => None,
        }
    }

    /// A key is recovered, the signature verifies against it, and its
    /// address is `address`.
    pub open spec fn verifies(&self, digest: Seq<u8>, address: Seq<u8>) -> bool {
        match self.recovered_key(digest) {
            Some(key) => ecdsa_verify(digest, self.compact(), key) && address_of_key(key)
                == address,
            None => false,
        }
    }

    /// The envelope of 64 compact bytes and a recovery id: `r` is the first
    /// half, `s` the second.
    pub open spec fn of_compact(compact: Seq<u8>, recovery_id: i32) -> Signature
        recommends
            compact.len() == 64,
    {
        Signature {
            r: array_of::<32>(compact.subrange(0, 32)),
            s: array_of::<32>(compact.subrange(32, 64)),
            recovery_id,
        }
    }

    /// The envelope of 64 compact bytes has those bytes as its compact
    /// form.
    pub proof fn lemma_of_compact(compact: Seq<u8>, recovery_id: i32)
        requires
            compact.len() == 64,
        ensures
            Signature::of_compact(compact, recovery_id).r@ == compact.subrange(0, 32),
            Signature::of_compact(compact, recovery_id).s@ == compact.subrange(32, 64),
            Signature::of_compact(compact, recovery_id).compact() == compact,
            Signature::of_compact(compact, recovery_id).recovery_id == recovery_id,
    {
        lemma_array_of::<32>(compact.subrange(0, 32));
        lemma_array_of::<32>(compact.subrange(32, 64));
        assert(compact.subrange(0, 32) + compact.subrange(32, 64) =~= compact);
    }

    /// The canonical bytes of the envelope: `r` and `s` as 256-bit numbers,
    /// least significant byte first, then the recovery id.
    pub open spec fn encoding(&self) -> Seq<u8> {
        self.r@.reverse() + self.s@.reverse() + i32_encoding(self.recovery_id)
    }

    /// Appends the canonical bytes of the envelope to `out`.
    pub fn encode_into(&self, out: &mut Vec<u8>)
        ensures
            final(out)@ == old(out)@ + self.encoding(),
    {
        let mut i: usize = 0;
        while i < 32
            invariant
                i <= 32,
                out@ == old(out)@ + self.r@.reverse().subrange(0, i as int),
            decreases 32 - i,
        {
            out.push(self.r[31 - i]);
            assert(self.r@.reverse().subrange(0, i + 1) =~= self.r@.reverse().subrange(
                0,
                i as int,
            ).push(self.r@[31 - i]));
            i = i + 1;
        }
        assert(self.r@.reverse().subrange(0, 32) =~= self.r@.reverse());
        let ghost middle = out@;
        let mut i: usize = 0;
        while i < 32
            invariant
                i <= 32,
                out@ == middle + self.s@.reverse().subrange(0, i as int),
            decreases 32 - i,
        {
            out.push(self.s[31 - i]);
            assert(self.s@.reverse().subrange(0, i + 1) =~= self.s@.reverse().subrange(
                0,
                i as int,
            ).push(self.s@[31 - i]));
            i = i + 1;
        }
        assert(self.s@.reverse().subrange(0, 32) =~= self.s@.reverse());
        push_i32(out, self.recovery_id);
        assert(out@ =~= old(out)@ + self.encoding());
    }

    /// The canonical bytes of an envelope are 68.
    pub proof fn lemma_encoding_len(self)
        ensures
            self.encoding().len() == 68,
    {
        lemma_le_bytes_len(
            if self.recovery_id >= 0 {
                self.recovery_id as nat
            } else {
                (self.recovery_id + 0x1_0000_0000) as nat
            },
            4,
        );
    }

    /// Two envelopes whose canonical bytes start the same sequence are the
    /// same envelope.
    pub proof fn lemma_prefix_unique(a: Signature, b: Signature, bytes: Seq<u8>)
        requires
            is_prefix(a.encoding(), bytes),
            is_prefix(b.encoding(), bytes),
        ensures
            a == b,
    {
        a.lemma_encoding_len();
        b.lemma_encoding_len();
        lemma_prefix_split(a.r@.reverse() + a.s@.reverse(), i32_encoding(a.recovery_id), bytes);
        lemma_prefix_split(b.r@.reverse() + b.s@.reverse(), i32_encoding(b.recovery_id), bytes);
        lemma_i32_prefix_unique(a.recovery_id, b.recovery_id, bytes.skip(64));
        lemma_prefix_split(a.r@.reverse(), a.s@.reverse(), bytes);
        lemma_prefix_split(b.r@.reverse(), b.s@.reverse(), bytes);
        lemma_prefixes_of_same_length(a.r@.reverse(), b.r@.reverse(), bytes);
        lemma_prefixes_of_same_length(a.s@.reverse(), b.s@.reverse(), bytes.skip(32));
        assert(a.r@ =~= b.r@) by {
            assert forall|i: int| 0 <= i < 32 implies a.r@[i] == b.r@[i] by {
                assert(a.r@.reverse()[31 - i] == b.r@.reverse()[31 - i]);
            }
        }
        assert(a.s@ =~= b.s@) by {
            assert forall|i: int| 0 <= i < 32 implies a.s@[i] == b.s@[i] by {
                assert(a.s@.reverse()[31 - i] == b.s@.reverse()[31 - i]);
            }
        }
        Signature::lemma_fields_determine(a, b);
    }

    /// Reads the envelope whose canonical bytes stand at `pos`. There is
    /// none exactly when fewer than 68 bytes follow `pos`.
    pub fn read(bytes: &[u8], pos: usize) -> (value: Option<Signature>)
        ensures
            value is Some <==> pos + 68 <= bytes@.len(),
            value matches Some(sig) ==> sig.encoding() == bytes@.subrange(pos as int, pos + 68),
    {
        if pos > bytes.len() || bytes.len() - pos < 68 {
            return None;
        }
        let mut r = [0u8; 32];
        let mut s = [0u8; 32];
        let mut i: usize = 0;
        while i < 32
            invariant
                pos + 68 <= bytes@.len() <= usize::MAX,
                i <= 32,
                forall|j: int| 32 - i <= j < 32 ==> #[trigger] r[j] == bytes@[pos + 31 - j],
                forall|j: int| 32 - i <= j < 32 ==> #[trigger] s[j] == bytes@[pos + 63 - j],
            decreases 32 - i,
        {
            r[31 - i] = bytes[pos + i];
            s[31 - i] = bytes[pos + 32 + i];
            i = i + 1;
        }
        match read_i32(bytes, pos + 64) {
            Some(recovery_id) => {
                let sig = Signature { r, s, recovery_id };
                proof {
                    assert(sig.r@.reverse() =~= bytes@.subrange(pos as int, pos + 32));
                    assert(sig.s@.reverse() =~= bytes@.subrange(pos + 32, pos + 64));
                    assert(sig.encoding() =~= bytes@.subrange(pos as int, pos + 68));
                }
                Some(sig)
            },
            None => None,
        }
    }

    /// Concatenates `r` and `s`.
    pub fn compact_bytes(&self) -> (out: [u8; 64])
        ensures
            out@ == self.compact(),
    {
        let mut out = [0u8; 64];
        let mut i: usize = 0;
        while i < 32
            invariant
                i <= 32,
                forall|j: int| 0 <= j < i ==> out[j] == self.r[j],
                forall|j: int| 0 <= j < i ==> out[j + 32] == self.s[j],
            decreases 32 - i,
        {
            out[i] = self.r[i];
            out[i + 32] = self.s[i];
            i = i + 1;
        }
        assert(out@ =~= self.compact());
        out
    }

    /// The compact form without recovery id. Fails exactly when `r` or `s`
    /// is out of range.
    pub fn to_compact(&self) -> (res: Result<CompactSignature, SignatureError>)
        ensures
            res is Ok <==> compact_in_range(self.compact()),
            res matches Ok(c) ==> c.0@ == self.compact(),
            res matches Err(e) ==> e == SignatureError::InvalidSignature,
    {
        let bytes = self.compact_bytes();
        if compact_parses(&bytes) {
            Ok(CompactSignature(bytes))
        } else {
            Err(SignatureError::InvalidSignature)
        }
    }

    /// The compact form with recovery id. Fails with `InvalidRecoveryId`
    /// exactly when the id is out of range, and with `InvalidSignature`
    /// exactly when the id is in range but `r` or `s` is not.
    pub fn to_recoverable(&self) -> (res: Result<RecoverableSignature, SignatureError>)
        ensures
            res is Ok <==> self.well_formed(),
            res matches Ok(rs) ==> rs.compact@ == self.compact() && rs.recovery_id
                == self.recovery_id,
            res matches Err(e) ==> (e == SignatureError::InvalidRecoveryId <==> !valid_recovery_id(
                self.recovery_id as int,
            )),
            res matches Err(e) ==> e == SignatureError::InvalidRecoveryId || e
                == SignatureError::InvalidSignature,
    {
        if self.recovery_id < 0 || self.recovery_id > 3 {
            return Err(SignatureError::InvalidRecoveryId);
        }
        let bytes = self.compact_bytes();
        if recoverable_parses(&bytes, self.recovery_id) {
            Ok(RecoverableSignature { compact: bytes, recovery_id: self.recovery_id })
        } else {
            Err(SignatureError::InvalidSignature)
        }
    }

    /// Splits a compact form into the envelope. Loses nothing: the
    /// envelope's compact bytes and recovery id are those given.
    pub fn from_recoverable(sig: &RecoverableSignature) -> (out: Signature)
        ensures
            out.compact() == sig.compact@,
            out.r@ == sig.compact@.subrange(0, 32),
            out.s@ == sig.compact@.subrange(32, 64),
            out.recovery_id == sig.recovery_id,
            out == Signature::of_compact(sig.compact@, sig.recovery_id),
    {
        let mut r = [0u8; 32];
        let mut s = [0u8; 32];
        let mut i: usize = 0;
        while i < 32
            invariant
                i <= 32,
                forall|j: int| 0 <= j < i ==> r[j] == sig.compact[j],
                forall|j: int| 0 <= j < i ==> s[j] == sig.compact[j + 32],
            decreases 32 - i,
        {
            r[i] = sig.compact[i];
            s[i] = sig.compact[i + 32];
            i = i + 1;
        }
        let out = Signature { r, s, recovery_id: sig.recovery_id };
        proof {
            assert(out.r@ =~= sig.compact@.subrange(0, 32));
            assert(out.s@ =~= sig.compact@.subrange(32, 64));
            assert(out.compact() =~= sig.compact@);
            Signature::lemma_of_compact(sig.compact@, sig.recovery_id);
            Signature::lemma_fields_determine(
                out,
                Signature::of_compact(sig.compact@, sig.recovery_id),
            );
        }
        out
    }

    /// Two envelopes with the same bytes and recovery id are the same.
    pub proof fn lemma_fields_determine(a: Signature, b: Signature)
        requires
            a.r@ == b.r@,
            a.s@ == b.s@,
            a.recovery_id == b.recovery_id,
        ensures
            a == b,
    {
        assert(a.r =~= b.r);
        assert(a.s =~= b.s);
    }

    /// Splitting the compact form of an envelope gives the envelope back.
    pub proof fn lemma_compact_round_trip(sig: Signature)
        ensures
            Signature::of_compact(sig.compact(), sig.recovery_id) == sig,
    {
        assert(sig.compact().subrange(0, 32) =~= sig.r@);
        assert(sig.compact().subrange(32, 64) =~= sig.s@);
        Signature::lemma_of_compact(sig.compact(), sig.recovery_id);
        Signature::lemma_fields_determine(
            Signature::of_compact(sig.compact(), sig.recovery_id),
            sig,
        );
    }

    /// Recovers the public key that signed `digest`, if there is one.
    pub fn recover(&self, digest: &[u8; 32]) -> (key: Option<PublicKey>)
        ensures
            key is Some <==> self.recovered_key(digest@) is Some,
            key matches Some(k) ==> self.recovered_key(digest@) == Some(k@),
    {
        match self.to_recoverable() {
            Ok(sig) => {
                match recover_public_key(digest, &sig.compact, sig.recovery_id) {
                    Some(bytes) => Some(PublicKey(bytes)),
                    None => None,
                }
            },
            Err(_) => None,
        }
    }

    /// Recovers the address of the key that signed `digest`, if there is
    /// one.
    pub fn recover_address(&self, digest: &[u8; 32]) -> (address: Option<Address>)
        ensures
            address is Some <==> self.recovered_address(digest@) is Some,
            address matches Some(a) ==> self.recovered_address(digest@) == Some(a@),
    {
        match self.recover(digest) {
            Some(key) => Some(Address::from_public_key(&key)),
            None => None,
        }
    }

    /// Checks the signature over `digest` against the claimed `address`:
    /// a key must be recovered, the signature must verify against that key,
    /// and the key's address must be the claimed one.
    pub fn verify(&self, digest: &[u8; 32], address: &Address) -> (ok: bool)
        ensures
            ok == self.verifies(digest@, address@),
    {
        match self.recover(digest) {
            Some(key) => {
                let derived = Address::from_public_key(&key);
                let compact = self.compact_bytes();
                let same = derived == *address;
                proof {
                    Address::lemma_view_injective(derived, *address);
                }
                verify_compact(digest, &compact, &key.0) && same
            },
            None => false,
        }
    }
}

/// Why bytes or text are no secret key.
#[derive(Clone, Copy, Debug, PartialEq, Eq, Structural)]
pub enum KeyError {
    /// The text is not hexadecimal.
    NotHex,
    /// The text does not stand for exactly 32 bytes.
    WrongLength,
    /// The bytes are zero or not below the group order.
    OutOfRange,
}

/// Holds a secp256k1 secret key and signs digests with it.
pub struct Signer {
    sk: [u8; 32],
    pk: PublicKey,
    address: Address,
}

impl Signer {
    /// The secret key is valid, the public key belongs to it, and the
    /// address belongs to the public key.
    #[verifier::type_invariant]
    pub closed spec fn inv(&self) -> bool {
        &&& valid_secret_key(self.sk@)
        &&& self.pk@ == public_key_of(self.sk@)
        &&& self.address@ == address_of_key(self.pk@)
    }

    /// The 32 bytes of the secret key.
    pub closed spec fn secret(&self) -> Seq<u8> {
        self.sk@
    }

    /// The signer's public key.
    pub closed spec fn spec_public_key(&self) -> PublicKey {
        self.pk
    }

    /// The signer's address.
    pub closed spec fn spec_address(&self) -> Address {
        self.address
    }

    /// The signature that this signer gives a digest.
    pub open spec fn signature_of(&self, digest: Seq<u8>) -> Signature {
        Signature::of_compact(
            ecdsa_sign(self.secret(), digest).0,
            ecdsa_sign(self.secret(), digest).1 as i32,
        )
    }

    /// The signer's address: that of the public key of its secret key.
    #[verifier::when_used_as_spec(spec_address)]
    pub fn address(&self) -> (address: Address)
        ensures
            address == self.spec_address(),
            address@ == address_of_key(public_key_of(self.secret())),
    {
        proof {
            use_type_invariant(self);
        }
        self.address
    }

    /// The signer's public key: that of its secret key.
    #[verifier::when_used_as_spec(spec_public_key)]
    pub fn public_key(&self) -> (key: PublicKey)
        ensures
            key == self.spec_public_key(),
            key@ == public_key_of(self.secret()),
    {
        proof {
            use_type_invariant(self);
        }
        self.pk
    }

    /// The bytes of the secret key, which are a valid one.
    pub fn secret_bytes(&self) -> (secret: [u8; 32])
        ensures
            secret@ == self.secret(),
            valid_secret_key(secret@),
    {
        proof {
            use_type_invariant(self);
        }
        self.sk
    }

    /// Makes a signer from the 32 bytes of a secret key. Fails exactly when
    /// the bytes are no valid secret key.
    pub fn from_secret_bytes(secret: [u8; 32]) -> (res: Result<Signer, KeyError>)
        ensures
            res is Ok <==> valid_secret_key(secret@),
            res matches Ok(signer) ==> signer.secret() == secret@,
            res matches Err(e) ==> e == KeyError::OutOfRange,
    {
        if !secret_key_is_valid(&secret) {
            return Err(KeyError::OutOfRange);
        }
        let pk = PublicKey(derive_public_key(&secret));
        let address = Address::from_public_key(&pk);
        Ok(Signer { sk: secret, pk, address })
    }

    /// Makes a signer from the hexadecimal text of a secret key: 64 digits,
    /// upper or lower case.
    pub fn from_secret_hex(text: &str) -> (res: Result<Signer, KeyError>)
        ensures
            res is Ok <==> hex::is_hex(text@) && valid_secret_key(hex::decoded(text@)),
            res matches Ok(signer) ==> signer.secret() == hex::decoded(text@),
            res matches Err(e) ==> (e == KeyError::NotHex <==> !hex::is_hex(text@)),
            res matches Err(e) ==> (e == KeyError::WrongLength <==> hex::is_hex(text@)
                && text@.len() != 64),
            res matches Err(e) ==> (e == KeyError::OutOfRange <==> hex::is_hex(text@)
                && text@.len() == 64),
    {
        match hex::decode(text) {
            None => Err(KeyError::NotHex),
            Some(bytes) => {
                if bytes.len() != 32 {
                    return Err(KeyError::WrongLength);
                }
                let mut secret = [0u8; 32];
                let mut i: usize = 0;
                while i < 32
                    invariant
                        i <= 32,
                        bytes@.len() == 32,
                        forall|j: int| 0 <= j < i ==> secret[j] == bytes[j],
                    decreases 32 - i,
                {
                    secret[i] = bytes[i];
                    i = i + 1;
                }
                assert(secret@ =~= bytes@);
                Signer::from_secret_bytes(secret)
            },
        }
    }

    /// Generates a signer with a fresh random key.
    pub fn random() -> (signer: Signer)
        ensures
            valid_secret_key(signer.secret()),
    {
        let (sk, pk) = generate_keypair();
        let pk = PublicKey(pk);
        let address = Address::from_public_key(&pk);
        Signer { sk, pk, address }
    }

    /// Signs a 32-byte digest. The signature is the curve's deterministic
    /// one for key and digest: `r` and `s` are the two halves of its compact
    /// form, neither zero and both below the group order. It recovers, over
    /// the digest, to this signer's public key and so to its address, and
    /// it verifies against that key.
    pub fn sign(&self, digest: [u8; 32]) -> (sig: Signature)
        ensures
            sig == self.signature_of(digest@),
            sig.compact() == ecdsa_sign(self.secret(), digest@).0,
            sig.recovery_id as int == ecdsa_sign(self.secret(), digest@).1,
            sig.well_formed(),
            0 < be_value(sig.r@),
            0 < be_value(sig.s@),
            sig.recovered_key(digest@) == Some(self.public_key()@),
            sig.recovered_address(digest@) == Some(self.address()@),
            ecdsa_verify(digest@, sig.compact(), self.public_key()@),
            sig.verifies(digest@, self.address()@),
    {
        proof {
            use_type_invariant(self);
        }
        let (compact, recovery_id) = sign_recoverable(&self.sk, &digest);
        let sig = Signature::from_recoverable(&RecoverableSignature { compact, recovery_id });
        sig
    }
}

} // verus!
