//! The 20-byte identity of a key holder.

use vstd::prelude::*;
use vstd::slice::slice_subrange;
use crate::codec::{array_of, lemma_array_of};
use crate::crypto::{keccak256, keccak256_digest, random_address_bytes};
use crate::signer::PublicKey;

verus! {

/// Twenty bytes that identify the holder of a secp256k1 key.
#[derive(Clone, Copy, Debug, Eq, Hash)]
pub struct Address(pub [u8; 20]);

impl View for Address {
    type V = Seq<u8>;

    open spec fn view(&self) -> Seq<u8> {
        self.0@
    }
}

/// The address that belongs to an uncompressed public key: the last twenty
/// bytes of the Keccak-256 digest of the key without its leading tag byte.
pub open spec fn address_of_key(public_key: Seq<u8>) -> Seq<u8> {
    keccak256_digest(public_key.subrange(1, 65)).subrange(12, 32)
}

/// The address value whose bytes are `address_of_key` of the key.
pub open spec fn derived_address(key: PublicKey) -> Address {
    Address(array_of::<20>(address_of_key(key@)))
}

impl PartialEq for Address {
    fn eq(&self, other: &Self) -> (same: bool) {
        let mut i: usize = 0;
        while i < 20
            invariant
                i <= 20,
                forall|j: int| 0 <= j < i ==> self.0[j] == other.0[j],
            decreases 20 - i,
        {
            if self.0[i] != other.0[i] {
                return false;
            }
            i = i + 1;
        }
        assert(self.0 =~= other.0);
        true
    }
}

impl vstd::std_specs::cmp::PartialEqSpecImpl for Address {
    open spec fn obeys_eq_spec() -> bool {
        true
    }

    open spec fn eq_spec(&self, other: &Self) -> bool {
        *self == *other
    }
}

impl Address {
    /// Two addresses are equal exactly when their bytes are.
    pub proof fn lemma_view_injective(a: Address, b: Address)
        ensures
            a@ == b@ <==> a == b,
    {
        if a@ == b@ {
            assert(a.0 =~= b.0);
        }
    }

    /// Derives the address of a public key.
    pub fn from_public_key(key: &PublicKey) -> (address: Address)
        ensures
            address@ == address_of_key(key@),
    {
        let body = slice_subrange(key.0.as_slice(), 1, 65);
        let digest = keccak256(body);
        let mut bytes = [0u8; 20];
        let mut i: usize = 0;
        while i < 20
            invariant
                i <= 20,
                forall|j: int| 0 <= j < i ==> bytes[j] == digest[j + 12],
            decreases 20 - i,
        {
            bytes[i] = digest[i + 12];
            i = i + 1;
        }
        assert(bytes@ =~= digest@.subrange(12, 32));
        Address(bytes)
    }

    /// Draws an address at random.
    pub fn random() -> Address {
        Address(random_address_bytes())
    }
}

impl From<PublicKey> for Address {
    fn from(key: PublicKey) -> (address: Address)
        ensures
            address@ == address_of_key(key@),
    {
        let address = Address::from_public_key(&key);
        proof {
            lemma_array_of::<20>(address_of_key(key@));
            Address::lemma_view_injective(address, derived_address(key));
        }
        address
    }
}

impl vstd::std_specs::convert::FromSpecImpl<PublicKey> for Address {
    open spec fn obeys_from_spec() -> bool {
        true
    }

    open spec fn from_spec(key: PublicKey) -> Address {
        derived_address(key)
    }
}

} // verus!
