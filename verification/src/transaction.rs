//! Transactions: the two kinds, their canonical bytes and digests, and the
//! signed wrapper that checks itself.

use vstd::prelude::*;
use crate::address::Address;
use crate::codec::{
    is_prefix, lemma_le_bytes_len, lemma_pow256_values, lemma_prefix_split,
    lemma_prefixes_of_same_length, lemma_u64_prefix_unique, lemma_value_of_le_bytes, push_bytes,
    push_tag, push_u64, read_bytes20, read_tag, read_u64, tag_encoding, u64_encoding,
};
use crate::crypto::{keccak256, keccak256_digest};
use crate::signer::{Signature, Signer};
use crate::CHAIN_ID;

verus! {

/// What every transaction says of itself.
#[derive(Clone, Copy, Debug, PartialEq, Eq)]
pub struct TransactionHeader {
    /// The chain on which the transaction is meant to run.
    pub chain_id: u64,
    /// Who sends.
    pub sender: Address,
    /// Who receives.
    pub recipient: Address,
    /// How much is moved.
    pub amount: u64,
}

/// A transaction with fee caps.
#[derive(Clone, Copy, Debug, PartialEq, Eq)]
pub struct DynamicTxData {
    /// The transaction header.
    pub header: TransactionHeader,
    /// The most the sender pays per unit of gas.
    pub max_fee_per_gas: u64,
    /// The most the sender tips per unit of gas.
    pub max_priority_fee_per_gas: u64,
}

/// A transaction that leaves for another chain.
#[derive(Clone, Copy, Debug, PartialEq, Eq)]
pub struct WithdrawalTxData {
    /// The transaction header.
    pub header: TransactionHeader,
    /// The chain that the value leaves for.
    pub dest_chain: u64,
}

/// A transaction of either kind.
#[derive(Clone, Copy, Debug, PartialEq, Eq)]
pub enum Transaction {
    /// With fee caps.
    Dynamic(DynamicTxData),
    /// Leaving for another chain.
    Withdrawal(WithdrawalTxData),
}

/// A transaction and a signature over its digest.
#[derive(Clone, Copy, Debug, PartialEq, Eq)]
pub struct SignedTransaction {
    /// What was signed.
    pub transaction: Transaction,
    /// The signature over the transaction's digest.
    pub signature: Signature,
}

impl TransactionHeader {
    /// Chain id, sender, recipient, amount: 56 bytes.
    pub open spec fn encoding(&self) -> Seq<u8> {
        u64_encoding(self.chain_id) + self.sender@ + self.recipient@ + u64_encoding(self.amount)
    }

    /// The header names the configured chain.
    pub open spec fn well_formed(&self) -> bool {
        self.chain_id == CHAIN_ID
    }

    /// The canonical bytes of a header are 56.
    pub proof fn lemma_encoding_len(self)
        ensures
            self.encoding().len() == 56,
    {
        lemma_le_bytes_len(self.chain_id as nat, 8);
        lemma_le_bytes_len(self.amount as nat, 8);
    }

    /// Two headers whose canonical bytes start the same sequence are the
    /// same header.
    pub proof fn lemma_prefix_unique(a: TransactionHeader, b: TransactionHeader, bytes: Seq<u8>)
        requires
            is_prefix(a.encoding(), bytes),
            is_prefix(b.encoding(), bytes),
        ensures
            a == b,
    {
        lemma_le_bytes_len(a.chain_id as nat, 8);
        lemma_le_bytes_len(b.chain_id as nat, 8);
        lemma_prefix_split(
            u64_encoding(a.chain_id) + a.sender@ + a.recipient@,
            u64_encoding(a.amount),
            bytes,
        );
        lemma_prefix_split(
            u64_encoding(b.chain_id) + b.sender@ + b.recipient@,
            u64_encoding(b.amount),
            bytes,
        );
        lemma_prefix_split(u64_encoding(a.chain_id) + a.sender@, a.recipient@, bytes);
        lemma_prefix_split(u64_encoding(b.chain_id) + b.sender@, b.recipient@, bytes);
        lemma_prefix_split(u64_encoding(a.chain_id), a.sender@, bytes);
        lemma_prefix_split(u64_encoding(b.chain_id), b.sender@, bytes);
        lemma_u64_prefix_unique(a.chain_id, b.chain_id, bytes);
        lemma_prefixes_of_same_length(a.sender@, b.sender@, bytes.skip(8));
        lemma_prefixes_of_same_length(a.recipient@, b.recipient@, bytes.skip(28));
        lemma_u64_prefix_unique(a.amount, b.amount, bytes.skip(48));
        Address::lemma_view_injective(a.sender, b.sender);
        Address::lemma_view_injective(a.recipient, b.recipient);
    }

    /// Reads the header whose canonical bytes stand at `pos`. There is none
    /// exactly when fewer than 56 bytes follow `pos`.
    pub fn read(bytes: &[u8], pos: usize) -> (value: Option<TransactionHeader>)
        ensures
            value is Some <==> pos + 56 <= bytes@.len(),
            value matches Some(header) ==> header.encoding() == bytes@.subrange(
                pos as int,
                pos + 56,
            ),
    {
        if pos > bytes.len() || bytes.len() - pos < 56 {
            return None;
        }
        let chain_id = read_u64(bytes, pos);
        let sender = read_bytes20(bytes, pos + 8);
        let recipient = read_bytes20(bytes, pos + 28);
        let amount = read_u64(bytes, pos + 48);
        match (chain_id, sender, recipient, amount) {
            (Some(chain_id), Some(sender), Some(recipient), Some(amount)) => {
                let header = TransactionHeader {
                    chain_id,
                    sender: Address(sender),
                    recipient: Address(recipient),
                    amount,
                };
                assert(header.encoding() =~= bytes@.subrange(pos as int, pos + 56));
                Some(header)
            },
            _ => None,
        }
    }

    /// Appends the header's canonical bytes to `out`.
    pub fn encode_into(&self, out: &mut Vec<u8>)
        ensures
            final(out)@ == old(out)@ + self.encoding(),
    {
        push_u64(out, self.chain_id);
        push_bytes(out, self.sender.0.as_slice());
        push_bytes(out, self.recipient.0.as_slice());
        push_u64(out, self.amount);
        assert(out@ =~= old(out)@ + self.encoding());
    }
}

impl DynamicTxData {
    /// The header, then the two fee caps.
    pub open spec fn encoding(&self) -> Seq<u8> {
        self.header.encoding() + u64_encoding(self.max_fee_per_gas) + u64_encoding(
            self.max_priority_fee_per_gas,
        )
    }

    /// The Keccak-256 digest of the canonical bytes.
    pub open spec fn digest(&self) -> Seq<u8> {
        keccak256_digest(self.encoding())
    }

    /// The canonical bytes of a dynamic transaction are 72.
    pub proof fn lemma_encoding_len(self)
        ensures
            self.encoding().len() == 72,
    {
        self.header.lemma_encoding_len();
        lemma_le_bytes_len(self.max_fee_per_gas as nat, 8);
        lemma_le_bytes_len(self.max_priority_fee_per_gas as nat, 8);
    }

    /// Two dynamic transactions whose canonical bytes start the same
    /// sequence are the same transaction.
    pub proof fn lemma_prefix_unique(a: DynamicTxData, b: DynamicTxData, bytes: Seq<u8>)
        requires
            is_prefix(a.encoding(), bytes),
            is_prefix(b.encoding(), bytes),
        ensures
            a == b,
    {
        a.header.lemma_encoding_len();
        b.header.lemma_encoding_len();
        lemma_le_bytes_len(a.max_fee_per_gas as nat, 8);
        lemma_le_bytes_len(b.max_fee_per_gas as nat, 8);
        lemma_prefix_split(
            a.header.encoding() + u64_encoding(a.max_fee_per_gas),
            u64_encoding(a.max_priority_fee_per_gas),
            bytes,
        );
        lemma_prefix_split(
            b.header.encoding() + u64_encoding(b.max_fee_per_gas),
            u64_encoding(b.max_priority_fee_per_gas),
            bytes,
        );
        lemma_prefix_split(a.header.encoding(), u64_encoding(a.max_fee_per_gas), bytes);
        lemma_prefix_split(b.header.encoding(), u64_encoding(b.max_fee_per_gas), bytes);
        TransactionHeader::lemma_prefix_unique(a.header, b.header, bytes);
        lemma_u64_prefix_unique(a.max_fee_per_gas, b.max_fee_per_gas, bytes.skip(56));
        lemma_u64_prefix_unique(
            a.max_priority_fee_per_gas,
            b.max_priority_fee_per_gas,
            bytes.skip(64),
        );
    }

    /// Reads the dynamic transaction whose canonical bytes stand at `pos`.
    /// There is none exactly when fewer than 72 bytes follow `pos`.
    pub fn read(bytes: &[u8], pos: usize) -> (value: Option<DynamicTxData>)
        ensures
            value is Some <==> pos + 72 <= bytes@.len(),
            value matches Some(tx) ==> tx.encoding() == bytes@.subrange(pos as int, pos + 72),
    {
        if pos > bytes.len() || bytes.len() - pos < 72 {
            return None;
        }
        let header = TransactionHeader::read(bytes, pos);
        let max_fee_per_gas = read_u64(bytes, pos + 56);
        let max_priority_fee_per_gas = read_u64(bytes, pos + 64);
        match (header, max_fee_per_gas, max_priority_fee_per_gas) {
            (Some(header), Some(max_fee_per_gas), Some(max_priority_fee_per_gas)) => {
                let tx = DynamicTxData { header, max_fee_per_gas, max_priority_fee_per_gas };
                assert(tx.encoding() =~= bytes@.subrange(pos as int, pos + 72));
                Some(tx)
            },
            _ => None,
        }
    }

    /// The header is well formed and the tip cap does not exceed the fee
    /// cap.
    pub open spec fn well_formed(&self) -> bool {
        self.header.well_formed() && self.max_priority_fee_per_gas <= self.max_fee_per_gas
    }

    /// Appends the canonical bytes to `out`.
    pub fn encode_into(&self, out: &mut Vec<u8>)
        ensures
            final(out)@ == old(out)@ + self.encoding(),
    {
        self.header.encode_into(out);
        push_u64(out, self.max_fee_per_gas);
        push_u64(out, self.max_priority_fee_per_gas);
        assert(out@ =~= old(out)@ + self.encoding());
    }

    /// Computes the digest of the transaction.
    pub fn hash(&self) -> (digest: [u8; 32])
        ensures
            digest@ == self.digest(),
    {
        let mut bytes: Vec<u8> = Vec::new();
        self.encode_into(&mut bytes);
        assert(bytes@ =~= self.encoding());
        keccak256(bytes.as_slice())
    }
}

impl WithdrawalTxData {
    /// The header, then the destination chain.
    pub open spec fn encoding(&self) -> Seq<u8> {
        self.header.encoding() + u64_encoding(self.dest_chain)
    }

    /// The Keccak-256 digest of the canonical bytes.
    pub open spec fn digest(&self) -> Seq<u8> {
        keccak256_digest(self.encoding())
    }

    /// The canonical bytes of a withdrawal are 64.
    pub proof fn lemma_encoding_len(self)
        ensures
            self.encoding().len() == 64,
    {
        self.header.lemma_encoding_len();
        lemma_le_bytes_len(self.dest_chain as nat, 8);
    }

    /// Two withdrawals whose canonical bytes start the same sequence are
    /// the same withdrawal.
    pub proof fn lemma_prefix_unique(a: WithdrawalTxData, b: WithdrawalTxData, bytes: Seq<u8>)
        requires
            is_prefix(a.encoding(), bytes),
            is_prefix(b.encoding(), bytes),
        ensures
            a == b,
    {
        a.header.lemma_encoding_len();
        b.header.lemma_encoding_len();
        lemma_prefix_split(a.header.encoding(), u64_encoding(a.dest_chain), bytes);
        lemma_prefix_split(b.header.encoding(), u64_encoding(b.dest_chain), bytes);
        TransactionHeader::lemma_prefix_unique(a.header, b.header, bytes);
        lemma_u64_prefix_unique(a.dest_chain, b.dest_chain, bytes.skip(56));
    }

    /// Reads the withdrawal whose canonical bytes stand at `pos`. There is
    /// none exactly when fewer than 64 bytes follow `pos`.
    pub fn read(bytes: &[u8], pos: usize) -> (value: Option<WithdrawalTxData>)
        ensures
            value is Some <==> pos + 64 <= bytes@.len(),
            value matches Some(tx) ==> tx.encoding() == bytes@.subrange(pos as int, pos + 64),
    {
        if pos > bytes.len() || bytes.len() - pos < 64 {
            return None;
        }
        let header = TransactionHeader::read(bytes, pos);
        let dest_chain = read_u64(bytes, pos + 56);
        match (header, dest_chain) {
            (Some(header), Some(dest_chain)) => {
                let tx = WithdrawalTxData { header, dest_chain };
                assert(tx.encoding() =~= bytes@.subrange(pos as int, pos + 64));
                Some(tx)
            },
            _ => None,
        }
    }

    /// The header is well formed and the recipient is the sender.
    pub open spec fn well_formed(&self) -> bool {
        self.header.well_formed() && self.header.recipient == self.header.sender
    }

    /// Appends the canonical bytes to `out`.
    pub fn encode_into(&self, out: &mut Vec<u8>)
        ensures
            final(out)@ == old(out)@ + self.encoding(),
    {
        self.header.encode_into(out);
        push_u64(out, self.dest_chain);
        assert(out@ =~= old(out)@ + self.encoding());
    }

    /// Computes the digest of the transaction.
    pub fn hash(&self) -> (digest: [u8; 32])
        ensures
            digest@ == self.digest(),
    {
        let mut bytes: Vec<u8> = Vec::new();
        self.encode_into(&mut bytes);
        assert(bytes@ =~= self.encoding());
        keccak256(bytes.as_slice())
    }
}

impl Transaction {
    /// The bytes that are hashed and signed: the canonical bytes of the
    /// variant's payload, without the discriminant.
    pub open spec fn signed_bytes(&self) -> Seq<u8> {
        match *self {
            Transaction::Dynamic(tx) => tx.encoding(),
            Transaction::Withdrawal(tx) => tx.encoding(),
        }
    }

    /// The digest of the variant's payload; the variant itself is not
    /// hashed.
    pub open spec fn digest(&self) -> Seq<u8> {
        keccak256_digest(self.signed_bytes())
    }

    /// Transactions with the same signed bytes are the same: changing the
    /// kind or any field of a transaction changes the bytes that are hashed
    /// and signed.
    pub proof fn lemma_signed_bytes_injective(a: Transaction, b: Transaction)
        requires
            a.signed_bytes() == b.signed_bytes(),
        ensures
            a == b,
    {
        let bytes = a.signed_bytes();
        assert(bytes.subrange(0, bytes.len() as int) =~= bytes);
        match (a, b) {
            (Transaction::Dynamic(x), Transaction::Dynamic(y)) => {
                DynamicTxData::lemma_prefix_unique(x, y, bytes);
            },
            (Transaction::Withdrawal(x), Transaction::Withdrawal(y)) => {
                WithdrawalTxData::lemma_prefix_unique(x, y, bytes);
            },
            (Transaction::Dynamic(x), Transaction::Withdrawal(y)) => {
                x.lemma_encoding_len();
                y.lemma_encoding_len();
            },
            (Transaction::Withdrawal(x), Transaction::Dynamic(y)) => {
                x.lemma_encoding_len();
                y.lemma_encoding_len();
            },
        }
    }

    /// The sender named in the header.
    pub open spec fn spec_sender(&self) -> Address {
        match *self {
            Transaction::Dynamic(tx) => tx.header.sender,
            Transaction::Withdrawal(tx) => tx.header.sender,
        }
    }

    /// The payload keeps the rules of its kind.
    pub open spec fn well_formed(&self) -> bool {
        match *self {
            Transaction::Dynamic(tx) => tx.well_formed(),
            Transaction::Withdrawal(tx) => tx.well_formed(),
        }
    }

    /// The canonical bytes of the transaction as a payload: the
    /// discriminant of its kind, zero for dynamic and one for withdrawal,
    /// then the bytes of the kind's payload.
    pub open spec fn encoding(&self) -> Seq<u8> {
        match *self {
            Transaction::Dynamic(tx) => tag_encoding(0) + tx.encoding(),
            Transaction::Withdrawal(tx) => tag_encoding(1) + tx.encoding(),
        }
    }

    /// The discriminant of the kind: zero for dynamic, one for withdrawal.
    pub open spec fn tag(&self) -> u32 {
        match *self {
            Transaction::Dynamic(_) => 0,
            Transaction::Withdrawal(_) => 1,
        }
    }

    /// The canonical bytes of a transaction begin with the four bytes of
    /// its discriminant, of which the first is the discriminant itself, and
    /// are 76 for a dynamic transaction and 68 for a withdrawal.
    pub proof fn lemma_encoding_shape(self)
        ensures
            is_prefix(tag_encoding(self.tag()), self.encoding()),
            self.encoding()[0] == self.tag(),
            self.encoding().len() == (if self is Dynamic {
                76int
            } else {
                68int
            }),
    {
        lemma_le_bytes_len(self.tag() as nat, 4);
        match self {
            Transaction::Dynamic(tx) => {
                tx.lemma_encoding_len();
                assert(self.encoding().subrange(0, 4) =~= tag_encoding(0));
            },
            Transaction::Withdrawal(tx) => {
                tx.lemma_encoding_len();
                assert(self.encoding().subrange(0, 4) =~= tag_encoding(1));
            },
        }
    }

    /// Where the canonical bytes of a transaction start a sequence that
    /// starts with the bytes of a discriminant, the discriminant is the
    /// transaction's and the payload's bytes follow it.
    pub proof fn lemma_tag_of_prefix(self, bytes: Seq<u8>, tag: u32)
        requires
            is_prefix(self.encoding(), bytes),
            is_prefix(tag_encoding(tag), bytes),
        ensures
            tag == self.tag(),
            self matches Transaction::Dynamic(tx) ==> is_prefix(tx.encoding(), bytes.skip(4)),
            self matches Transaction::Withdrawal(tx) ==> is_prefix(tx.encoding(), bytes.skip(4)),
    {
        lemma_le_bytes_len(self.tag() as nat, 4);
        lemma_le_bytes_len(tag as nat, 4);
        lemma_pow256_values();
        lemma_value_of_le_bytes(self.tag() as nat, 4);
        lemma_value_of_le_bytes(tag as nat, 4);
        match self {
            Transaction::Dynamic(tx) => {
                lemma_prefix_split(tag_encoding(0), tx.encoding(), bytes);
                lemma_prefixes_of_same_length(tag_encoding(0), tag_encoding(tag), bytes);
            },
            Transaction::Withdrawal(tx) => {
                lemma_prefix_split(tag_encoding(1), tx.encoding(), bytes);
                lemma_prefixes_of_same_length(tag_encoding(1), tag_encoding(tag), bytes);
            },
        }
    }

    /// Two transactions whose canonical bytes start the same sequence are
    /// the same transaction.
    pub proof fn lemma_prefix_unique(a: Transaction, b: Transaction, bytes: Seq<u8>)
        requires
            is_prefix(a.encoding(), bytes),
            is_prefix(b.encoding(), bytes),
        ensures
            a == b,
    {
        a.lemma_encoding_shape();
        b.lemma_encoding_shape();
        assert(bytes[0] == a.encoding()[0]) by {
            assert(bytes.subrange(0, a.encoding().len() as int)[0] == a.encoding()[0]);
        }
        assert(bytes[0] == b.encoding()[0]) by {
            assert(bytes.subrange(0, b.encoding().len() as int)[0] == b.encoding()[0]);
        }
        lemma_le_bytes_len(a.tag() as nat, 4);
        match (a, b) {
            (Transaction::Dynamic(x), Transaction::Dynamic(y)) => {
                lemma_prefix_split(tag_encoding(0), x.encoding(), bytes);
                lemma_prefix_split(tag_encoding(0), y.encoding(), bytes);
                DynamicTxData::lemma_prefix_unique(x, y, bytes.skip(4));
            },
            (Transaction::Withdrawal(x), Transaction::Withdrawal(y)) => {
                lemma_prefix_split(tag_encoding(1), x.encoding(), bytes);
                lemma_prefix_split(tag_encoding(1), y.encoding(), bytes);
                WithdrawalTxData::lemma_prefix_unique(x, y, bytes.skip(4));
            },
            _ => {},
        }
    }

    /// Reads the transaction whose canonical bytes stand at `pos`, and says
    /// where it ends. There is none exactly when no transaction's canonical
    /// bytes stand at `pos`.
    pub fn read(bytes: &[u8], pos: usize) -> (value: Option<(Transaction, usize)>)
        ensures
            value matches Some((tx, next)) ==> pos <= next <= bytes@.len() && bytes@.subrange(
                pos as int,
                next as int,
            ) == tx.encoding(),
            value is None ==> pos > bytes@.len() || forall|tx: Transaction|
                !is_prefix(#[trigger] tx.encoding(), bytes@.skip(pos as int)),
    {
        let ghost rest = bytes@.skip(pos as int);
        let total = bytes.len();
        let tag = match read_tag(bytes, pos) {
            Some(tag) => tag,
            None => {
                proof {
                    if pos <= total {
                        assert forall|tx: Transaction|
                            !is_prefix(#[trigger] tx.encoding(), rest) by {
                            tx.lemma_encoding_shape();
                        }
                    }
                }
                return None;
            },
        };
        proof {
            lemma_le_bytes_len(tag as nat, 4);
            lemma_pow256_values();
            lemma_value_of_le_bytes(tag as nat, 4);
            lemma_value_of_le_bytes(0, 4);
            lemma_value_of_le_bytes(1, 4);
            assert(rest.subrange(0, 4) =~= bytes@.subrange(pos as int, pos + 4));
        }
        if tag == 0 {
            match DynamicTxData::read(bytes, pos + 4) {
                Some(data) => {
                    let tx = Transaction::Dynamic(data);
                    assert(bytes@.subrange(pos as int, pos + 76) =~= tx.encoding());
                    Some((tx, pos + 76))
                },
                None => {
                    proof {
                        assert forall|tx: Transaction|
                            !is_prefix(#[trigger] tx.encoding(), rest) by {
                            if is_prefix(tx.encoding(), rest) {
                                tx.lemma_tag_of_prefix(rest, tag);
                                tx.lemma_encoding_shape();
                            }
                        }
                    }
                    None
                },
            }
        } else if tag == 1 {
            match WithdrawalTxData::read(bytes, pos + 4) {
                Some(data) => {
                    let tx = Transaction::Withdrawal(data);
                    assert(bytes@.subrange(pos as int, pos + 68) =~= tx.encoding());
                    Some((tx, pos + 68))
                },
                None => {
                    proof {
                        assert forall|tx: Transaction|
                            !is_prefix(#[trigger] tx.encoding(), rest) by {
                            if is_prefix(tx.encoding(), rest) {
                                tx.lemma_tag_of_prefix(rest, tag);
                                tx.lemma_encoding_shape();
                            }
                        }
                    }
                    None
                },
            }
        } else {
            proof {
                assert forall|tx: Transaction| !is_prefix(#[trigger] tx.encoding(), rest) by {
                    if is_prefix(tx.encoding(), rest) {
                        tx.lemma_tag_of_prefix(rest, tag);
                    }
                }
            }
            None
        }
    }

    /// Appends the canonical bytes of the transaction to `out`.
    pub fn encode_into(&self, out: &mut Vec<u8>)
        ensures
            final(out)@ == old(out)@ + self.encoding(),
    {
        match self {
            Transaction::Dynamic(tx) => {
                push_tag(out, 0);
                tx.encode_into(out);
            },
            Transaction::Withdrawal(tx) => {
                push_tag(out, 1);
                tx.encode_into(out);
            },
        }
        assert(out@ =~= old(out)@ + self.encoding());
    }

    /// A dynamic transaction to a given recipient, on the configured chain
    /// and with both fee caps at zero.
    pub fn dynamic_to(sender: Address, recipient: Address, amount: u64) -> (tx: Transaction)
        ensures
            tx == Transaction::Dynamic(
                DynamicTxData {
                    header: TransactionHeader { chain_id: CHAIN_ID, sender, recipient, amount },
                    max_fee_per_gas: 0,
                    max_priority_fee_per_gas: 0,
                },
            ),
            tx.well_formed(),
    {
        Transaction::Dynamic(
            DynamicTxData {
                header: TransactionHeader { chain_id: CHAIN_ID, sender, recipient, amount },
                max_fee_per_gas: 0,
                max_priority_fee_per_gas: 0,
            },
        )
    }

    /// A dynamic transaction to a recipient drawn at random.
    pub fn dynamic(sender: Address, amount: u64) -> (tx: Transaction)
        ensures
            exists|recipient: Address|
                tx == Transaction::Dynamic(
                    DynamicTxData {
                        header: TransactionHeader { chain_id: CHAIN_ID, sender, recipient, amount },
                        max_fee_per_gas: 0,
                        max_priority_fee_per_gas: 0,
                    },
                ),
            tx.well_formed(),
            tx.spec_sender() == sender,
    {
        Transaction::dynamic_to(sender, Address::random(), amount)
    }

    /// A withdrawal to the sender's own address on `dest_chain`.
    pub fn withdrawal(sender: Address, amount: u64, dest_chain: u64) -> (tx: Transaction)
        ensures
            tx == Transaction::Withdrawal(
                WithdrawalTxData {
                    header: TransactionHeader {
                        chain_id: CHAIN_ID,
                        sender,
                        recipient: sender,
                        amount,
                    },
                    dest_chain,
                },
            ),
            tx.well_formed(),
    {
        Transaction::Withdrawal(
            WithdrawalTxData {
                header: TransactionHeader { chain_id: CHAIN_ID, sender, recipient: sender, amount },
                dest_chain,
            },
        )
    }

    /// Computes the digest of the transaction.
    pub fn hash(&self) -> (digest: [u8; 32])
        ensures
            digest@ == self.digest(),
    {
        match self {
            Transaction::Dynamic(tx) => tx.hash(),
            Transaction::Withdrawal(tx) => tx.hash(),
        }
    }

    /// Returns the sender of the transaction.
    #[verifier::when_used_as_spec(spec_sender)]
    pub fn sender(&self) -> (sender: Address)
        ensures
            sender == self.spec_sender(),
    {
        match self {
            Transaction::Dynamic(tx) => tx.header.sender,
            Transaction::Withdrawal(tx) => tx.header.sender,
        }
    }

    /// Whether the payload keeps the rules of its kind.
    pub fn is_well_formed(&self) -> (ok: bool)
        ensures
            ok == self.well_formed(),
    {
        match self {
            Transaction::Dynamic(tx) => tx.header.chain_id == CHAIN_ID
                && tx.max_priority_fee_per_gas <= tx.max_fee_per_gas,
            Transaction::Withdrawal(tx) => tx.header.chain_id == CHAIN_ID && tx.header.recipient
                == tx.header.sender,
        }
    }
}

impl SignedTransaction {
    /// The signature recovers, over the transaction's digest, to a key that
    /// it verifies against and whose address is the transaction's sender.
    pub open spec fn valid(&self) -> bool {
        self.signature.verifies(self.transaction.digest(), self.transaction.spec_sender()@)
    }

    /// The canonical bytes of the signed transaction: the transaction,
    /// then the signature.
    pub open spec fn encoding(&self) -> Seq<u8> {
        self.transaction.encoding() + self.signature.encoding()
    }

    /// Two signed transactions whose canonical bytes start the same
    /// sequence are the same signed transaction.
    pub proof fn lemma_prefix_unique(a: SignedTransaction, b: SignedTransaction, bytes: Seq<u8>)
        requires
            is_prefix(a.encoding(), bytes),
            is_prefix(b.encoding(), bytes),
        ensures
            a == b,
    {
        lemma_prefix_split(a.transaction.encoding(), a.signature.encoding(), bytes);
        lemma_prefix_split(b.transaction.encoding(), b.signature.encoding(), bytes);
        Transaction::lemma_prefix_unique(a.transaction, b.transaction, bytes);
        Signature::lemma_prefix_unique(
            a.signature,
            b.signature,
            bytes.skip(a.transaction.encoding().len() as int),
        );
    }

    /// A signed transaction verifies exactly when its signature verifies
    /// over the digest of the transaction's signed bytes for the sender
    /// that the transaction names: nothing else of the value is looked at.
    pub proof fn lemma_valid_of_parts(self)
        ensures
            self.valid() == self.signature.verifies(
                keccak256_digest(self.transaction.signed_bytes()),
                self.transaction.spec_sender()@,
            ),
    {
    }

    /// Signed transactions with the same canonical bytes are the same:
    /// changing any field changes the bytes.
    pub proof fn lemma_encoding_injective(a: SignedTransaction, b: SignedTransaction)
        requires
            a.encoding() == b.encoding(),
        ensures
            a == b,
    {
        assert(a.encoding().subrange(0, a.encoding().len() as int) =~= a.encoding());
        SignedTransaction::lemma_prefix_unique(a, b, a.encoding());
    }

    /// Reads the signed transaction whose canonical bytes stand at `pos`,
    /// and says where it ends. There is none exactly when no signed
    /// transaction's canonical bytes stand at `pos`.
    pub fn read(bytes: &[u8], pos: usize) -> (value: Option<(SignedTransaction, usize)>)
        ensures
            value matches Some((tx, next)) ==> pos <= next <= bytes@.len() && bytes@.subrange(
                pos as int,
                next as int,
            ) == tx.encoding(),
            value is None ==> pos > bytes@.len() || forall|tx: SignedTransaction|
                !is_prefix(#[trigger] tx.encoding(), bytes@.skip(pos as int)),
    {
        let ghost rest = bytes@.skip(pos as int);
        let total = bytes.len();
        let (transaction, middle) = match Transaction::read(bytes, pos) {
            Some(read) => read,
            None => {
                proof {
                    if pos <= bytes@.len() {
                        assert forall|tx: SignedTransaction|
                            !is_prefix(#[trigger] tx.encoding(), rest) by {
                            if is_prefix(tx.encoding(), rest) {
                                lemma_prefix_split(
                                    tx.transaction.encoding(),
                                    tx.signature.encoding(),
                                    rest,
                                );
                            }
                        }
                    }
                }
                return None;
            },
        };
        proof {
            assert(rest.subrange(0, middle - pos) =~= bytes@.subrange(pos as int, middle as int));
        }
        match Signature::read(bytes, middle) {
            Some(signature) => {
                let tx = SignedTransaction { transaction, signature };
                assert(bytes@.subrange(pos as int, middle + 68) =~= tx.encoding());
                Some((tx, middle + 68))
            },
            None => {
                proof {
                    assert forall|tx: SignedTransaction|
                        !is_prefix(#[trigger] tx.encoding(), rest) by {
                        if is_prefix(tx.encoding(), rest) {
                            lemma_prefix_split(
                                tx.transaction.encoding(),
                                tx.signature.encoding(),
                                rest,
                            );
                            Transaction::lemma_prefix_unique(tx.transaction, transaction, rest);
                            tx.signature.lemma_encoding_len();
                        }
                    }
                }
                None
            },
        }
    }

    /// Decodes a signed transaction from its canonical bytes. There is none
    /// exactly when the bytes are no signed transaction's canonical bytes.
    pub fn decode(bytes: &[u8]) -> (value: Option<SignedTransaction>)
        ensures
            value matches Some(tx) ==> tx.encoding() == bytes@,
            value is None ==> forall|tx: SignedTransaction| #[trigger] tx.encoding() != bytes@,
            forall|tx: SignedTransaction| #[trigger] tx.encoding() == bytes@ ==> value == Some(tx),
    {
        let value = SignedTransaction::decode_inner(bytes);
        proof {
            assert forall|tx: SignedTransaction| #[trigger] tx.encoding() == bytes@ implies value
                == Some(tx) by {
                SignedTransaction::lemma_encoding_injective(value->0, tx);
            }
        }
        value
    }

    fn decode_inner(bytes: &[u8]) -> (value: Option<SignedTransaction>)
        ensures
            value matches Some(tx) ==> tx.encoding() == bytes@,
            value is None ==> forall|tx: SignedTransaction| #[trigger] tx.encoding() != bytes@,
    {
        proof {
            assert(bytes@.skip(0) =~= bytes@);
        }
        match SignedTransaction::read(bytes, 0) {
            Some((tx, next)) => {
                if next == bytes.len() {
                    assert(bytes@.subrange(0, next as int) =~= bytes@);
                    Some(tx)
                } else {
                    proof {
                        assert forall|other: SignedTransaction| #[trigger]
                            other.encoding() != bytes@ by {
                            if other.encoding() == bytes@ {
                                assert(bytes@.subrange(0, bytes@.len() as int) =~= bytes@);
                                SignedTransaction::lemma_prefix_unique(other, tx, bytes@);
                            }
                        }
                    }
                    None
                }
            },
            None => {
                proof {
                    assert forall|other: SignedTransaction| #[trigger]
                        other.encoding() != bytes@ by {
                        if other.encoding() == bytes@ {
                            assert(bytes@.subrange(0, bytes@.len() as int) =~= bytes@);
                        }
                    }
                }
                None
            },
        }
    }

    /// Appends the canonical bytes of the signed transaction to `out`.
    pub fn encode_into(&self, out: &mut Vec<u8>)
        ensures
            final(out)@ == old(out)@ + self.encoding(),
    {
        self.transaction.encode_into(out);
        self.signature.encode_into(out);
        assert(out@ =~= old(out)@ + self.encoding());
    }

    /// The canonical bytes of the signed transaction, as they are sent to
    /// peers.
    pub fn encode(&self) -> (bytes: Vec<u8>)
        ensures
            bytes@ == self.encoding(),
    {
        let mut out: Vec<u8> = Vec::new();
        self.encode_into(&mut out);
        assert(out@ =~= self.encoding());
        out
    }

    /// Signs the transaction's digest. The result verifies exactly when the
    /// signer is the transaction's sender.
    pub fn new(transaction: Transaction, signer: &Signer) -> (signed: SignedTransaction)
        ensures
            signed.transaction == transaction,
            signed.signature == signer.signature_of(transaction.digest()),
            signed.valid() <==> signer.address()@ == transaction.spec_sender()@,
    {
        let signature = signer.sign(transaction.hash());
        SignedTransaction { transaction, signature }
    }

    /// Verifies that the signature is valid and that it is the sender's.
    pub fn verify(&self) -> (ok: bool)
        ensures
            ok == self.valid(),
    {
        let digest = self.transaction.hash();
        let sender = self.transaction.sender();
        self.signature.verify(&digest, &sender)
    }
}

} // verus!
