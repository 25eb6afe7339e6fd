//! Blocks: the header, the signed header, and the block that carries the
//! sealed transactions.

use vstd::prelude::*;
use crate::address::Address;
use crate::codec::{
    is_prefix, lemma_le_bytes_len, lemma_option_digest_prefix_unique, lemma_prefix_split,
    lemma_prefixes_of_same_length, lemma_string_prefix_unique, lemma_u64_prefix_unique,
    option_digest_encoding, push_bytes, push_option_digest, push_string, push_u64, read_bytes20,
    lemma_pow256_values, lemma_value_of_le_bytes, read_option_digest, read_string, read_u64,
    string_encoding, u64_encoding,
};
use crate::crypto::{keccak256, keccak256_digest};
use crate::signer::{Signature, Signer};
use crate::transaction::SignedTransaction;

verus! {

/// What a block says of itself.
#[derive(Debug, PartialEq, Eq)]
pub struct BlockHeader {
    /// The address of the sequencer that sealed the block.
    pub sequencer: Address,
    /// The number of the block.
    pub number: u64,
    /// The time at which the block was sealed, in seconds since the epoch.
    pub timestamp: u64,
    /// The digest of the parent block; none for the first block.
    pub parent_digest: Option<[u8; 32]>,
    /// The root of the withdrawals tree, as text.
    pub withdrawals_root: String,
    /// The root of the transactions tree, as text.
    pub transactions_root: String,
}

/// A header and the sequencer's signature over its digest.
#[derive(Debug, PartialEq, Eq)]
pub struct SignedBlockHeader {
    /// What was signed.
    pub header: BlockHeader,
    /// The signature over the header's digest.
    pub signature: Signature,
}

/// A signed header and the transactions sealed under it.
#[derive(Debug, PartialEq, Eq)]
pub struct Block {
    /// The signed header.
    pub signed: SignedBlockHeader,
    /// The sealed transactions, in order.
    pub transactions: Vec<SignedTransaction>,
}

/// A block as a value: the signed header and the sequence of sealed
/// transactions.
pub struct BlockView {
    /// The signed header.
    pub signed: SignedBlockHeader,
    /// The sealed transactions, in order.
    pub transactions: Seq<SignedTransaction>,
}

impl View for Block {
    type V = BlockView;

    open spec fn view(&self) -> BlockView {
        BlockView { signed: self.signed, transactions: self.transactions@ }
    }
}

impl BlockView {
    /// The digest of a block is that of its header; the transactions are
    /// not part of it.
    pub open spec fn digest(&self) -> Seq<u8> {
        self.signed.header.digest()
    }

    /// The signed header is valid.
    pub open spec fn valid(&self) -> bool {
        self.signed.valid()
    }

    /// The header of the block.
    pub open spec fn header(&self) -> BlockHeader {
        self.signed.header
    }

    /// The canonical bytes of the block as a payload: the signed header,
    /// the number of transactions, and the transactions in order.
    pub open spec fn encoding(&self) -> Seq<u8> {
        self.signed.encoding() + u64_encoding(self.transactions.len() as u64)
            + transactions_encoding(self.transactions)
    }

    /// The roots and the number of transactions are small enough for
    /// their lengths to be written as a `u64`, as with every block held in
    /// memory.
    pub open spec fn fits(&self) -> bool {
        self.signed.header.fits() && self.transactions.len() <= u64::MAX
    }

    /// The two blocks agree on every field of the header, on the signature
    /// and on the transactions.
    pub open spec fn same_fields(&self, other: BlockView) -> bool {
        &&& self.signed.header.same_fields(other.signed.header)
        &&& self.signed.signature == other.signed.signature
        &&& self.transactions == other.transactions
    }

    /// Where the canonical bytes of a block start a sequence, the bytes of
    /// each part stand at the part's place.
    pub proof fn lemma_parts_of_prefix(self, bytes: Seq<u8>)
        requires
            is_prefix(self.encoding(), bytes),
        ensures
            is_prefix(self.signed.header.encoding(), bytes),
            is_prefix(
                self.signed.signature.encoding(),
                bytes.skip(self.signed.header.encoding().len() as int),
            ),
            is_prefix(
                u64_encoding(self.transactions.len() as u64),
                bytes.skip(self.signed.header.encoding().len() as int + 68),
            ),
            is_prefix(
                transactions_encoding(self.transactions),
                bytes.skip(self.signed.header.encoding().len() as int + 76),
            ),
            self.encoding().len() == self.signed.header.encoding().len() + 76
                + transactions_encoding(self.transactions).len(),
    {
        let h = self.signed.header.encoding();
        let g = self.signed.signature.encoding();
        let c = u64_encoding(self.transactions.len() as u64);
        let t = transactions_encoding(self.transactions);
        self.signed.signature.lemma_encoding_len();
        lemma_le_bytes_len(self.transactions.len() as u64 as nat, 8);
        lemma_prefix_split(h + g + c, t, bytes);
        lemma_prefix_split(h + g, c, bytes);
        lemma_prefix_split(h, g, bytes);
    }

    /// Whether a block verifies depends on its signed header alone: blocks
    /// with the same signed header verify alike, whatever transactions they
    /// hold.
    pub proof fn lemma_valid_of_signed_header(a: BlockView, b: BlockView)
        requires
            a.signed == b.signed,
        ensures
            a.valid() == b.valid(),
            a.digest() == b.digest(),
    {
    }

    /// Blocks with the same canonical bytes agree on every field: changing
    /// any field changes the bytes.
    pub proof fn lemma_encoding_injective(a: BlockView, b: BlockView)
        requires
            a.fits(),
            b.fits(),
            a.encoding() == b.encoding(),
        ensures
            a.same_fields(b),
    {
        let bytes = a.encoding();
        assert(bytes.subrange(0, bytes.len() as int) =~= bytes);
        a.lemma_parts_of_prefix(bytes);
        b.lemma_parts_of_prefix(bytes);
        BlockHeader::lemma_prefix_unique(a.signed.header, b.signed.header, bytes);
        let after_header = a.signed.header.encoding().len() as int;
        Signature::lemma_prefix_unique(
            a.signed.signature,
            b.signed.signature,
            bytes.skip(after_header),
        );
        lemma_u64_prefix_unique(
            a.transactions.len() as u64,
            b.transactions.len() as u64,
            bytes.skip(after_header + 68),
        );
        lemma_transactions_prefix_unique(
            a.transactions,
            b.transactions,
            bytes.skip(after_header + 76),
        );
        assert(b.transactions.take(a.transactions.len() as int) =~= b.transactions);
    }
}

/// The canonical bytes of the transactions, one after another.
pub open spec fn transactions_encoding(txs: Seq<SignedTransaction>) -> Seq<u8>
    decreases txs.len(),
{
    if txs.len() == 0 {
        Seq::empty()
    } else {
        transactions_encoding(txs.drop_last()) + txs.last().encoding()
    }
}

/// The canonical bytes of transactions followed by one more are the bytes
/// of the former followed by the bytes of the latter.
pub proof fn lemma_transactions_encoding_push(txs: Seq<SignedTransaction>, tx: SignedTransaction)
    ensures
        transactions_encoding(txs.push(tx)) == transactions_encoding(txs) + tx.encoding(),
{
    assert(txs.push(tx).drop_last() =~= txs);
}

/// Where the canonical bytes of transactions start a sequence, so do the
/// bytes of the first `k` of them.
pub proof fn lemma_transactions_take_prefix(txs: Seq<SignedTransaction>, k: int, bytes: Seq<u8>)
    requires
        0 <= k <= txs.len(),
        is_prefix(transactions_encoding(txs), bytes),
    ensures
        is_prefix(transactions_encoding(txs.take(k)), bytes),
    decreases txs.len(),
{
    if k == txs.len() {
        assert(txs.take(k) =~= txs);
    } else {
        lemma_prefix_split(transactions_encoding(txs.drop_last()), txs.last().encoding(), bytes);
        lemma_transactions_take_prefix(txs.drop_last(), k, bytes);
        assert(txs.drop_last().take(k) =~= txs.take(k));
    }
}

/// Where the canonical bytes of two sequences of transactions start the
/// same sequence, the shorter one is the beginning of the longer one, and
/// the bytes of the longer one's next transaction follow the bytes of the
/// shorter one.
pub proof fn lemma_transactions_prefix_unique(
    a: Seq<SignedTransaction>,
    b: Seq<SignedTransaction>,
    bytes: Seq<u8>,
)
    requires
        a.len() <= b.len(),
        is_prefix(transactions_encoding(a), bytes),
        is_prefix(transactions_encoding(b), bytes),
    ensures
        a == b.take(a.len() as int),
        a.len() < b.len() ==> is_prefix(
            b[a.len() as int].encoding(),
            bytes.skip(transactions_encoding(a).len() as int),
        ),
    decreases a.len(),
{
    let k = a.len() as int;
    if k > 0 {
        let shorter = a.drop_last();
        lemma_prefix_split(transactions_encoding(shorter), a.last().encoding(), bytes);
        lemma_transactions_prefix_unique(shorter, b, bytes);
        SignedTransaction::lemma_prefix_unique(
            a.last(),
            b[k - 1],
            bytes.skip(transactions_encoding(shorter).len() as int),
        );
        assert(a =~= b.take(k));
    } else {
        assert(a =~= b.take(k));
    }
    if k < b.len() {
        lemma_transactions_take_prefix(b, k + 1, bytes);
        assert(b.take(k + 1).drop_last() =~= b.take(k));
        assert(b.take(k + 1).last() == b[k]);
        lemma_prefix_split(transactions_encoding(b.take(k)), b[k].encoding(), bytes);
    }
}

impl BlockHeader {
    /// The fields in declaration order: sequencer, number, timestamp,
    /// parent digest, withdrawals root, transactions root.
    pub open spec fn encoding(&self) -> Seq<u8> {
        self.sequencer@ + u64_encoding(self.number) + u64_encoding(self.timestamp)
            + option_digest_encoding(self.parent_digest) + string_encoding(self.withdrawals_root@)
            + string_encoding(self.transactions_root@)
    }

    /// The Keccak-256 digest of the canonical bytes.
    pub open spec fn digest(&self) -> Seq<u8> {
        keccak256_digest(self.encoding())
    }

    /// The canonical bytes of the header.
    pub fn encode(&self) -> (bytes: Vec<u8>)
        ensures
            bytes@ == self.encoding(),
    {
        let mut out: Vec<u8> = Vec::new();
        self.encode_into(&mut out);
        assert(out@ =~= self.encoding());
        out
    }

    /// Both roots are short enough for their length to be written as a
    /// `u64`, as every text held in memory is.
    pub open spec fn fits(&self) -> bool {
        &&& vstd::utf8::encode_utf8(self.withdrawals_root@).len() <= u64::MAX
        &&& vstd::utf8::encode_utf8(self.transactions_root@).len() <= u64::MAX
    }

    /// The two headers agree on every field.
    pub open spec fn same_fields(&self, other: BlockHeader) -> bool {
        &&& self.sequencer == other.sequencer
        &&& self.number == other.number
        &&& self.timestamp == other.timestamp
        &&& self.parent_digest == other.parent_digest
        &&& self.withdrawals_root@ == other.withdrawals_root@
        &&& self.transactions_root@ == other.transactions_root@
    }

    /// The number of bytes before the withdrawals root.
    pub open spec fn roots_offset(&self) -> int {
        36 + option_digest_encoding(self.parent_digest).len() as int
    }

    /// Where the canonical bytes of a header start a sequence, the bytes of
    /// each field stand at the field's place.
    pub proof fn lemma_fields_of_prefix(self, bytes: Seq<u8>)
        requires
            is_prefix(self.encoding(), bytes),
        ensures
            is_prefix(self.sequencer@, bytes),
            is_prefix(u64_encoding(self.number), bytes.skip(20)),
            is_prefix(u64_encoding(self.timestamp), bytes.skip(28)),
            is_prefix(option_digest_encoding(self.parent_digest), bytes.skip(36)),
            is_prefix(string_encoding(self.withdrawals_root@), bytes.skip(self.roots_offset())),
            is_prefix(
                string_encoding(self.transactions_root@),
                bytes.skip(self.roots_offset() + string_encoding(self.withdrawals_root@).len()),
            ),
            self.encoding().len() == self.roots_offset() + string_encoding(
                self.withdrawals_root@,
            ).len() + string_encoding(self.transactions_root@).len(),
    {
        let s = self.sequencer@;
        let n = u64_encoding(self.number);
        let t = u64_encoding(self.timestamp);
        let p = option_digest_encoding(self.parent_digest);
        let w = string_encoding(self.withdrawals_root@);
        let r = string_encoding(self.transactions_root@);
        lemma_le_bytes_len(self.number as nat, 8);
        lemma_le_bytes_len(self.timestamp as nat, 8);
        lemma_prefix_split(s + n + t + p + w, r, bytes);
        lemma_prefix_split(s + n + t + p, w, bytes);
        lemma_prefix_split(s + n + t, p, bytes);
        lemma_prefix_split(s + n, t, bytes);
        lemma_prefix_split(s, n, bytes);
    }

    /// Two headers whose canonical bytes start the same sequence agree on
    /// every field.
    pub proof fn lemma_prefix_unique(a: BlockHeader, b: BlockHeader, bytes: Seq<u8>)
        requires
            a.fits(),
            b.fits(),
            is_prefix(a.encoding(), bytes),
            is_prefix(b.encoding(), bytes),
        ensures
            a.same_fields(b),
            a.encoding() == b.encoding(),
    {
        a.lemma_fields_of_prefix(bytes);
        b.lemma_fields_of_prefix(bytes);
        lemma_prefixes_of_same_length(a.sequencer@, b.sequencer@, bytes);
        Address::lemma_view_injective(a.sequencer, b.sequencer);
        lemma_u64_prefix_unique(a.number, b.number, bytes.skip(20));
        lemma_u64_prefix_unique(a.timestamp, b.timestamp, bytes.skip(28));
        lemma_option_digest_prefix_unique(a.parent_digest, b.parent_digest, bytes.skip(36));
        lemma_string_prefix_unique(
            a.withdrawals_root@,
            b.withdrawals_root@,
            bytes.skip(a.roots_offset()),
        );
        lemma_string_prefix_unique(
            a.transactions_root@,
            b.transactions_root@,
            bytes.skip(a.roots_offset() + string_encoding(a.withdrawals_root@).len()),
        );
    }

    /// Headers with the same canonical bytes agree on every field: changing
    /// any field changes the bytes that are hashed and signed.
    pub proof fn lemma_encoding_injective(a: BlockHeader, b: BlockHeader)
        requires
            a.fits(),
            b.fits(),
            a.encoding() == b.encoding(),
        ensures
            a.same_fields(b),
    {
        assert(a.encoding().subrange(0, a.encoding().len() as int) =~= a.encoding());
        BlockHeader::lemma_prefix_unique(a, b, a.encoding());
    }

    /// Reads the header whose canonical bytes stand at `pos`, and says
    /// where it ends. There is none exactly when no header's canonical
    /// bytes stand at `pos`.
    pub fn read(bytes: &[u8], pos: usize) -> (value: Option<(BlockHeader, usize)>)
        ensures
            value matches Some((header, next)) ==> pos <= next <= bytes@.len() && bytes@.subrange(
                pos as int,
                next as int,
            ) == header.encoding() && header.fits(),
            value is None ==> pos > bytes@.len() || forall|header: BlockHeader|
                header.fits() ==> !is_prefix(#[trigger] header.encoding(), bytes@.skip(pos as int)),
    {
        let ghost rest = bytes@.skip(pos as int);
        let total = bytes.len();
        if pos > total || total - pos < 36 {
            proof {
                if pos <= total {
                    assert forall|header: BlockHeader| header.fits() implies !is_prefix(
                        #[trigger] header.encoding(),
                        rest,
                    ) by {
                        if is_prefix(header.encoding(), rest) {
                            header.lemma_fields_of_prefix(rest);
                        }
                    }
                }
            }
            return None;
        }
        let sequencer = read_bytes20(bytes, pos);
        let number = read_u64(bytes, pos + 20);
        let timestamp = read_u64(bytes, pos + 28);
        let (sequencer, number, timestamp) = match (sequencer, number, timestamp) {
            (Some(sequencer), Some(number), Some(timestamp)) => (sequencer, number, timestamp),
            _ => {
                return None;
            },
        };
        proof {
            assert(rest.skip(36) =~= bytes@.skip(pos + 36));
        }
        let (parent_digest, roots) = match read_option_digest(bytes, pos + 36) {
            Some(read) => read,
            None => {
                proof {
                    assert forall|header: BlockHeader| header.fits() implies !is_prefix(
                        #[trigger] header.encoding(),
                        rest,
                    ) by {
                        if is_prefix(header.encoding(), rest) {
                            header.lemma_fields_of_prefix(rest);
                        }
                    }
                }
                return None;
            },
        };
        let ghost parent_bytes = option_digest_encoding(parent_digest);
        proof {
            assert(rest.skip(36).subrange(0, roots - pos - 36) =~= bytes@.subrange(
                pos + 36,
                roots as int,
            ));
            assert(rest.skip(roots - pos) =~= bytes@.skip(roots as int));
        }
        let (withdrawals_root, middle) = match read_string(bytes, roots) {
            Some(read) => read,
            None => {
                proof {
                    assert forall|header: BlockHeader| header.fits() implies !is_prefix(
                        #[trigger] header.encoding(),
                        rest,
                    ) by {
                        if is_prefix(header.encoding(), rest) {
                            header.lemma_fields_of_prefix(rest);
                            lemma_option_digest_prefix_unique(
                                header.parent_digest,
                                parent_digest,
                                rest.skip(36),
                            );
                        }
                    }
                }
                return None;
            },
        };
        let ghost withdrawals_bytes = string_encoding(withdrawals_root@);
        proof {
            assert(rest.skip(roots - pos).subrange(0, middle - roots) =~= bytes@.subrange(
                roots as int,
                middle as int,
            ));
            assert(rest.skip(middle - pos) =~= bytes@.skip(middle as int));
        }
        let (transactions_root, next) = match read_string(bytes, middle) {
            Some(read) => read,
            None => {
                proof {
                    assert forall|header: BlockHeader| header.fits() implies !is_prefix(
                        #[trigger] header.encoding(),
                        rest,
                    ) by {
                        if is_prefix(header.encoding(), rest) {
                            header.lemma_fields_of_prefix(rest);
                            lemma_option_digest_prefix_unique(
                                header.parent_digest,
                                parent_digest,
                                rest.skip(36),
                            );
                            lemma_string_prefix_unique(
                                header.withdrawals_root@,
                                withdrawals_root@,
                                rest.skip(roots - pos),
                            );
                        }
                    }
                }
                return None;
            },
        };
        let header = BlockHeader {
            sequencer: Address(sequencer),
            number,
            timestamp,
            parent_digest,
            withdrawals_root,
            transactions_root,
        };
        proof {
            assert(bytes@.subrange(pos as int, next as int) =~= bytes@.subrange(
                pos as int,
                pos + 20,
            ) + bytes@.subrange(pos + 20, pos + 28) + bytes@.subrange(pos + 28, pos + 36)
                + bytes@.subrange(pos + 36, roots as int) + bytes@.subrange(
                roots as int,
                middle as int,
            ) + bytes@.subrange(middle as int, next as int));
        }
        Some((header, next))
    }

    /// Appends the canonical bytes of the header to `out`.
    pub fn encode_into(&self, out: &mut Vec<u8>)
        ensures
            final(out)@ == old(out)@ + self.encoding(),
    {
        push_bytes(out, self.sequencer.0.as_slice());
        push_u64(out, self.number);
        push_u64(out, self.timestamp);
        push_option_digest(out, &self.parent_digest);
        push_string(out, self.withdrawals_root.as_str());
        push_string(out, self.transactions_root.as_str());
        assert(out@ =~= old(out)@ + self.encoding());
    }

    /// Computes the digest of the header.
    pub fn hash(&self) -> (digest: [u8; 32])
        ensures
            digest@ == self.digest(),
    {
        let bytes = self.encode();
        keccak256(bytes.as_slice())
    }

    /// The digest is a function of the fields alone: headers that agree on
    /// every field have the same canonical bytes and the same digest.
    pub proof fn lemma_digest_of_fields(a: BlockHeader, b: BlockHeader)
        requires
            a.sequencer@ == b.sequencer@,
            a.number == b.number,
            a.timestamp == b.timestamp,
            a.parent_digest == b.parent_digest,
            a.withdrawals_root@ == b.withdrawals_root@,
            a.transactions_root@ == b.transactions_root@,
        ensures
            a.encoding() == b.encoding(),
            a.digest() == b.digest(),
    {
    }
}

impl Clone for BlockHeader {
    fn clone(&self) -> (copy: Self)
        ensures
            copy == *self,
    {
        BlockHeader {
            sequencer: self.sequencer,
            number: self.number,
            timestamp: self.timestamp,
            parent_digest: self.parent_digest,
            withdrawals_root: self.withdrawals_root.clone(),
            transactions_root: self.transactions_root.clone(),
        }
    }
}

impl SignedBlockHeader {
    /// The signature recovers, over the header's digest, to a key that it
    /// verifies against and whose address is the header's sequencer.
    pub open spec fn valid(&self) -> bool {
        self.signature.verifies(self.header.digest(), self.header.sequencer@)
    }

    /// The canonical bytes of the signed header: the header, then the
    /// signature.
    pub open spec fn encoding(&self) -> Seq<u8> {
        self.header.encoding() + self.signature.encoding()
    }

    /// Signs the header's digest. The result verifies exactly when the
    /// signer is the sequencer that the header names.
    pub fn new(header: BlockHeader, signer: &Signer) -> (signed: SignedBlockHeader)
        ensures
            signed.header == header,
            signed.signature == signer.signature_of(header.digest()),
            signed.valid() <==> signer.address()@ == header.sequencer@,
    {
        let signature = signer.sign(header.hash());
        SignedBlockHeader { header, signature }
    }
}

impl Clone for SignedBlockHeader {
    fn clone(&self) -> (copy: Self)
        ensures
            copy == *self,
    {
        SignedBlockHeader { header: self.header.clone(), signature: self.signature }
    }
}

impl Block {
    /// The digest of a block is that of its header; the transactions are
    /// not part of it.
    pub open spec fn digest(&self) -> Seq<u8> {
        self@.digest()
    }

    /// The signed header is valid.
    pub open spec fn valid(&self) -> bool {
        self@.valid()
    }

    /// Creates a new block with the given header and transactions.
    pub fn new(header: SignedBlockHeader, transactions: Vec<SignedTransaction>) -> (block: Block)
        ensures
            block@ == (BlockView { signed: header, transactions: transactions@ }),
    {
        Block { signed: header, transactions }
    }

    /// Computes the digest of the block.
    pub fn hash(&self) -> (digest: [u8; 32])
        ensures
            digest@ == self.digest(),
    {
        self.signed.header.hash()
    }

    /// Decodes a block from its canonical bytes. There is none exactly
    /// when the bytes are no block's canonical bytes.
    pub fn decode(bytes: &[u8]) -> (value: Option<Block>)
        ensures
            value matches Some(block) ==> block@.encoding() == bytes@ && block@.fits(),
            value is None ==> forall|block: BlockView|
                block.fits() ==> #[trigger] block.encoding() != bytes@,
            forall|block: BlockView|
                block.fits() && #[trigger] block.encoding() == bytes@ ==> value is Some
                    && value->0@.same_fields(block),
    {
        let value = Block::decode_inner(bytes);
        proof {
            assert forall|block: BlockView|
                block.fits() && #[trigger] block.encoding() == bytes@ implies value is Some
                && value->0@.same_fields(block) by {
                BlockView::lemma_encoding_injective(value->0@, block);
            }
        }
        value
    }

    fn decode_inner(bytes: &[u8]) -> (value: Option<Block>)
        ensures
            value matches Some(block) ==> block@.encoding() == bytes@ && block@.fits(),
            value is None ==> forall|block: BlockView|
                block.fits() ==> #[trigger] block.encoding() != bytes@,
    {
        let total = bytes.len();
        proof {
            assert(bytes@.skip(0) =~= bytes@);
            assert(bytes@.subrange(0, total as int) =~= bytes@);
        }
        let (header, after_header) = match BlockHeader::read(bytes, 0) {
            Some(read) => read,
            None => {
                proof {
                    assert forall|block: BlockView| block.fits() implies #[trigger]
                        block.encoding() != bytes@ by {
                        if block.encoding() == bytes@ {
                            block.lemma_parts_of_prefix(bytes@);
                        }
                    }
                }
                return None;
            },
        };
        let signature = match Signature::read(bytes, after_header) {
            Some(read) => read,
            None => {
                proof {
                    assert forall|block: BlockView| block.fits() implies #[trigger]
                        block.encoding() != bytes@ by {
                        if block.encoding() == bytes@ {
                            block.lemma_parts_of_prefix(bytes@);
                            BlockHeader::lemma_prefix_unique(block.signed.header, header, bytes@);
                            block.signed.signature.lemma_encoding_len();
                        }
                    }
                }
                return None;
            },
        };
        let after_signature = after_header + 68;
        let count = match read_u64(bytes, after_signature) {
            Some(read) => read,
            None => {
                proof {
                    assert forall|block: BlockView| block.fits() implies #[trigger]
                        block.encoding() != bytes@ by {
                        if block.encoding() == bytes@ {
                            block.lemma_parts_of_prefix(bytes@);
                            BlockHeader::lemma_prefix_unique(block.signed.header, header, bytes@);
                            lemma_le_bytes_len(block.transactions.len() as u64 as nat, 8);
                        }
                    }
                }
                return None;
            },
        };
        let start = after_signature + 8;
        let ghost tail = bytes@.skip(start as int);
        proof {
            lemma_le_bytes_len(count as nat, 8);
            assert(bytes@.skip(after_signature as int).subrange(0, 8) =~= bytes@.subrange(
                after_signature as int,
                start as int,
            ));
        }
        let mut transactions: Vec<SignedTransaction> = Vec::new();
        let mut pos: usize = start;
        let mut i: u64 = 0;
        proof {
            assert(bytes@.subrange(start as int, start as int) =~= transactions_encoding(
                transactions@,
            ));
        }
        while i < count
            invariant
                total == bytes@.len(),
                start <= pos <= total,
                after_header + 76 == start,
                tail == bytes@.skip(start as int),
                i <= count,
                transactions@.len() == i,
                bytes@.subrange(start as int, pos as int) == transactions_encoding(transactions@),
                bytes@.subrange(0, after_header as int) == header.encoding(),
                header.fits(),
                is_prefix(u64_encoding(count), bytes@.skip(after_header + 68)),
            decreases count - i,
        {
            proof {
                assert(tail.subrange(0, pos - start) =~= bytes@.subrange(start as int, pos as int));
                assert(tail.skip(pos - start) =~= bytes@.skip(pos as int));
            }
            match SignedTransaction::read(bytes, pos) {
                Some((tx, next)) => {
                    proof {
                        lemma_transactions_encoding_push(transactions@, tx);
                        assert(bytes@.subrange(start as int, next as int) =~= bytes@.subrange(
                            start as int,
                            pos as int,
                        ) + bytes@.subrange(pos as int, next as int));
                    }
                    transactions.push(tx);
                    pos = next;
                    i = i + 1;
                },
                None => {
                    proof {
                        assert forall|block: BlockView| block.fits() implies #[trigger]
                            block.encoding() != bytes@ by {
                            if block.encoding() == bytes@ {
                                assert(bytes@.subrange(0, total as int) =~= bytes@);
                                block.lemma_parts_of_prefix(bytes@);
                                BlockHeader::lemma_prefix_unique(
                                    block.signed.header,
                                    header,
                                    bytes@,
                                );
                                lemma_u64_prefix_unique(
                                    block.transactions.len() as u64,
                                    count,
                                    bytes@.skip(after_header + 68),
                                );
                                lemma_transactions_prefix_unique(
                                    transactions@,
                                    block.transactions,
                                    tail,
                                );
                            }
                        }
                    }
                    return None;
                },
            }
        }
        if pos != total {
            proof {
                assert(tail.subrange(0, pos - start) =~= bytes@.subrange(start as int, pos as int));
                assert forall|block: BlockView| block.fits() implies #[trigger] block.encoding()
                    != bytes@ by {
                    if block.encoding() == bytes@ {
                        block.lemma_parts_of_prefix(bytes@);
                        BlockHeader::lemma_prefix_unique(block.signed.header, header, bytes@);
                        lemma_u64_prefix_unique(
                            block.transactions.len() as u64,
                            count,
                            bytes@.skip(after_header + 68),
                        );
                        lemma_transactions_prefix_unique(transactions@, block.transactions, tail);
                        assert(block.transactions.take(transactions@.len() as int)
                            =~= block.transactions);
                    }
                }
            }
            return None;
        }
        let block = Block { signed: SignedBlockHeader { header, signature }, transactions };
        proof {
            assert(bytes@ =~= bytes@.subrange(0, after_header as int) + bytes@.subrange(
                after_header as int,
                after_signature as int,
            ) + bytes@.subrange(after_signature as int, start as int) + bytes@.subrange(
                start as int,
                pos as int,
            ));
            lemma_pow256_values();
            lemma_value_of_le_bytes(count as nat, 8);
        }
        Some(block)
    }

    /// The canonical bytes of the block, as they are sent to peers.
    pub fn encode(&self) -> (bytes: Vec<u8>)
        ensures
            bytes@ == self@.encoding(),
    {
        let mut out: Vec<u8> = Vec::new();
        self.signed.header.encode_into(&mut out);
        self.signed.signature.encode_into(&mut out);
        push_u64(&mut out, self.transactions.len() as u64);
        let ghost prefix = out@;
        let mut i: usize = 0;
        while i < self.transactions.len()
            invariant
                i <= self.transactions@.len(),
                out@ == prefix + transactions_encoding(self.transactions@.subrange(0, i as int)),
            decreases self.transactions@.len() - i,
        {
            self.transactions[i].encode_into(&mut out);
            proof {
                let longer = self.transactions@.subrange(0, i + 1);
                assert(longer.drop_last() =~= self.transactions@.subrange(0, i as int));
                assert(longer.last() == self.transactions@[i as int]);
                assert(out@ =~= prefix + transactions_encoding(longer));
            }
            i = i + 1;
        }
        proof {
            assert(self.transactions@.subrange(0, self.transactions@.len() as int)
                =~= self.transactions@);
            assert(out@ =~= self@.encoding());
        }
        out
    }

    /// Verifies that the signature is valid and that it is the
    /// sequencer's.
    pub fn verify(&self) -> (ok: bool)
        ensures
            ok == self.valid(),
    {
        let digest = self.hash();
        self.signed.signature.verify(&digest, &self.signed.header.sequencer)
    }

    /// Returns the number of the block.
    pub fn number(&self) -> (number: u64)
        ensures
            number == self.signed.header.number,
    {
        self.signed.header.number
    }

    /// The digest of each transaction of the block, in order.
    pub fn transaction_digests(&self) -> (digests: Vec<[u8; 32]>)
        ensures
            digests@.len() == self.transactions@.len(),
            forall|i: int|
                0 <= i < digests@.len() ==> (#[trigger] digests@[i])@
                    == self.transactions@[i].transaction.digest(),
    {
        let mut digests: Vec<[u8; 32]> = Vec::new();
        let mut i: usize = 0;
        while i < self.transactions.len()
            invariant
                i <= self.transactions@.len(),
                digests@.len() == i,
                forall|j: int|
                    0 <= j < i ==> (#[trigger] digests@[j])@
                        == self.transactions@[j].transaction.digest(),
            decreases self.transactions@.len() - i,
        {
            digests.push(self.transactions[i].transaction.hash());
            i = i + 1;
        }
        digests
    }
}

impl Clone for Block {
    fn clone(&self) -> (copy: Self)
        ensures
            copy@ == self@,
    {
        let mut transactions: Vec<SignedTransaction> = Vec::new();
        let mut i: usize = 0;
        while i < self.transactions.len()
            invariant
                i <= self.transactions@.len(),
                transactions@ == self.transactions@.subrange(0, i as int),
            decreases self.transactions@.len() - i,
        {
            transactions.push(self.transactions[i]);
            assert(self.transactions@.subrange(0, i + 1) =~= self.transactions@.subrange(
                0,
                i as int,
            ).push(self.transactions@[i as int]));
            i = i + 1;
        }
        assert(transactions@ =~= self.transactions@);
        Block { signed: self.signed.clone(), transactions }
    }
}

} // verus!
