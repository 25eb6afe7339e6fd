//! The ledger: the sealed blocks in order, and the leaves of the two
//! append-only trees in the order in which they were admitted.

use vstd::prelude::*;
use crate::block::{Block, BlockView};
use crate::transaction::{DynamicTxData, WithdrawalTxData};

verus! {

/// The chain of blocks and the leaf sequences of the withdrawals tree and
/// the transactions tree.
pub struct Blockchain {
    blocks: Vec<Block>,
    withdrawal_leaves: Vec<[u8; 32]>,
    transaction_leaves: Vec<[u8; 32]>,
}

/// A ledger as a value.
pub struct ChainView {
    /// The sealed blocks, oldest first.
    pub blocks: Seq<BlockView>,
    /// The leaves of the withdrawals tree, oldest first.
    pub withdrawal_leaves: Seq<Seq<u8>>,
    /// The leaves of the transactions tree, oldest first.
    pub transaction_leaves: Seq<Seq<u8>>,
}

/// The blocks of a vector as values.
pub open spec fn block_views(blocks: Seq<Block>) -> Seq<BlockView> {
    blocks.map_values(|block: Block| block@)
}

/// The digests of a vector as byte sequences.
pub open spec fn leaf_views(leaves: Seq<[u8; 32]>) -> Seq<Seq<u8>> {
    leaves.map_values(|leaf: [u8; 32]| leaf@)
}

impl View for Blockchain {
    type V = ChainView;

    closed spec fn view(&self) -> ChainView {
        ChainView {
            blocks: block_views(self.blocks@),
            withdrawal_leaves: leaf_views(self.withdrawal_leaves@),
            transaction_leaves: leaf_views(self.transaction_leaves@),
        }
    }
}

impl ChainView {
    /// The ledger without blocks or leaves.
    pub open spec fn empty() -> ChainView {
        ChainView {
            blocks: Seq::empty(),
            withdrawal_leaves: Seq::empty(),
            transaction_leaves: Seq::empty(),
        }
    }

    /// The last block, if there is one.
    pub open spec fn head(&self) -> Option<BlockView> {
        if self.blocks.len() == 0 {
            None
        } else {
            Some(self.blocks.last())
        }
    }
}

impl Default for Blockchain {
    fn default() -> (chain: Blockchain)
        ensures
            chain@ == ChainView::empty(),
    {
        let chain = Blockchain {
            blocks: Vec::new(),
            withdrawal_leaves: Vec::new(),
            transaction_leaves: Vec::new(),
        };
        assert(chain@.blocks =~= Seq::empty());
        assert(chain@.withdrawal_leaves =~= Seq::empty());
        assert(chain@.transaction_leaves =~= Seq::empty());
        chain
    }
}

impl Blockchain {
    /// Returns the head block of the blockchain: the last one, or none.
    pub fn head(&self) -> (head: Option<&Block>)
        ensures
            head is Some <==> self@.blocks.len() > 0,
            head matches Some(block) ==> block@ == self@.blocks.last(),
    {
        let n = self.blocks.len();
        if n == 0 {
            None
        } else {
            Some(&self.blocks[n - 1])
        }
    }

    /// Returns the height of the blockchain: the number of blocks.
    pub fn height(&self) -> (height: u64)
        ensures
            height == self@.blocks.len(),
    {
        self.blocks.len() as u64
    }

    /// The block with the given number, if it has been sealed.
    pub fn block(&self, number: u64) -> (block: Option<&Block>)
        ensures
            block is Some <==> number < self@.blocks.len(),
            block matches Some(b) ==> b@ == self@.blocks[number as int],
    {
        if number < self.blocks.len() as u64 {
            Some(&self.blocks[number as usize])
        } else {
            None
        }
    }

    /// The leaves of the withdrawals tree, oldest first.
    pub fn withdrawal_leaves(&self) -> (leaves: &Vec<[u8; 32]>)
        ensures
            leaf_views(leaves@) == self@.withdrawal_leaves,
    {
        &self.withdrawal_leaves
    }

    /// The leaves of the transactions tree, oldest first.
    pub fn transaction_leaves(&self) -> (leaves: &Vec<[u8; 32]>)
        ensures
            leaf_views(leaves@) == self@.transaction_leaves,
    {
        &self.transaction_leaves
    }

    /// Pushes a block onto the blockchain. Nothing about the block is
    /// checked.
    pub fn push(&mut self, block: Block)
        ensures
            final(self)@ == (ChainView { blocks: old(self)@.blocks.push(block@), ..old(self)@ }),
    {
        self.blocks.push(block);
        assert(block_views(self.blocks@) =~= block_views(old(self).blocks@).push(block@));
    }

    /// Appends the digest of a withdrawal to the leaves of the withdrawals
    /// tree, and returns it.
    pub fn withdraw(&mut self, tx: &WithdrawalTxData) -> (leaf: [u8; 32])
        ensures
            leaf@ == tx.digest(),
            final(self)@ == (ChainView {
                withdrawal_leaves: old(self)@.withdrawal_leaves.push(tx.digest()),
                ..old(self)@
            }),
    {
        let leaf = tx.hash();
        self.withdrawal_leaves.push(leaf);
        assert(leaf_views(self.withdrawal_leaves@) =~= leaf_views(
            old(self).withdrawal_leaves@,
        ).push(leaf@));
        leaf
    }

    /// Appends the digest of a dynamic transaction to the leaves of the
    /// transactions tree, and returns it.
    pub fn transact(&mut self, tx: &DynamicTxData) -> (leaf: [u8; 32])
        ensures
            leaf@ == tx.digest(),
            final(self)@ == (ChainView {
                transaction_leaves: old(self)@.transaction_leaves.push(tx.digest()),
                ..old(self)@
            }),
    {
        let leaf = tx.hash();
        self.transaction_leaves.push(leaf);
        assert(leaf_views(self.transaction_leaves@) =~= leaf_views(
            old(self).transaction_leaves@,
        ).push(leaf@));
        leaf
    }
}

} // verus!
