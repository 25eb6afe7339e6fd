//! The sequencer: admits signed transactions into two pools and seals them
//! into blocks that chain to their predecessor.

use vstd::prelude::*;
use crate::address::Address;
use crate::block::{Block, BlockHeader, BlockView, SignedBlockHeader};
use crate::blockchain::{Blockchain, ChainView};
use crate::clock::unix_seconds;
use crate::signer::Signer;
use crate::transaction::{SignedTransaction, Transaction};

verus! {

/// Permissioned entity that maintains the canonical chain: it receives
/// transactions directly and seals them into blocks.
pub struct Sequencer {
    signer: Signer,
    blockchain: Blockchain,
    dynamic_pool: Vec<SignedTransaction>,
    withdrawal_pool: Vec<SignedTransaction>,
}

/// A sequencer as a value.
pub struct SequencerView {
    /// The signer that signs the blocks.
    pub signer: Signer,
    /// The ledger.
    pub chain: ChainView,
    /// The admitted dynamic transactions that are not sealed yet.
    pub dynamic_pool: Seq<SignedTransaction>,
    /// The admitted withdrawals that are not sealed yet.
    pub withdrawal_pool: Seq<SignedTransaction>,
}

/// What admitting a transaction appended, and to which tree.
#[derive(Clone, Copy, Debug, PartialEq, Eq)]
pub enum Admission {
    /// A leaf of the transactions tree.
    Dynamic([u8; 32]),
    /// A leaf of the withdrawals tree.
    Withdrawal([u8; 32]),
}

/// `child` names the digest of `parent` as its parent digest.
pub open spec fn links_to(child: BlockView, parent: BlockView) -> bool {
    child.header().parent_digest matches Some(digest) && digest@ == parent.digest()
}

/// Every block has its index as number; the first has no parent and every
/// other names the digest of the block before it.
pub open spec fn chain_linked(blocks: Seq<BlockView>) -> bool {
    &&& forall|i: int| 0 <= i < blocks.len() ==> (#[trigger] blocks[i]).header().number == i
    &&& blocks.len() > 0 ==> blocks[0].header().parent_digest is None
    &&& forall|i: int, j: int|
        0 <= i && j == i + 1 && j < blocks.len() ==> #[trigger] links_to(blocks[j], blocks[i])
}

/// Every block names `address` as its sequencer and carries a signature
/// that verifies for it.
pub open spec fn sealed_by(blocks: Seq<BlockView>, address: Address) -> bool {
    forall|i: int|
        0 <= i < blocks.len() ==> (#[trigger] blocks[i]).header().sequencer == address
            && blocks[i].valid()
}

/// No withdrawal stands before a dynamic transaction.
pub open spec fn dynamic_first(txs: Seq<SignedTransaction>) -> bool {
    forall|i: int, j: int|
        0 <= i < j < txs.len() && (#[trigger] txs[j]).transaction is Dynamic ==> (
        #[trigger] txs[i]).transaction is Dynamic
}

/// Every transaction is of the kind asked for.
pub open spec fn all_of_kind(txs: Seq<SignedTransaction>, withdrawals: bool) -> bool {
    forall|i: int|
        0 <= i < txs.len() ==> ((#[trigger] txs[i]).transaction is Withdrawal) == withdrawals
}

/// The transactions of all blocks, in block order.
pub open spec fn sealed_transactions(blocks: Seq<BlockView>) -> Seq<SignedTransaction>
    decreases blocks.len(),
{
    if blocks.len() == 0 {
        Seq::empty()
    } else {
        sealed_transactions(blocks.drop_last()) + blocks.last().transactions
    }
}

/// The digests of the transactions of one kind, in order.
pub open spec fn digests_of_kind(txs: Seq<SignedTransaction>, withdrawals: bool) -> Seq<Seq<u8>>
    decreases txs.len(),
{
    if txs.len() == 0 {
        Seq::empty()
    } else {
        let rest = digests_of_kind(txs.drop_last(), withdrawals);
        if (txs.last().transaction is Withdrawal) == withdrawals {
            rest.push(txs.last().transaction.digest())
        } else {
            rest
        }
    }
}

/// Digests by kind distribute over concatenation.
pub proof fn lemma_digests_of_kind_add(
    a: Seq<SignedTransaction>,
    b: Seq<SignedTransaction>,
    withdrawals: bool,
)
    ensures
        digests_of_kind(a + b, withdrawals) == digests_of_kind(a, withdrawals) + digests_of_kind(
            b,
            withdrawals,
        ),
    decreases b.len(),
{
    if b.len() == 0 {
        assert(a + b =~= a);
        assert(digests_of_kind(a, withdrawals) + digests_of_kind(b, withdrawals)
            =~= digests_of_kind(a, withdrawals));
    } else {
        lemma_digests_of_kind_add(a, b.drop_last(), withdrawals);
        assert((a + b).drop_last() =~= a + b.drop_last());
        assert((a + b).last() == b.last());
        let rest = digests_of_kind(a, withdrawals) + digests_of_kind(b.drop_last(), withdrawals);
        if (b.last().transaction is Withdrawal) == withdrawals {
            assert(rest.push(b.last().transaction.digest()) =~= digests_of_kind(a, withdrawals)
                + digests_of_kind(b.drop_last(), withdrawals).push(b.last().transaction.digest()));
        }
    }
}

/// Transactions of one kind contribute no digest of the other kind.
pub proof fn lemma_digests_of_other_kind(txs: Seq<SignedTransaction>, withdrawals: bool)
    requires
        all_of_kind(txs, !withdrawals),
    ensures
        digests_of_kind(txs, withdrawals) == Seq::<Seq<u8>>::empty(),
    decreases txs.len(),
{
    if txs.len() > 0 {
        lemma_digests_of_other_kind(txs.drop_last(), withdrawals);
    }
}

/// Dynamic transactions followed by withdrawals are in block order.
pub proof fn lemma_pools_dynamic_first(
    dynamic: Seq<SignedTransaction>,
    withdrawals: Seq<SignedTransaction>,
)
    requires
        all_of_kind(dynamic, false),
        all_of_kind(withdrawals, true),
    ensures
        dynamic_first(dynamic + withdrawals),
{
    let txs = dynamic + withdrawals;
    assert forall|i: int, j: int|
        0 <= i < j < txs.len() && (#[trigger] txs[j]).transaction is Dynamic implies (
    #[trigger] txs[i]).transaction is Dynamic by {
        if j >= dynamic.len() {
            assert(txs[j] == withdrawals[j - dynamic.len()]);
        }
        assert(txs[i] == dynamic[i]);
    }
}

/// Every block holds its dynamic transactions before its withdrawals.
pub open spec fn blocks_dynamic_first(blocks: Seq<BlockView>) -> bool {
    forall|i: int| 0 <= i < blocks.len() ==> dynamic_first((#[trigger] blocks[i]).transactions)
}

/// A linked chain stays linked when a block is appended that has the
/// chain's length as number and names the digest of the last block, or none
/// where there is no block yet, as its parent.
pub proof fn lemma_push_keeps_linked(blocks: Seq<BlockView>, block: BlockView)
    requires
        chain_linked(blocks),
        block.header().number == blocks.len(),
        blocks.len() == 0 ==> block.header().parent_digest is None,
        blocks.len() > 0 ==> (block.header().parent_digest matches Some(parent) && parent@
            == blocks.last().digest()),
    ensures
        chain_linked(blocks.push(block)),
{
    let longer = blocks.push(block);
    assert forall|i: int| 0 <= i < longer.len() implies (#[trigger] longer[i]).header().number
        == i by {
        if i < blocks.len() {
            assert(longer[i] == blocks[i]);
        }
    }
    assert forall|i: int, j: int|
        0 <= i && j == i + 1 && j < longer.len() implies #[trigger] links_to(
        longer[j],
        longer[i],
    ) by {
        assert(longer[i] == blocks[i]);
        if j < blocks.len() {
            assert(longer[j] == blocks[j]);
            assert(links_to(blocks[j], blocks[i]));
        } else {
            assert(blocks[i] == blocks.last());
        }
    }
    if blocks.len() > 0 {
        assert(longer[0] == blocks[0]);
    }
}

/// A chain sealed by one address stays so when a valid block of that
/// address is appended.
pub proof fn lemma_push_keeps_sealed_by(blocks: Seq<BlockView>, block: BlockView, address: Address)
    requires
        sealed_by(blocks, address),
        block.header().sequencer == address,
        block.valid(),
    ensures
        sealed_by(blocks.push(block), address),
{
    let longer = blocks.push(block);
    assert forall|i: int| 0 <= i < longer.len() implies (#[trigger] longer[i]).header().sequencer
        == address && longer[i].valid() by {
        if i < blocks.len() {
            assert(longer[i] == blocks[i]);
        }
    }
}

/// Blocks in block order stay so when a block in block order is appended.
pub proof fn lemma_push_keeps_dynamic_first(blocks: Seq<BlockView>, block: BlockView)
    requires
        blocks_dynamic_first(blocks),
        dynamic_first(block.transactions),
    ensures
        blocks_dynamic_first(blocks.push(block)),
{
    let longer = blocks.push(block);
    assert forall|i: int| 0 <= i < longer.len() implies dynamic_first(
        (#[trigger] longer[i]).transactions,
    ) by {
        if i < blocks.len() {
            assert(longer[i] == blocks[i]);
        }
    }
}

/// The transactions of a chain with one more block are those of the chain
/// followed by those of the block.
pub proof fn lemma_sealed_transactions_push(blocks: Seq<BlockView>, block: BlockView)
    ensures
        sealed_transactions(blocks.push(block)) == sealed_transactions(blocks)
            + block.transactions,
{
    assert(blocks.push(block).drop_last() =~= blocks);
}

/// One call on a sequencer, with what it returned.
pub enum Step {
    /// `add_transaction` was called with `tx` and returned `leaf`.
    Admit { tx: SignedTransaction, leaf: Admission },
    /// `seal` was called at time `now` with the given roots and returned
    /// `block`.
    Seal {
        now: u64,
        withdrawals_root: Seq<char>,
        transactions_root: Seq<char>,
        block: BlockView,
    },
}

/// The transactions that the calls admitted, in the order of the calls.
pub open spec fn admitted(steps: Seq<Step>) -> Seq<SignedTransaction>
    decreases steps.len(),
{
    if steps.len() == 0 {
        Seq::empty()
    } else {
        let before = admitted(steps.drop_last());
        match steps.last() {
            Step::Admit { tx, .. } => before.push(tx),
            Step::Seal { .. } => before,
        }
    }
}

/// The blocks that the calls returned, in the order of the calls.
pub open spec fn returned(steps: Seq<Step>) -> Seq<BlockView>
    decreases steps.len(),
{
    if steps.len() == 0 {
        Seq::empty()
    } else {
        let before = returned(steps.drop_last());
        match steps.last() {
            Step::Admit { .. } => before,
            Step::Seal { block, .. } => before.push(block),
        }
    }
}

/// How many transactions the blocks hold, all in all.
pub open spec fn transaction_count(blocks: Seq<BlockView>) -> nat
    decreases blocks.len(),
{
    if blocks.len() == 0 {
        0
    } else {
        transaction_count(blocks.drop_last()) + blocks.last().transactions.len()
    }
}

/// The transactions of all blocks are as many as the blocks hold, all in
/// all.
pub proof fn lemma_transaction_count(blocks: Seq<BlockView>)
    ensures
        sealed_transactions(blocks).len() == transaction_count(blocks),
    decreases blocks.len(),
{
    if blocks.len() > 0 {
        lemma_transaction_count(blocks.drop_last());
    }
}

/// The calls `steps`, made one after another, lead through the states
/// `states`: each call finds the state that the call before it left.
pub open spec fn is_run(states: Seq<SequencerView>, steps: Seq<Step>) -> bool {
    &&& states.len() == steps.len() + 1
    &&& forall|i: int|
        0 <= i < steps.len() ==> (#[trigger] states[i]).steps_to(steps[i], states[i + 1])
}

impl SequencerView {
    /// The address under which blocks are sealed.
    pub open spec fn address(&self) -> Address {
        self.signer.spec_address()
    }

    /// What the next block will hold: the dynamic pool, then the
    /// withdrawal pool.
    pub open spec fn pending(&self) -> Seq<SignedTransaction> {
        self.dynamic_pool + self.withdrawal_pool
    }

    /// Every admitted transaction: the sealed ones in block order, then the
    /// pending ones.
    pub open spec fn history(&self) -> Seq<SignedTransaction> {
        sealed_transactions(self.chain.blocks) + self.pending()
    }

    /// What holds of every sequencer that was made by `Sequencer::new` and
    /// changed by its methods alone.
    pub open spec fn inv(&self) -> bool {
        &&& chain_linked(self.chain.blocks)
        &&& sealed_by(self.chain.blocks, self.address())
        &&& blocks_dynamic_first(self.chain.blocks)
        &&& all_of_kind(self.dynamic_pool, false)
        &&& all_of_kind(self.withdrawal_pool, true)
        &&& self.chain.transaction_leaves == digests_of_kind(self.history(), false)
        &&& self.chain.withdrawal_leaves == digests_of_kind(self.history(), true)
    }

    /// `post` and `leaf` are what admitting `tx` makes of `self`: the
    /// transaction's digest is the new last leaf of the tree of its kind,
    /// and the transaction is the new last entry of the pool of its kind.
    pub open spec fn admits(
        &self,
        tx: SignedTransaction,
        post: SequencerView,
        leaf: Admission,
    ) -> bool {
        match tx.transaction {
            Transaction::Dynamic(data) => {
                &&& leaf matches Admission::Dynamic(digest)
                &&& digest@ == data.digest()
                &&& post == (SequencerView {
                    chain: ChainView {
                        transaction_leaves: self.chain.transaction_leaves.push(data.digest()),
                        ..self.chain
                    },
                    dynamic_pool: self.dynamic_pool.push(tx),
                    ..*self
                })
            },
            Transaction::Withdrawal(data) => {
                &&& leaf matches Admission::Withdrawal(digest)
                &&& digest@ == data.digest()
                &&& post == (SequencerView {
                    chain: ChainView {
                        withdrawal_leaves: self.chain.withdrawal_leaves.push(data.digest()),
                        ..self.chain
                    },
                    withdrawal_pool: self.withdrawal_pool.push(tx),
                    ..*self
                })
            },
        }
    }

    /// `post` and `block` are what sealing at time `now`, with the given
    /// tree roots, makes of `self`.
    pub open spec fn seals(
        &self,
        now: u64,
        withdrawals_root: Seq<char>,
        transactions_root: Seq<char>,
        post: SequencerView,
        block: BlockView,
    ) -> bool {
        let header = block.header();
        &&& header.sequencer == self.address()
        &&& header.number == self.chain.blocks.len()
        &&& header.timestamp == now
        &&& match self.chain.head() {
            None => header.parent_digest is None,
            Some(head) => header.parent_digest matches Some(parent) && parent@ == head.digest(),
        }
        &&& header.withdrawals_root@ == withdrawals_root
        &&& header.transactions_root@ == transactions_root
        &&& block.signed.signature == self.signer.signature_of(header.digest())
        &&& block.valid()
        &&& block.transactions == self.pending()
        &&& post == (SequencerView {
            chain: ChainView { blocks: self.chain.blocks.push(block), ..self.chain },
            dynamic_pool: Seq::empty(),
            withdrawal_pool: Seq::empty(),
            ..*self
        })
    }

    /// `post` is what the call `step` makes of `self`.
    pub open spec fn steps_to(&self, step: Step, post: SequencerView) -> bool {
        match step {
            Step::Admit { tx, leaf } => self.admits(tx, post, leaf),
            Step::Seal { now, withdrawals_root, transactions_root, block } => self.seals(
                now,
                withdrawals_root,
                transactions_root,
                post,
                block,
            ),
        }
    }

    /// Nothing was admitted or sealed yet: the state of a new sequencer.
    pub open spec fn fresh(&self) -> bool {
        &&& self.chain == ChainView::empty()
        &&& self.dynamic_pool == Seq::<SignedTransaction>::empty()
        &&& self.withdrawal_pool == Seq::<SignedTransaction>::empty()
    }

    /// What holds of every sequencer holds of a new one.
    pub proof fn lemma_fresh_inv(self)
        requires
            self.fresh(),
        ensures
            self.inv(),
            self.history() == Seq::<SignedTransaction>::empty(),
    {
        assert(self.history() =~= Seq::empty());
    }

    /// Admitting adds the transaction to the admitted ones and leaves the
    /// chain as it is.
    pub proof fn lemma_admit_history(
        self,
        tx: SignedTransaction,
        post: SequencerView,
        leaf: Admission,
    )
        requires
            self.admits(tx, post, leaf),
        ensures
            post.chain.blocks == self.chain.blocks,
            post.history().to_multiset() == self.history().to_multiset().insert(tx),
            post.history().len() == self.history().len() + 1,
    {
        let sealed = sealed_transactions(self.chain.blocks);
        vstd::seq_lib::lemma_multiset_commutative(sealed, self.pending());
        vstd::seq_lib::lemma_multiset_commutative(sealed, post.pending());
        vstd::seq_lib::lemma_multiset_commutative(self.dynamic_pool, self.withdrawal_pool);
        vstd::seq_lib::lemma_multiset_commutative(post.dynamic_pool, post.withdrawal_pool);
        vstd::seq_lib::to_multiset_build(self.dynamic_pool, tx);
        vstd::seq_lib::to_multiset_build(self.withdrawal_pool, tx);
        assert(post.history().to_multiset() =~= self.history().to_multiset().insert(tx));
    }

    /// Sealing leaves the admitted transactions as they are, in their
    /// order, and all of them sealed.
    pub proof fn lemma_seal_history(
        self,
        now: u64,
        withdrawals_root: Seq<char>,
        transactions_root: Seq<char>,
        post: SequencerView,
        block: BlockView,
    )
        requires
            self.seals(now, withdrawals_root, transactions_root, post, block),
        ensures
            post.chain.blocks == self.chain.blocks.push(block),
            post.history() == self.history(),
            sealed_transactions(post.chain.blocks) == self.history(),
    {
        lemma_sealed_transactions_push(self.chain.blocks, block);
        assert(post.pending() =~= Seq::empty());
        assert(post.history() =~= self.history());
    }

    /// Admitting keeps what holds of every sequencer.
    pub proof fn lemma_admits_keeps_inv(
        self,
        tx: SignedTransaction,
        post: SequencerView,
        leaf: Admission,
    )
        requires
            self.inv(),
            self.admits(tx, post, leaf),
        ensures
            post.inv(),
    {
        let sealed = sealed_transactions(self.chain.blocks);
        let digest = tx.transaction.digest();
        match tx.transaction {
            Transaction::Dynamic(data) => {
                assert(post.history() =~= (sealed + self.dynamic_pool.push(tx))
                    + self.withdrawal_pool);
                assert(self.history() =~= (sealed + self.dynamic_pool) + self.withdrawal_pool);
                assert(sealed + self.dynamic_pool.push(tx) =~= (sealed + self.dynamic_pool).push(
                    tx,
                ));
                assert((sealed + self.dynamic_pool).push(tx).drop_last() =~= sealed
                    + self.dynamic_pool);
                lemma_digests_of_kind_add(sealed + self.dynamic_pool, self.withdrawal_pool, false);
                lemma_digests_of_kind_add(sealed + self.dynamic_pool, self.withdrawal_pool, true);
                lemma_digests_of_kind_add(
                    (sealed + self.dynamic_pool).push(tx),
                    self.withdrawal_pool,
                    false,
                );
                lemma_digests_of_kind_add(
                    (sealed + self.dynamic_pool).push(tx),
                    self.withdrawal_pool,
                    true,
                );
                lemma_digests_of_other_kind(self.withdrawal_pool, false);
                assert(post.chain.transaction_leaves =~= digests_of_kind(post.history(), false));
                assert(post.chain.withdrawal_leaves =~= digests_of_kind(post.history(), true));
            },
            Transaction::Withdrawal(data) => {
                assert(post.history() =~= (sealed + self.pending()).push(tx));
                assert((sealed + self.pending()).push(tx).drop_last() =~= sealed + self.pending());
            },
        }
    }

    /// Sealing keeps what holds of every sequencer, and leaves in each tree
    /// exactly the digests of the sealed transactions of its kind.
    pub proof fn lemma_seals_keeps_inv(
        self,
        now: u64,
        withdrawals_root: Seq<char>,
        transactions_root: Seq<char>,
        post: SequencerView,
        block: BlockView,
    )
        requires
            self.inv(),
            self.seals(now, withdrawals_root, transactions_root, post, block),
        ensures
            post.inv(),
            post.chain.transaction_leaves == digests_of_kind(
                sealed_transactions(post.chain.blocks),
                false,
            ),
            post.chain.withdrawal_leaves == digests_of_kind(
                sealed_transactions(post.chain.blocks),
                true,
            ),
    {
        lemma_sealed_transactions_push(self.chain.blocks, block);
        assert(post.pending() =~= Seq::empty());
        assert(post.history() =~= self.history());
        lemma_pools_dynamic_first(self.dynamic_pool, self.withdrawal_pool);
        lemma_push_keeps_dynamic_first(self.chain.blocks, block);
        lemma_push_keeps_linked(self.chain.blocks, block);
        lemma_push_keeps_sealed_by(self.chain.blocks, block, self.address());
    }

    /// Sealing empties both pools, and the sealed block holds exactly the
    /// transactions that were pending, each as often as it was pending.
    pub proof fn lemma_seal_drains_pools(
        self,
        now: u64,
        withdrawals_root: Seq<char>,
        transactions_root: Seq<char>,
        post: SequencerView,
        block: BlockView,
    )
        requires
            self.seals(now, withdrawals_root, transactions_root, post, block),
        ensures
            post.dynamic_pool.len() == 0,
            post.withdrawal_pool.len() == 0,
            block.transactions.to_multiset() == self.dynamic_pool.to_multiset().add(
                self.withdrawal_pool.to_multiset(),
            ),
    {
        vstd::seq_lib::lemma_multiset_commutative(self.dynamic_pool, self.withdrawal_pool);
    }

    /// In every sequencer, each block but the first names the digest of
    /// the block before it as its parent, and the first names none.
    pub proof fn lemma_chain_linking(self, i: int)
        requires
            self.inv(),
            0 <= i < self.chain.blocks.len(),
        ensures
            i == 0 ==> self.chain.blocks[i].header().parent_digest is None,
            i > 0 ==> (self.chain.blocks[i].header().parent_digest matches Some(parent) && parent@
                == self.chain.blocks[i - 1].digest()),
    {
        if i > 0 {
            assert(links_to(self.chain.blocks[i], self.chain.blocks[i - 1]));
        }
    }

    /// In every sequencer, the number of each block is its position in the
    /// chain, so numbers grow by one from block to block.
    pub proof fn lemma_block_numbers(self, i: int)
        requires
            self.inv(),
            0 <= i < self.chain.blocks.len(),
        ensures
            self.chain.blocks[i].header().number == i,
            i > 0 ==> self.chain.blocks[i].header().number == self.chain.blocks[i
                - 1].header().number + 1,
    {
        if i > 0 {
            assert(self.chain.blocks[i - 1].header().number == i - 1);
        }
    }

    /// In every sequencer, the leaves of each tree are the digests of the
    /// admitted transactions of its kind, in the order of admission: the
    /// sealed ones block by block, then the pending ones.
    pub proof fn lemma_leaves_are_history(self)
        requires
            self.inv(),
        ensures
            self.chain.transaction_leaves == digests_of_kind(
                sealed_transactions(self.chain.blocks),
                false,
            ) + digests_of_kind(self.dynamic_pool, false),
            self.chain.withdrawal_leaves == digests_of_kind(
                sealed_transactions(self.chain.blocks),
                true,
            ) + digests_of_kind(self.withdrawal_pool, true),
    {
        let sealed = sealed_transactions(self.chain.blocks);
        assert(self.history() =~= (sealed + self.dynamic_pool) + self.withdrawal_pool);
        lemma_digests_of_kind_add(sealed + self.dynamic_pool, self.withdrawal_pool, false);
        lemma_digests_of_kind_add(sealed + self.dynamic_pool, self.withdrawal_pool, true);
        lemma_digests_of_kind_add(sealed, self.dynamic_pool, false);
        lemma_digests_of_kind_add(sealed, self.dynamic_pool, true);
        lemma_digests_of_other_kind(self.withdrawal_pool, false);
        lemma_digests_of_other_kind(self.dynamic_pool, true);
        assert(digests_of_kind(sealed, false) + digests_of_kind(self.dynamic_pool, false)
            + Seq::<Seq<u8>>::empty() =~= digests_of_kind(sealed, false) + digests_of_kind(
            self.dynamic_pool,
            false,
        ));
        assert(digests_of_kind(sealed, true) + Seq::<Seq<u8>>::empty() + digests_of_kind(
            self.withdrawal_pool,
            true,
        ) =~= digests_of_kind(sealed, true) + digests_of_kind(self.withdrawal_pool, true));
    }

    /// In every sequencer, every sealed block verifies and holds its
    /// dynamic transactions before its withdrawals.
    pub proof fn lemma_blocks_valid(self, i: int)
        requires
            self.inv(),
            0 <= i < self.chain.blocks.len(),
        ensures
            self.chain.blocks[i].valid(),
            self.chain.blocks[i].header().sequencer == self.address(),
            dynamic_first(self.chain.blocks[i].transactions),
    {
    }
}

/// Whatever calls are made on a new sequencer, one after another: what
/// holds of every sequencer holds after them; the chain is the returned
/// blocks in the order in which they were returned, so that the number of
/// each is its place among them; and the admitted transactions, sealed or
/// pending, are those that the calls admitted, each as often as it was
/// admitted.
pub proof fn lemma_run(states: Seq<SequencerView>, steps: Seq<Step>)
    requires
        is_run(states, steps),
        states[0].fresh(),
    ensures
        states.last().inv(),
        states.last().chain.blocks == returned(steps),
        states.last().history().to_multiset() == admitted(steps).to_multiset(),
        states.last().history().len() == admitted(steps).len(),
        forall|i: int|
            0 <= i < returned(steps).len() ==> (#[trigger] returned(steps)[i]).header().number
                == i,
    decreases steps.len(),
{
    let n = steps.len() as int;
    if n == 0 {
        states[0].lemma_fresh_inv();
        assert(states.last() == states[0]);
        assert(states[0].chain.blocks =~= returned(steps));
    } else {
        let earlier_states = states.drop_last();
        let earlier_steps = steps.drop_last();
        assert(is_run(earlier_states, earlier_steps)) by {
            assert forall|i: int| 0 <= i < earlier_steps.len() implies (
            #[trigger] earlier_states[i]).steps_to(earlier_steps[i], earlier_states[i + 1]) by {
                assert(states[i].steps_to(steps[i], states[i + 1]));
            }
        }
        assert(earlier_states[0] == states[0]);
        lemma_run(earlier_states, earlier_steps);
        let pre = states[n - 1];
        let post = states[n];
        assert(earlier_states.last() == pre);
        assert(states.last() == post);
        assert(pre.steps_to(steps[n - 1], post));
        assert(steps.last() == steps[n - 1]);
        match steps[n - 1] {
            Step::Admit { tx, leaf } => {
                pre.lemma_admits_keeps_inv(tx, post, leaf);
                pre.lemma_admit_history(tx, post, leaf);
                vstd::seq_lib::to_multiset_build(admitted(earlier_steps), tx);
            },
            Step::Seal { now, withdrawals_root, transactions_root, block } => {
                pre.lemma_seals_keeps_inv(now, withdrawals_root, transactions_root, post, block);
                pre.lemma_seal_history(now, withdrawals_root, transactions_root, post, block);
            },
        }
    }
}

/// After calls on a new sequencer of which the last is a seal, as after
/// tasks that each admit and then seal under one lock, in whatever order
/// the lock serves them: the returned blocks hold exactly the transactions
/// that were admitted, each as often as it was admitted, so that the
/// numbers of their transactions sum to the number of admissions.
pub proof fn lemma_run_ending_in_seal(states: Seq<SequencerView>, steps: Seq<Step>)
    requires
        is_run(states, steps),
        states[0].fresh(),
        steps.len() > 0,
        steps.last() is Seal,
    ensures
        sealed_transactions(returned(steps)).to_multiset() == admitted(steps).to_multiset(),
        transaction_count(returned(steps)) == admitted(steps).len(),
        states.last().dynamic_pool.len() == 0,
        states.last().withdrawal_pool.len() == 0,
{
    let n = steps.len() as int;
    lemma_run(states, steps);
    lemma_transaction_count(returned(steps));
    let pre = states[n - 1];
    let post = states[n];
    assert(states.last() == post);
    assert(pre.steps_to(steps[n - 1], post));
    assert(steps.last() == steps[n - 1]);
    match steps[n - 1] {
        Step::Admit { .. } => {},
        Step::Seal { now, withdrawals_root, transactions_root, block } => {
            pre.lemma_seal_history(now, withdrawals_root, transactions_root, post, block);
            assert(post.pending() =~= Seq::empty());
            assert(post.history() =~= sealed_transactions(post.chain.blocks));
        },
    }
}

impl View for Sequencer {
    type V = SequencerView;

    closed spec fn view(&self) -> SequencerView {
        SequencerView {
            signer: self.signer,
            chain: self.blockchain@,
            dynamic_pool: self.dynamic_pool@,
            withdrawal_pool: self.withdrawal_pool@,
        }
    }
}

impl Sequencer {
    /// Creates a sequencer with an empty chain and empty pools.
    pub fn new(signer: Signer) -> (sequencer: Sequencer)
        ensures
            sequencer@ == (SequencerView {
                signer,
                chain: ChainView::empty(),
                dynamic_pool: Seq::empty(),
                withdrawal_pool: Seq::empty(),
            }),
            sequencer@.fresh(),
            sequencer@.inv(),
    {
        let sequencer = Sequencer {
            signer,
            blockchain: Blockchain::default(),
            dynamic_pool: Vec::new(),
            withdrawal_pool: Vec::new(),
        };
        proof {
            assert(sequencer@.history() =~= Seq::empty());
        }
        sequencer
    }

    /// The address under which this sequencer seals.
    pub fn address(&self) -> (address: Address)
        ensures
            address == self@.address(),
    {
        self.signer.address()
    }

    /// The ledger.
    pub fn blockchain(&self) -> (chain: &Blockchain)
        ensures
            chain@ == self@.chain,
    {
        &self.blockchain
    }

    /// The admitted dynamic transactions that are not sealed yet.
    pub fn dynamic_pool(&self) -> (pool: &Vec<SignedTransaction>)
        ensures
            pool@ == self@.dynamic_pool,
    {
        &self.dynamic_pool
    }

    /// The admitted withdrawals that are not sealed yet.
    pub fn withdrawal_pool(&self) -> (pool: &Vec<SignedTransaction>)
        ensures
            pool@ == self@.withdrawal_pool,
    {
        &self.withdrawal_pool
    }

    /// Adds a transaction to the pool of its kind, to be included in the
    /// next block, and its digest to the leaves of the tree of its kind.
    /// The signature is not checked here.
    pub fn add_transaction(&mut self, transaction: SignedTransaction) -> (leaf: Admission)
        ensures
            old(self)@.admits(transaction, final(self)@, leaf),
            old(self)@.inv() ==> final(self)@.inv(),
    {
        let leaf = match &transaction.transaction {
            Transaction::Withdrawal(tx) => {
                let digest = self.blockchain.withdraw(tx);
                self.withdrawal_pool.push(transaction);
                Admission::Withdrawal(digest)
            },
            Transaction::Dynamic(tx) => {
                let digest = self.blockchain.transact(tx);
                self.dynamic_pool.push(transaction);
                Admission::Dynamic(digest)
            },
        };
        proof {
            if old(self)@.inv() {
                old(self)@.lemma_admits_keeps_inv(transaction, self@, leaf);
            }
        }
        leaf
    }

    /// Seals the pending transactions into the next block at time `now`:
    /// builds the header over the given tree roots, signs it, drains the
    /// dynamic pool and then the withdrawal pool into the block, and
    /// appends the block to the chain.
    pub fn seal_at(
        &mut self,
        now: u64,
        withdrawals_root: String,
        transactions_root: String,
    ) -> (block: Block)
        ensures
            old(self)@.seals(now, withdrawals_root@, transactions_root@, final(self)@, block@),
            old(self)@.inv() ==> final(self)@.inv(),
    {
        let parent_digest = match self.blockchain.head() {
            Some(head) => Some(head.hash()),
            None => None,
        };
        let header = BlockHeader {
            sequencer: self.signer.address(),
            number: self.blockchain.height(),
            timestamp: now,
            parent_digest,
            withdrawals_root,
            transactions_root,
        };
        let signed = SignedBlockHeader::new(header, &self.signer);
        let mut transactions: Vec<SignedTransaction> = Vec::new();
        transactions.append(&mut self.dynamic_pool);
        transactions.append(&mut self.withdrawal_pool);
        let block = Block::new(signed, transactions);
        self.blockchain.push(block.clone());
        proof {
            assert(block@.transactions =~= old(self)@.pending());
            if old(self)@.inv() {
                old(self)@.lemma_seals_keeps_inv(
                    now,
                    withdrawals_root@,
                    transactions_root@,
                    self@,
                    block@,
                );
            }
        }
        block
    }

    /// Creates the latest canonical block at the time the wall clock shows,
    /// and signs it. Both pools are emptied.
    pub fn seal(&mut self, withdrawals_root: String, transactions_root: String) -> (block: Block)
        ensures
            exists|now: u64|
                old(self)@.seals(now, withdrawals_root@, transactions_root@, final(self)@, block@),
            old(self)@.inv() ==> final(self)@.inv(),
    {
        let now = unix_seconds();
        self.seal_at(now, withdrawals_root, transactions_root)
    }

    /// Returns a copy of the head block of the blockchain.
    pub fn head(&self) -> (head: Option<Block>)
        ensures
            head is Some <==> self@.chain.blocks.len() > 0,
            head matches Some(block) ==> block@ == self@.chain.blocks.last(),
    {
        match self.blockchain.head() {
            Some(block) => Some(block.clone()),
            None => None,
        }
    }
}

} // verus!
