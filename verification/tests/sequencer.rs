use rollup::block::Block;
use rollup::blockchain::Blockchain;
use rollup::sequencer::{Admission, Sequencer};
use rollup::signer::Signer;
use rollup::transaction::{SignedTransaction, Transaction};
use std::sync::{Arc, Mutex};

fn dynamic(signer: &Signer, amount: u64) -> SignedTransaction {
    SignedTransaction::new(Transaction::dynamic(signer.address(), amount), signer)
}

fn withdrawal(signer: &Signer, amount: u64) -> SignedTransaction {
    SignedTransaction::new(Transaction::withdrawal(signer.address(), amount, 1), signer)
}

fn root_of(leaves: &[[u8; 32]]) -> String {
    let mut bytes = Vec::new();
    for leaf in leaves {
        bytes.extend_from_slice(leaf);
    }
    hex::encode(alloy_primitives::keccak256(&bytes))
}

fn seal(sequencer: &mut Sequencer) -> Block {
    let withdrawals = root_of(sequencer.blockchain().withdrawal_leaves());
    let transactions = root_of(sequencer.blockchain().transaction_leaves());
    sequencer.seal(withdrawals, transactions)
}

#[test]
fn a_new_sequencer_is_empty() {
    let signer = Signer::random();
    let address = signer.address();
    let sequencer = Sequencer::new(signer);
    assert_eq!(sequencer.address(), address);
    assert_eq!(sequencer.head(), None);
    assert_eq!(sequencer.blockchain().height(), 0);
    assert!(sequencer.blockchain().head().is_none());
    assert!(sequencer.blockchain().block(0).is_none());
    assert!(sequencer.dynamic_pool().is_empty());
    assert!(sequencer.withdrawal_pool().is_empty());
    assert!(sequencer.blockchain().withdrawal_leaves().is_empty());
    assert!(sequencer.blockchain().transaction_leaves().is_empty());
}

#[test]
fn a_default_chain_is_empty() {
    let chain = Blockchain::default();
    assert_eq!(chain.height(), 0);
    assert!(chain.head().is_none());
}

#[test]
fn chain_methods_append() {
    let signer = Signer::random();
    let mut chain = Blockchain::default();
    let tx = Transaction::withdrawal(signer.address(), 1, 1);
    if let Transaction::Withdrawal(data) = tx {
        assert_eq!(chain.withdraw(&data), data.hash());
        assert_eq!(chain.withdrawal_leaves(), &vec![data.hash()]);
    }
    let tx = Transaction::dynamic(signer.address(), 1);
    if let Transaction::Dynamic(data) = tx {
        assert_eq!(chain.transact(&data), data.hash());
        assert_eq!(chain.transact(&data), data.hash());
        assert_eq!(chain.transaction_leaves(), &vec![data.hash(), data.hash()]);
    }
    assert_eq!(chain.withdrawal_leaves().len(), 1);
    let mut sequencer = Sequencer::new(signer);
    let block = sequencer.seal_at(0, "0".to_string(), "0".to_string());
    chain.push(block.clone());
    chain.push(block.clone());
    assert_eq!(chain.height(), 2);
    assert_eq!(chain.head(), Some(&block));
    assert_eq!(chain.block(1), Some(&block));
    assert_eq!(chain.block(2), None);
}

#[test]
fn admission_pools_by_kind_and_appends_the_leaf() {
    let signer = Signer::random();
    let t1 = dynamic(&signer, 1);
    let t2 = withdrawal(&signer, 2);
    let mut sequencer = Sequencer::new(signer);
    assert_eq!(sequencer.add_transaction(t1), Admission::Dynamic(t1.transaction.hash()));
    assert_eq!(sequencer.dynamic_pool(), &vec![t1]);
    assert!(sequencer.withdrawal_pool().is_empty());
    assert_eq!(sequencer.blockchain().transaction_leaves(), &vec![t1.transaction.hash()]);
    assert!(sequencer.blockchain().withdrawal_leaves().is_empty());
    assert_eq!(sequencer.add_transaction(t2), Admission::Withdrawal(t2.transaction.hash()));
    assert_eq!(sequencer.dynamic_pool(), &vec![t1]);
    assert_eq!(sequencer.withdrawal_pool(), &vec![t2]);
    assert_eq!(sequencer.blockchain().withdrawal_leaves(), &vec![t2.transaction.hash()]);
    assert_eq!(sequencer.blockchain().height(), 0);
}

#[test]
fn admission_does_not_check_the_signature() {
    let signer = Signer::random();
    let other = Signer::random();
    let forged = SignedTransaction::new(Transaction::dynamic(other.address(), 1), &signer);
    assert!(!forged.verify());
    let mut sequencer = Sequencer::new(signer);
    sequencer.add_transaction(forged);
    assert_eq!(sequencer.dynamic_pool(), &vec![forged]);
}

#[test]
fn sealing_one_dynamic_transaction() {
    let signer = Signer::random();
    let t1 = dynamic(&signer, 1);
    let mut sequencer = Sequencer::new(signer);
    sequencer.add_transaction(t1);
    let block = seal(&mut sequencer);
    assert_eq!(block.transactions, vec![t1]);
    assert_eq!(block.number(), 0);
    assert!(block.verify());
    assert_eq!(sequencer.head(), Some(block.clone()));
    assert_eq!(block.signed.header.parent_digest, None);
    assert_eq!(block.signed.header.sequencer, sequencer.address());
}

#[test]
fn sealing_orders_dynamic_before_withdrawals_and_links_to_the_parent() {
    let signer = Signer::random();
    let t1 = dynamic(&signer, 1);
    let t2 = dynamic(&signer, 2);
    let t3 = withdrawal(&signer, 3);
    let mut sequencer = Sequencer::new(signer);
    sequencer.add_transaction(t1);
    let block1 = seal(&mut sequencer);
    sequencer.add_transaction(t3);
    sequencer.add_transaction(t2);
    let block2 = seal(&mut sequencer);
    assert_eq!(block2.transactions, vec![t2, t3]);
    assert_eq!(block2.signed.header.parent_digest, Some(block1.hash()));
    assert_eq!(block2.number(), 1);
    assert!(block2.verify());
    assert_eq!(sequencer.head(), Some(block2));
}

#[test]
fn ten_tasks_admit_and_seal() {
    let signer = Signer::random();
    let txs: Vec<SignedTransaction> = (0..10).map(|i| dynamic(&signer, i)).collect();
    let shared = Arc::new(Mutex::new(Sequencer::new(signer)));
    let mut blocks = Vec::new();
    for tx in txs {
        let handle = Arc::clone(&shared);
        let mut sequencer = handle.lock().unwrap();
        sequencer.add_transaction(tx);
        blocks.push(seal(&mut sequencer));
    }
    let mut total = 0;
    for block in &blocks {
        assert!(block.verify());
        total += block.transactions.len();
    }
    assert_eq!(total, 10);
    assert_eq!(shared.lock().unwrap().blockchain().height(), 10);
}

#[test]
fn the_sealed_root_is_the_root_read_before_sealing() {
    let signer = Signer::random();
    let t1 = dynamic(&signer, 1);
    let mut sequencer = Sequencer::new(signer);
    sequencer.add_transaction(t1);
    let root = root_of(sequencer.blockchain().transaction_leaves());
    let empty = root_of(sequencer.blockchain().withdrawal_leaves());
    let block = sequencer.seal(empty.clone(), root.clone());
    assert_eq!(block.signed.header.transactions_root, root);
    assert_eq!(block.signed.header.withdrawals_root, empty);
    assert_eq!(root, root_of(&[t1.transaction.hash()]));
}

#[test]
fn seal_at_stamps_the_given_time() {
    let signer = Signer::random();
    let mut sequencer = Sequencer::new(signer);
    let block = sequencer.seal_at(1234, "w".to_string(), "t".to_string());
    assert_eq!(block.signed.header.timestamp, 1234);
    assert_eq!(block.signed.header.withdrawals_root, "w");
    assert_eq!(block.signed.header.transactions_root, "t");
    assert!(block.transactions.is_empty());
    assert!(block.verify());
}

#[test]
fn seal_stamps_the_wall_clock() {
    let signer = Signer::random();
    let mut sequencer = Sequencer::new(signer);
    let before = std::time::SystemTime::now()
        .duration_since(std::time::UNIX_EPOCH)
        .unwrap()
        .as_secs();
    let block = sequencer.seal("0".to_string(), "0".to_string());
    let after = std::time::SystemTime::now()
        .duration_since(std::time::UNIX_EPOCH)
        .unwrap()
        .as_secs();
    assert!(before <= block.signed.header.timestamp);
    assert!(block.signed.header.timestamp <= after);
    assert!(rollup::clock::unix_seconds() >= after);
}

#[test]
fn sealed_blocks_are_linked_and_numbered() {
    let signer = Signer::random();
    let mut sequencer = Sequencer::new(signer);
    for round in 0..6u64 {
        if round % 2 == 0 {
            let tx = Transaction::withdrawal(sequencer.address(), round, 1);
            let digest = tx.hash();
            let unsigned = SignedTransaction {
                transaction: tx,
                signature: rollup::signer::Signature { r: [0; 32], s: [0; 32], recovery_id: 0 },
            };
            assert_eq!(sequencer.add_transaction(unsigned), Admission::Withdrawal(digest));
        }
        seal(&mut sequencer);
    }
    let chain = sequencer.blockchain();
    assert_eq!(chain.height(), 6);
    for i in 0..6u64 {
        let block = chain.block(i).unwrap();
        assert_eq!(block.number(), i);
        assert!(block.verify());
        if i == 0 {
            assert_eq!(block.signed.header.parent_digest, None);
        } else {
            let parent = chain.block(i - 1).unwrap();
            assert_eq!(block.signed.header.parent_digest, Some(parent.hash()));
            assert!(parent.signed.header.timestamp <= block.signed.header.timestamp);
        }
    }
    assert_eq!(chain.head(), chain.block(5));
}

#[test]
fn sealing_drains_both_pools() {
    let signer = Signer::random();
    let admitted = vec![
        withdrawal(&signer, 1),
        dynamic(&signer, 2),
        withdrawal(&signer, 3),
        dynamic(&signer, 4),
        dynamic(&signer, 5),
    ];
    let mut sequencer = Sequencer::new(signer);
    for tx in &admitted {
        sequencer.add_transaction(*tx);
    }
    let block = seal(&mut sequencer);
    assert!(sequencer.dynamic_pool().is_empty());
    assert!(sequencer.withdrawal_pool().is_empty());
    assert_eq!(
        block.transactions,
        vec![admitted[1], admitted[3], admitted[4], admitted[0], admitted[2]]
    );
    let next = seal(&mut sequencer);
    assert!(next.transactions.is_empty());
    assert_eq!(next.number(), 1);
}

#[test]
fn leaves_are_the_admission_history_by_kind() {
    let signer = Signer::random();
    let mut sequencer = Sequencer::new(signer);
    let mut dynamics = Vec::new();
    let mut withdrawals = Vec::new();
    for round in 0..3u64 {
        for i in 0..3u64 {
            let tx = Transaction::dynamic(sequencer.address(), 10 * round + i);
            dynamics.push(tx.hash());
            let signature = rollup::signer::Signature { r: [1; 32], s: [1; 32], recovery_id: 0 };
            sequencer.add_transaction(SignedTransaction { transaction: tx, signature });
            if i == 1 {
                let tx = Transaction::withdrawal(sequencer.address(), round, 7);
                withdrawals.push(tx.hash());
                sequencer.add_transaction(SignedTransaction { transaction: tx, signature });
            }
        }
        let block = seal(&mut sequencer);
        assert_eq!(block.signed.header.transactions_root, root_of(&dynamics));
        assert_eq!(block.signed.header.withdrawals_root, root_of(&withdrawals));
        assert_eq!(sequencer.blockchain().transaction_leaves(), &dynamics);
        assert_eq!(sequencer.blockchain().withdrawal_leaves(), &withdrawals);
    }
    let mut sealed_dynamic = Vec::new();
    let mut sealed_withdrawals = Vec::new();
    for i in 0..3 {
        let block = sequencer.blockchain().block(i).unwrap();
        for tx in &block.transactions {
            match tx.transaction {
                Transaction::Dynamic(_) => sealed_dynamic.push(tx.transaction.hash()),
                Transaction::Withdrawal(_) => sealed_withdrawals.push(tx.transaction.hash()),
            }
        }
    }
    assert_eq!(sealed_dynamic, dynamics);
    assert_eq!(sealed_withdrawals, withdrawals);
}
