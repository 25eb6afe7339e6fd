use rollup::block::{Block, BlockHeader, SignedBlockHeader};
use rollup::signer::Signer;

#[test]
fn test_block_verify() {
    let signer = Signer::random();
    let header = BlockHeader {
        sequencer: signer.address(),
        number: 0,
        timestamp: 0,
        parent_digest: None,
        withdrawals_root: "0".to_string(),
        transactions_root: "0".to_string(),
    };
    let hash = header.hash();
    assert_eq!(hash, header.hash());

    let signed = SignedBlockHeader::new(header.clone(), &signer);
    let block = Block::new(signed, vec![]);
    assert!(block.verify());
}

fn header_for(signer: &Signer) -> BlockHeader {
    BlockHeader {
        sequencer: signer.address(),
        number: 0,
        timestamp: 0,
        parent_digest: None,
        withdrawals_root: "0".to_string(),
        transactions_root: "0".to_string(),
    }
}

#[test]
fn block_hash_is_header_hash() {
    let signer = Signer::random();
    let header = header_for(&signer);
    let signed = SignedBlockHeader::new(header.clone(), &signer);
    let block = Block::new(signed, vec![]);
    assert!(block.verify());
    assert_eq!(block.hash(), header.hash());
    assert_eq!(block.number(), 0);
}

#[test]
fn header_bytes_follow_declaration_order() {
    let header = BlockHeader {
        sequencer: rollup::address::Address([0xaa; 20]),
        number: 1,
        timestamp: 0x0102,
        parent_digest: None,
        withdrawals_root: "ab".to_string(),
        transactions_root: "".to_string(),
    };
    let mut expected = vec![0xaau8; 20];
    expected.extend_from_slice(&[1, 0, 0, 0, 0, 0, 0, 0]);
    expected.extend_from_slice(&[2, 1, 0, 0, 0, 0, 0, 0]);
    expected.push(0);
    expected.extend_from_slice(&[2, 0, 0, 0, 0, 0, 0, 0]);
    expected.extend_from_slice(b"ab");
    expected.extend_from_slice(&[0, 0, 0, 0, 0, 0, 0, 0]);
    assert_eq!(header.encode(), expected);
    assert_eq!(header.hash(), alloy_primitives::keccak256(&expected).0);
}

#[test]
fn header_bytes_with_parent_and_wide_characters() {
    let header = BlockHeader {
        sequencer: rollup::address::Address([0; 20]),
        number: u64::MAX,
        timestamp: 0,
        parent_digest: Some([0x77; 32]),
        withdrawals_root: "\u{e9}".to_string(),
        transactions_root: "\u{20ac}x".to_string(),
    };
    let mut expected = vec![0u8; 20];
    expected.extend_from_slice(&[0xff; 8]);
    expected.extend_from_slice(&[0; 8]);
    expected.push(1);
    expected.extend_from_slice(&[0x77; 32]);
    expected.extend_from_slice(&[2, 0, 0, 0, 0, 0, 0, 0]);
    expected.extend_from_slice(&[0xc3, 0xa9]);
    expected.extend_from_slice(&[4, 0, 0, 0, 0, 0, 0, 0]);
    expected.extend_from_slice(&[0xe2, 0x82, 0xac, b'x']);
    let mut out = vec![9u8];
    header.encode_into(&mut out);
    assert_eq!(out[0], 9);
    assert_eq!(out[1..], expected[..]);
    assert_eq!(header.hash(), alloy_primitives::keccak256(&expected).0);
}

#[test]
fn header_hash_depends_on_every_field() {
    let signer = Signer::random();
    let header = header_for(&signer);
    let hash = header.hash();
    assert_eq!(hash, header.clone().hash());
    assert_ne!(hash, BlockHeader { number: 1, ..header.clone() }.hash());
    assert_ne!(hash, BlockHeader { timestamp: 1, ..header.clone() }.hash());
    assert_ne!(hash, BlockHeader { parent_digest: Some([0; 32]), ..header.clone() }.hash());
    assert_ne!(hash, BlockHeader { withdrawals_root: "1".to_string(), ..header.clone() }.hash());
    assert_ne!(hash, BlockHeader { transactions_root: "1".to_string(), ..header.clone() }.hash());
    assert_ne!(
        hash,
        BlockHeader { sequencer: rollup::address::Address([1; 20]), ..header.clone() }.hash()
    );
    assert_ne!(
        BlockHeader {
            withdrawals_root: "a".to_string(),
            transactions_root: "".to_string(),
            ..header.clone()
        }
        .hash(),
        BlockHeader {
            withdrawals_root: "".to_string(),
            transactions_root: "a".to_string(),
            ..header.clone()
        }
        .hash()
    );
}

#[test]
fn signed_header_carries_the_signature_over_the_header_hash() {
    let signer = Signer::random();
    let header = header_for(&signer);
    let signed = SignedBlockHeader::new(header.clone(), &signer);
    assert_eq!(signed.header, header);
    assert_eq!(signed.signature, signer.sign(header.hash()));
    assert_eq!(signed.clone(), signed);
}

#[test]
fn block_of_another_sequencer_does_not_verify() {
    let signer = Signer::random();
    let other = Signer::random();
    let signed = SignedBlockHeader::new(header_for(&other), &signer);
    assert!(!Block::new(signed, vec![]).verify());
}

#[test]
fn tampering_with_a_block_header_is_detected() {
    let signer = Signer::random();
    let signed = SignedBlockHeader::new(header_for(&signer), &signer);
    let block = Block::new(signed, vec![]);
    assert!(block.verify());

    let mut changed = block.clone();
    changed.signed.header.number = 1;
    assert!(!changed.verify());

    let mut changed = block.clone();
    changed.signed.header.timestamp = 1;
    assert!(!changed.verify());

    let mut changed = block.clone();
    changed.signed.header.parent_digest = Some([0; 32]);
    assert!(!changed.verify());

    let mut changed = block.clone();
    changed.signed.header.withdrawals_root = "1".to_string();
    assert!(!changed.verify());

    let mut changed = block.clone();
    changed.signed.header.transactions_root = "00".to_string();
    assert!(!changed.verify());

    let mut changed = block.clone();
    changed.signed.header.sequencer = Signer::random().address();
    assert!(!changed.verify());

    let mut changed = block.clone();
    changed.signed.signature.r[0] ^= 1;
    assert!(!changed.verify());

    let mut changed = block;
    changed.signed.signature.recovery_id = 5;
    assert!(!changed.verify());
}

#[test]
fn the_transactions_are_not_part_of_the_block_hash() {
    let signer = Signer::random();
    let signed = SignedBlockHeader::new(header_for(&signer), &signer);
    let tx = rollup::transaction::SignedTransaction::new(
        rollup::transaction::Transaction::withdrawal(signer.address(), 1, 1),
        &signer,
    );
    let empty = Block::new(signed.clone(), vec![]);
    let full = Block::new(signed, vec![tx]);
    assert_eq!(empty.hash(), full.hash());
    assert!(full.verify());
    assert_ne!(empty, full);
    assert_eq!(full.transaction_digests(), vec![tx.transaction.hash()]);
    assert_eq!(empty.transaction_digests(), Vec::<[u8; 32]>::new());
}

#[test]
fn block_clone_is_equal() {
    let signer = Signer::random();
    let signed = SignedBlockHeader::new(header_for(&signer), &signer);
    let tx = rollup::transaction::SignedTransaction::new(
        rollup::transaction::Transaction::dynamic(signer.address(), 1),
        &signer,
    );
    let block = Block::new(signed, vec![tx, tx]);
    assert_eq!(block.clone(), block);
    assert_eq!(block.clone().transactions.len(), 2);
}

#[test]
fn block_bytes_are_signed_header_count_and_transactions() {
    let signer = Signer::random();
    let header = header_for(&signer);
    let signed = SignedBlockHeader::new(header.clone(), &signer);
    let a = rollup::transaction::SignedTransaction::new(
        rollup::transaction::Transaction::dynamic(signer.address(), 1),
        &signer,
    );
    let b = rollup::transaction::SignedTransaction::new(
        rollup::transaction::Transaction::withdrawal(signer.address(), 2, 3),
        &signer,
    );
    let block = Block::new(signed.clone(), vec![a, b]);
    let mut expected = header.encode();
    signed.signature.encode_into(&mut expected);
    expected.extend_from_slice(&[2, 0, 0, 0, 0, 0, 0, 0]);
    expected.extend_from_slice(&a.encode());
    expected.extend_from_slice(&b.encode());
    assert_eq!(block.encode(), expected);
    let empty = Block::new(signed, vec![]);
    assert_eq!(empty.encode().len(), header.encode().len() + 68 + 8);
}

#[test]
fn blocks_decode_from_their_bytes() {
    let signer = Signer::random();
    let header = BlockHeader {
        sequencer: signer.address(),
        number: 3,
        timestamp: 1_700_000_000,
        parent_digest: Some([0x5a; 32]),
        withdrawals_root: "\u{20ac}\u{e9}".to_string(),
        transactions_root: "c0ffee".to_string(),
    };
    let signed = SignedBlockHeader::new(header.clone(), &signer);
    let a = rollup::transaction::SignedTransaction::new(
        rollup::transaction::Transaction::dynamic(signer.address(), 1),
        &signer,
    );
    let b = rollup::transaction::SignedTransaction::new(
        rollup::transaction::Transaction::withdrawal(signer.address(), 2, 3),
        &signer,
    );
    for transactions in [vec![], vec![a], vec![b, a, b]] {
        let block = Block::new(signed.clone(), transactions);
        let bytes = block.encode();
        let decoded = Block::decode(&bytes);
        assert_eq!(decoded, Some(block));
        assert!(decoded.unwrap().verify());
    }
    let genesis = Block::new(SignedBlockHeader::new(header_for(&signer), &signer), vec![]);
    assert_eq!(Block::decode(&genesis.encode()), Some(genesis));
    let mut bytes = vec![0u8; 5];
    header.encode_into(&mut bytes);
    assert_eq!(BlockHeader::read(&bytes, 5), Some((header, bytes.len())));
}

#[test]
fn undecodable_block_bytes_are_rejected() {
    let signer = Signer::random();
    let signed = SignedBlockHeader::new(header_for(&signer), &signer);
    let tx = rollup::transaction::SignedTransaction::new(
        rollup::transaction::Transaction::dynamic(signer.address(), 1),
        &signer,
    );
    let block = Block::new(signed, vec![tx]);
    let bytes = block.encode();
    assert_eq!(Block::decode(&[]), None);
    assert_eq!(Block::decode(b"hello"), None);
    for cut in [1, 10, 36, 37, 50, 100, bytes.len() - 1] {
        assert_eq!(Block::decode(&bytes[..cut]), None);
    }
    let mut longer = bytes.clone();
    longer.push(0);
    assert_eq!(Block::decode(&longer), None);
    // An option tag that is neither zero nor one.
    let mut bad_tag = bytes.clone();
    bad_tag[36] = 2;
    assert_eq!(Block::decode(&bad_tag), None);
    // A parent that is announced but not there.
    let mut bad_tag = bytes.clone();
    bad_tag[36] = 1;
    assert_eq!(Block::decode(&bad_tag), None);
    // A root that is no UTF-8.
    let mut bad_text = bytes.clone();
    assert_eq!(bad_text[37..46], [1, 0, 0, 0, 0, 0, 0, 0, b'0']);
    bad_text[45] = 0xff;
    assert_eq!(Block::decode(&bad_text), None);
    // A root that claims more bytes than follow.
    let mut bad_length = bytes.clone();
    bad_length[44] = 0xff;
    assert_eq!(Block::decode(&bad_length), None);
    // More or fewer transactions than the count says.
    let count_at = 20 + 16 + 1 + 9 + 9 + 68;
    assert_eq!(bytes[count_at..count_at + 8], [1, 0, 0, 0, 0, 0, 0, 0]);
    let mut bad_count = bytes.clone();
    bad_count[count_at] = 2;
    assert_eq!(Block::decode(&bad_count), None);
    let mut bad_count = bytes.clone();
    bad_count[count_at] = 0;
    assert_eq!(Block::decode(&bad_count), None);
    let mut bad_count = bytes.clone();
    bad_count[count_at + 7] = 0xff;
    assert_eq!(Block::decode(&bad_count), None);
    // A transaction of an unknown kind.
    let mut bad_kind = bytes.clone();
    bad_kind[count_at + 8] = 9;
    assert_eq!(Block::decode(&bad_kind), None);
    assert!(Block::decode(&bytes).is_some());
}

#[test]
fn a_decoded_block_that_was_changed_on_the_way_does_not_verify() {
    let signer = Signer::random();
    let signed = SignedBlockHeader::new(header_for(&signer), &signer);
    let block = Block::new(signed, vec![]);
    let mut bytes = block.encode();
    bytes[20] ^= 1;
    let decoded = Block::decode(&bytes).unwrap();
    assert_eq!(decoded.number(), 1);
    assert!(!decoded.verify());
}
