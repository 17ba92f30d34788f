use sequencer::merkle::{merkle_proof, merkle_root, verify_merkle_proof};
use sequencer::types;
use sequencer::types::{hash_bytes, BlockHeader, NamespaceId, Transaction};

#[test]
fn hash_bytes_is_deterministic() {
    let data = b"hello world";
    let h1 = hash_bytes(data);
    let h2 = hash_bytes(data);
    assert_eq!(h1, h2);
}

#[test]
fn hash_bytes_is_sensitive_to_input() {
    let h1 = hash_bytes(b"hello world");
    let h2 = hash_bytes(b"hello world!");
    assert_ne!(h1, h2);
}

#[test]
fn transaction_id_stable_for_same_content() {
    let tx1 = Transaction {
        namespace: NamespaceId(1),
        gas_price: 10,
        nonce: 1,
        payload: b"abc".to_vec(),
        signature: vec![],
    };
    let tx2 = Transaction { ..tx1.clone() };
    assert_eq!(tx1.id(), tx2.id());
}

#[test]
fn block_header_id_changes_with_height() {
    let header1 = BlockHeader {
        height: 1,
        parent: None,
        tx_root: hash_bytes(b"tx_root"),
        state_root: hash_bytes(b"state_root"),
        timestamp_ms: 0,
        proposer: [0u8; 32],
    };

    let mut header2 = header1.clone();
    header2.height = 2;

    assert_ne!(header1.id(), header2.id());
}

#[test]
fn merkle_root_empty_is_zero() {
    let root = merkle_root(&[]);
    assert_eq!(root, types::Hash([0u8; 32]));
}

#[test]
fn merkle_proof_roundtrip() {
    let txs: Vec<_> = (0u8..4)
        .map(|i| {
            let tx = Transaction {
                namespace: NamespaceId(1),
                gas_price: 1,
                nonce: i as u64,
                payload: vec![i],
                signature: vec![],
            };
            tx.id()
        })
        .collect();

    let root = merkle_root(&txs);
    for (idx, tx_id) in txs.iter().enumerate() {
        let proof = merkle_proof(&txs, idx).expect("proof exists");
        assert!(verify_merkle_proof(root, *tx_id, &proof));
    }
}

fn id_of(nonce: u64) -> sequencer::types::TxId {
    Transaction {
        namespace: NamespaceId(1),
        gas_price: 1,
        nonce,
        payload: vec![],
        signature: vec![],
    }
    .id()
}

fn pair(left: &types::Hash, right: &types::Hash) -> types::Hash {
    let mut data = Vec::new();
    data.extend_from_slice(&left.0);
    data.extend_from_slice(&right.0);
    hash_bytes(&data)
}

#[test]
fn hash_of_empty_input_is_the_blake3_digest() {
    let expected: [u8; 32] = [
        0xaf, 0x13, 0x49, 0xb9, 0xf5, 0xf9, 0xa1, 0xa6, 0xa0, 0x40, 0x4d, 0xea, 0x36, 0xdc, 0xc9,
        0x49, 0x9b, 0xcb, 0x25, 0xc9, 0xad, 0xc1, 0x12, 0xb7, 0xcc, 0x9a, 0x93, 0xca, 0xe4, 0x1f,
        0x32, 0x62,
    ];
    assert_eq!(hash_bytes(&[]), types::Hash(expected));
    assert_ne!(hash_bytes(&[]), types::Hash([0u8; 32]));
}

#[test]
fn hash_bytes_agrees_with_blake3() {
    let data = b"rollup sequencer";
    assert_eq!(hash_bytes(data).0, *blake3::hash(data).as_bytes());
}

#[test]
fn transaction_id_is_the_hash_of_the_encoding() {
    let tx = Transaction {
        namespace: NamespaceId(3),
        gas_price: 4,
        nonce: 5,
        payload: vec![1, 2, 3],
        signature: vec![9],
    };
    let encoded = sequencer::codec::encode_transaction(&tx);
    assert_eq!(tx.id().0, hash_bytes(&encoded));
}

#[test]
fn transaction_id_changes_with_each_field() {
    let base = Transaction {
        namespace: NamespaceId(1),
        gas_price: 1,
        nonce: 1,
        payload: vec![1],
        signature: vec![1],
    };
    let mut other = base.clone();
    other.namespace = NamespaceId(2);
    assert_ne!(base.id(), other.id());
    let mut other = base.clone();
    other.gas_price = 2;
    assert_ne!(base.id(), other.id());
    let mut other = base.clone();
    other.nonce = 2;
    assert_ne!(base.id(), other.id());
    let mut other = base.clone();
    other.payload = vec![1, 1];
    other.signature = vec![];
    assert_ne!(base.id(), other.id());
    let mut other = base.clone();
    other.signature = vec![2];
    assert_ne!(base.id(), other.id());
}

#[test]
fn transaction_id_survives_a_round_trip_through_the_encoding() {
    let tx = Transaction {
        namespace: NamespaceId(8),
        gas_price: 7,
        nonce: 6,
        payload: b"payload".to_vec(),
        signature: b"sig".to_vec(),
    };
    let bytes = sequencer::codec::encode_transaction(&tx);
    let back = sequencer::codec::decode_transaction(&bytes).unwrap();
    assert_eq!(back.id(), tx.id());
}

#[test]
fn block_header_id_is_the_hash_of_the_encoding() {
    let header = BlockHeader {
        height: 3,
        parent: Some(sequencer::types::BlockId(hash_bytes(b"parent"))),
        tx_root: hash_bytes(b"tx_root"),
        state_root: types::Hash([0u8; 32]),
        timestamp_ms: 1234,
        proposer: [7u8; 32],
    };
    let encoded = sequencer::codec::encode_block_header(&header);
    assert_eq!(header.id().0, hash_bytes(&encoded));
}

#[test]
fn merkle_root_of_one_leaf_is_the_leaf() {
    let a = id_of(0);
    assert_eq!(merkle_root(&[a]), a.0);
}

#[test]
fn merkle_root_of_two_leaves_is_their_pair_hash() {
    let a = id_of(0);
    let b = id_of(1);
    assert_eq!(merkle_root(&[a, b]), pair(&a.0, &b.0));
    assert_ne!(merkle_root(&[a, b]), merkle_root(&[b, a]));
}

#[test]
fn merkle_root_of_three_leaves_doubles_the_last() {
    let a = id_of(0);
    let b = id_of(1);
    let c = id_of(2);
    let expected = pair(&pair(&a.0, &b.0), &pair(&c.0, &c.0));
    assert_eq!(merkle_root(&[a, b, c]), expected);
}

#[test]
fn merkle_root_of_five_leaves_doubles_at_two_levels() {
    let l: Vec<_> = (0..5).map(id_of).collect();
    let ab = pair(&l[0].0, &l[1].0);
    let cd = pair(&l[2].0, &l[3].0);
    let ee = pair(&l[4].0, &l[4].0);
    let expected = pair(&pair(&ab, &cd), &pair(&ee, &ee));
    assert_eq!(merkle_root(&l), expected);
}

#[test]
fn merkle_proof_lists_siblings_bottom_up() {
    let l: Vec<_> = (0..3).map(id_of).collect();
    let proof = merkle_proof(&l, 2).unwrap();
    assert_eq!(proof.index, 2);
    assert_eq!(proof.siblings, vec![l[2].0, pair(&l[0].0, &l[1].0)]);
    let proof = merkle_proof(&l, 1).unwrap();
    assert_eq!(proof.index, 1);
    assert_eq!(proof.siblings, vec![l[0].0, pair(&l[2].0, &l[2].0)]);
}

#[test]
fn merkle_proof_of_a_single_leaf_has_no_siblings() {
    let a = id_of(0);
    let proof = merkle_proof(&[a], 0).unwrap();
    assert_eq!(proof.index, 0);
    assert!(proof.siblings.is_empty());
    assert!(verify_merkle_proof(merkle_root(&[a]), a, &proof));
}

#[test]
fn merkle_proof_is_none_without_such_a_leaf() {
    let l: Vec<_> = (0..3).map(id_of).collect();
    assert!(merkle_proof(&[], 0).is_none());
    assert!(merkle_proof(&l, 3).is_none());
    assert!(merkle_proof(&l, usize::MAX).is_none());
}

#[test]
fn merkle_proofs_verify_for_every_size_and_leaf() {
    for n in 1..20u64 {
        let l: Vec<_> = (0..n).map(id_of).collect();
        let root = merkle_root(&l);
        for (i, leaf) in l.iter().enumerate() {
            let proof = merkle_proof(&l, i).unwrap();
            assert!(verify_merkle_proof(root, *leaf, &proof));
            assert_eq!(
                sequencer::merkle::check_merkle_proof(root, *leaf, &proof),
                Ok(true)
            );
        }
    }
}

#[test]
fn merkle_proof_fails_for_another_leaf_or_root() {
    let l: Vec<_> = (0..4).map(id_of).collect();
    let root = merkle_root(&l);
    let proof = merkle_proof(&l, 1).unwrap();
    assert!(!verify_merkle_proof(root, l[2], &proof));
    assert!(!verify_merkle_proof(types::Hash([0u8; 32]), l[1], &proof));
    let mut moved = proof.clone();
    moved.index = 0;
    assert!(!verify_merkle_proof(root, l[1], &moved));
}

#[test]
fn proof_with_too_few_siblings_is_malformed() {
    let l: Vec<_> = (0..4).map(id_of).collect();
    let root = merkle_root(&l);
    let mut proof = merkle_proof(&l, 3).unwrap();
    proof.siblings.pop();
    assert_eq!(
        sequencer::merkle::check_merkle_proof(root, l[3], &proof),
        Err(sequencer::types::TypesError::MalformedProof)
    );
    let empty = sequencer::types::MerkleProof { index: 1, siblings: vec![] };
    assert_eq!(
        sequencer::merkle::check_merkle_proof(root, l[1], &empty),
        Err(sequencer::types::TypesError::MalformedProof)
    );
    let root_only = sequencer::types::MerkleProof { index: 0, siblings: vec![] };
    assert_eq!(
        sequencer::merkle::check_merkle_proof(l[0].0, l[0], &root_only),
        Ok(true)
    );
}

#[test]
fn commitment_hash_depends_on_number_and_blocks() {
    let a = sequencer::types::BlockId(hash_bytes(b"a"));
    let b = sequencer::types::BlockId(hash_bytes(b"b"));
    let c1 = sequencer::types::L1BatchCommitment { batch_number: 1, block_ids: vec![a, b] };
    let c2 = sequencer::types::L1BatchCommitment { batch_number: 2, block_ids: vec![a, b] };
    let c3 = sequencer::types::L1BatchCommitment { batch_number: 1, block_ids: vec![b, a] };
    assert_eq!(c1.hash(), c1.clone().hash());
    assert_ne!(c1.hash(), c2.hash());
    assert_ne!(c1.hash(), c3.hash());
    let encoded = sequencer::codec::encode_batch_commitment(&c1);
    assert_eq!(c1.hash(), hash_bytes(&encoded));
}

#[test]
fn hashes_are_ordered_byte_by_byte() {
    let mut low = [0u8; 32];
    let mut high = [0u8; 32];
    low[31] = 0xFF;
    high[0] = 1;
    assert!(types::Hash(low) < types::Hash(high));
    assert!(types::Hash([0u8; 32]) < types::Hash(low));
    assert!(types::Hash(high) > types::Hash(low));
    assert_eq!(types::Hash(low), types::Hash(low));
    assert!(sequencer::types::TxId(types::Hash(low)) < sequencer::types::TxId(types::Hash(high)));
}

#[test]
fn verification_refuses_a_malformed_proof() {
    let root = types::Hash([7u8; 32]);
    let leaf = sequencer::types::TxId(types::Hash([7u8; 32]));
    let malformed = sequencer::types::MerkleProof { index: 1, siblings: vec![] };
    assert!(!verify_merkle_proof(root, leaf, &malformed));
    let alone = sequencer::types::MerkleProof { index: 0, siblings: vec![] };
    assert!(verify_merkle_proof(root, leaf, &alone));

    let l: Vec<_> = (0..4).map(id_of).collect();
    let tree_root = merkle_root(&l);
    let mut cut = merkle_proof(&l, 3).unwrap();
    cut.siblings.pop();
    assert!(!verify_merkle_proof(tree_root, l[3], &cut));
    assert!(!verify_merkle_proof(pair(&l[2].0, &l[3].0), l[3], &cut));
    let mut far = merkle_proof(&l, 3).unwrap();
    far.index = 4;
    assert!(!verify_merkle_proof(tree_root, l[3], &far));
    far.index = u32::MAX;
    assert!(!verify_merkle_proof(tree_root, l[3], &far));
}

#[test]
fn well_formed_proofs_have_an_index_below_two_to_the_depth() {
    use_well_formed(0, 0, true);
    use_well_formed(1, 0, false);
    use_well_formed(1, 1, true);
    use_well_formed(2, 1, false);
    use_well_formed(7, 3, true);
    use_well_formed(8, 3, false);
    use_well_formed(u32::MAX, 31, false);
    use_well_formed(u32::MAX, 32, true);
    use_well_formed(u32::MAX, 40, true);
}

fn use_well_formed(index: u32, depth: usize, expected: bool) {
    let proof = sequencer::types::MerkleProof {
        index,
        siblings: vec![types::Hash([0u8; 32]); depth],
    };
    assert_eq!(sequencer::merkle::is_well_formed(&proof), expected);
}
