use sequencer::consensus::{
    build_l1_batch_commitment, ConsensusEngine, FinalityEvent, SingleNodeConsensus,
};
use sequencer::mempool::SimpleMempool;
use sequencer::storage::InMemoryStorage;
use sequencer::types::{BlockId, NamespaceId, Transaction};
use std::collections::HashMap;

fn make_tx(nonce: u64) -> Transaction {
    Transaction {
        namespace: NamespaceId(1),
        gas_price: 1,
        nonce,
        payload: vec![],
        signature: vec![],
    }
}

#[test]
fn single_node_commits_blocks_from_mempool() {
    let mempool = SimpleMempool::default();
    let storage = InMemoryStorage::default();
    let mut engine = SingleNodeConsensus::new(mempool, storage);

    // Submit a few transactions.
    for i in 0..3 {
        engine.submit_tx(make_tx(i)).unwrap();
    }

    // One step should commit at least one block.
    let event = engine.step().unwrap();
    match event {
        Some(FinalityEvent::BlockCommitted { block, qc }) => {
            assert_eq!(block.header.height, 1);
            assert_eq!(qc.block_id, block.header.id());
        }
        _ => panic!("expected committed block"),
    }
}

#[test]
fn committed_block_heights_are_strictly_increasing() {
    let mempool = SimpleMempool::default();
    let storage = InMemoryStorage::default();
    let mut engine = SingleNodeConsensus::new(mempool, storage);

    // Submit several transactions so multiple blocks can be produced.
    for i in 0..5 {
        engine.submit_tx(make_tx(i)).unwrap();
    }

    let mut last_height = 0u64;
    for _ in 0..5 {
        if let Some(FinalityEvent::BlockCommitted { block, .. }) = engine.step().unwrap() {
            assert!(block.header.height > last_height);
            last_height = block.header.height;
        }
    }
}

#[test]
fn no_two_distinct_blocks_at_same_height() {
    let mempool = SimpleMempool::default();
    let storage = InMemoryStorage::default();
    let mut engine = SingleNodeConsensus::new(mempool, storage);

    // Pre-fill enough transactions for several blocks.
    for i in 0..10 {
        engine.submit_tx(make_tx(i)).unwrap();
    }

    let mut by_height: HashMap<u64, BlockId> = HashMap::new();

    for _ in 0..10 {
        if let Some(FinalityEvent::BlockCommitted { block, .. }) = engine.step().unwrap() {
            let h = block.header.height;
            let id = block.header.id();
            if let Some(existing) = by_height.get(&h) {
                assert_eq!(*existing, id, "two distinct blocks at same height");
            } else {
                by_height.insert(h, id);
            }
        }
    }
}

#[test]
fn l1_batch_commitment_covers_committed_blocks() {
    let mempool = SimpleMempool::default();
    let storage = InMemoryStorage::default();
    let mut engine = SingleNodeConsensus::new(mempool, storage);

    // Submit a few transactions so at least one block is produced.
    for i in 0..3 {
        engine.submit_tx(make_tx(i)).unwrap();
    }

    let mut committed_blocks = Vec::new();
    if let Some(FinalityEvent::BlockCommitted { block, .. }) = engine.step().unwrap() {
        committed_blocks.push(block);
    }

    assert!(!committed_blocks.is_empty());

    let batch = build_l1_batch_commitment(0, &committed_blocks);
    assert_eq!(batch.batch_number, 0);
    assert_eq!(batch.block_ids.len(), committed_blocks.len());
    assert_eq!(batch.block_ids[0], committed_blocks[0].header.id());

    // The batch hash is deterministic.
    let h1 = batch.hash();
    let h2 = batch.hash();
    assert_eq!(h1, h2);
}

use sequencer::consensus::{settle, ConsensusError, QuorumCertificate, ViewNumber, BATCH_SIZE};
use sequencer::merkle::merkle_root;
use sequencer::mempool::MempoolConfig;
use sequencer::storage::{BlockStore, StorageError};
use sequencer::types;
use sequencer::types::Block;

fn priced(nonce: u64, gas_price: u64) -> Transaction {
    let mut tx = make_tx(nonce);
    tx.gas_price = gas_price;
    tx
}

fn committed(event: Option<FinalityEvent>) -> (Block, QuorumCertificate) {
    match event {
        Some(FinalityEvent::BlockCommitted { block, qc }) => (block, qc),
        None => panic!("expected committed block"),
    }
}

#[test]
fn first_block_has_height_one_and_no_parent() {
    let mut engine = SingleNodeConsensus::default();
    let mut ids = Vec::new();
    for i in 0..3 {
        ids.push(engine.submit_tx(make_tx(i)).unwrap());
    }
    let (block, qc) = committed(engine.step_at(77).unwrap());
    assert_eq!(block.header.height, 1);
    assert_eq!(block.header.parent, None);
    assert_eq!(block.header.timestamp_ms, 77);
    assert_eq!(block.header.state_root, types::Hash([0u8; 32]));
    assert_eq!(block.header.proposer, [0u8; 32]);
    assert_eq!(block.txs, ids);
    assert_eq!(block.header.tx_root, merkle_root(&ids));
    assert_eq!(qc.block_id, block.header.id());
    assert_eq!(qc.view, ViewNumber(1));
}

#[test]
fn step_on_an_empty_mempool_reports_nothing_but_counts_the_round() {
    let mut engine = SingleNodeConsensus::default();
    assert_eq!(engine.step_at(1).unwrap(), None);
    assert_eq!(engine.step().unwrap(), None);
    engine.submit_tx(make_tx(0)).unwrap();
    let (block, qc) = committed(engine.step_at(3).unwrap());
    assert_eq!(block.header.height, 1);
    assert_eq!(block.header.parent, None);
    assert_eq!(qc.view, ViewNumber(3));
}

#[test]
fn blocks_form_a_chain_without_gaps() {
    let mut engine = SingleNodeConsensus::default();
    for i in 0..5 {
        engine.submit_tx(make_tx(i)).unwrap();
    }
    let mut parent = None;
    for k in 1..=5u64 {
        let (block, qc) = committed(engine.step_at(k * 500).unwrap());
        assert_eq!(block.header.height, k);
        assert_eq!(block.header.parent, parent);
        assert_eq!(block.header.tx_root, merkle_root(&block.txs));
        assert_eq!(qc.view, ViewNumber(k));
        assert_eq!(qc.block_id, block.header.id());
        parent = Some(block.header.id());
    }
}

#[test]
fn committed_blocks_are_in_the_store_before_they_are_reported() {
    let mut engine = SingleNodeConsensus::default();
    engine.submit_tx(make_tx(0)).unwrap();
    let (first, _) = committed(engine.step_at(1).unwrap());
    assert_eq!(engine.storage().get_block(first.header.id()).unwrap(), first);
    assert_eq!(engine.storage().get_block_by_height(1).unwrap(), first);
    let (second, _) = committed(engine.step_at(2).unwrap());
    assert_eq!(engine.storage().get_block_by_height(2).unwrap(), second);
    assert_eq!(engine.storage().get_block_by_height(1).unwrap(), first);
}

#[test]
fn blocks_take_the_dearest_transactions_first() {
    let mut engine = SingleNodeConsensus::default();
    let low = engine.submit_tx(priced(1, 1)).unwrap();
    let high = engine.submit_tx(priced(2, 10)).unwrap();
    let mid = engine.submit_tx(priced(3, 5)).unwrap();
    let (block, _) = committed(engine.step_at(0).unwrap());
    assert_eq!(block.txs, vec![high, mid, low]);
}

#[test]
fn a_block_holds_at_most_the_batch_size() {
    assert_eq!(BATCH_SIZE, 100);
    let mut engine = SingleNodeConsensus::default();
    let mut ids = Vec::new();
    for i in 0..130 {
        ids.push(engine.submit_tx(make_tx(i)).unwrap());
    }
    let (block, _) = committed(engine.step_at(0).unwrap());
    assert_eq!(block.txs.len(), 100);
    assert_eq!(block.txs, ids[..100].to_vec());
}

#[test]
fn committed_transactions_stay_pending_until_removed() {
    let mut engine = SingleNodeConsensus::default();
    let a = engine.submit_tx(make_tx(0)).unwrap();
    let (first, _) = committed(engine.step_at(1).unwrap());
    let (second, _) = committed(engine.step_at(2).unwrap());
    assert_eq!(first.txs, vec![a]);
    assert_eq!(second.txs, vec![a]);
    engine.remove_committed(&second.txs);
    assert_eq!(engine.step_at(3).unwrap(), None);
    let b = engine.submit_tx(make_tx(1)).unwrap();
    let (third, qc) = committed(engine.step_at(4).unwrap());
    assert_eq!(third.txs, vec![b]);
    assert_eq!(third.header.height, 3);
    assert_eq!(third.header.parent, Some(second.header.id()));
    assert_eq!(qc.view, ViewNumber(4));
}

#[test]
fn submitting_twice_gives_the_same_id_once() {
    let mut engine = SingleNodeConsensus::default();
    let a = engine.submit_tx(make_tx(0)).unwrap();
    let again = engine.submit_tx(make_tx(0)).unwrap();
    assert_eq!(a, again);
    assert_eq!(a, make_tx(0).id());
    let (block, _) = committed(engine.step_at(0).unwrap());
    assert_eq!(block.txs, vec![a]);
}

#[test]
fn full_mempool_surfaces_as_a_mempool_error() {
    let mempool = SimpleMempool::new(MempoolConfig { max_tx: 1 });
    let mut engine = SingleNodeConsensus::new(mempool, InMemoryStorage::default());
    engine.submit_tx(make_tx(0)).unwrap();
    match engine.submit_tx(make_tx(1)) {
        Err(ConsensusError::Mempool(msg)) => assert_eq!(msg, "mempool is full"),
        _ => panic!("expected a mempool error"),
    }
    let (block, _) = committed(engine.step_at(0).unwrap());
    assert_eq!(block.txs.len(), 1);
}

#[test]
fn failed_write_is_reported_as_a_storage_error() {
    let block = Block {
        header: sequencer::types::BlockHeader {
            height: 1,
            parent: None,
            tx_root: types::Hash([0u8; 32]),
            state_root: types::Hash([0u8; 32]),
            timestamp_ms: 0,
            proposer: [0u8; 32],
        },
        txs: vec![],
    };
    let failed = Err(StorageError::Backend("disk full".to_string()));
    match settle(block.clone(), ViewNumber(4), failed) {
        Err(ConsensusError::Storage(msg)) => assert_eq!(msg, "backend error: disk full"),
        _ => panic!("expected a storage error"),
    }
    match settle(block.clone(), ViewNumber(4), Ok(())) {
        Ok(FinalityEvent::BlockCommitted { block: b, qc }) => {
            assert_eq!(b, block);
            assert_eq!(qc, QuorumCertificate { view: ViewNumber(4), block_id: block.header.id() });
        }
        Err(_) => panic!("expected a committed block"),
    }
    let text = ConsensusError::from(StorageError::Backend("disk full".to_string())).to_string();
    assert_eq!(text, "storage error: backend error: disk full");
}

#[test]
fn storage_errors_convert_to_consensus_errors() {
    match ConsensusError::from(StorageError::NotFound) {
        ConsensusError::Storage(msg) => assert_eq!(msg, "not found"),
        ConsensusError::Mempool(_) => panic!("expected a storage error"),
    }
    assert_eq!(
        ConsensusError::Mempool("mempool is full".to_string()).to_string(),
        "mempool error: mempool is full"
    );
}

#[test]
fn engine_runs_on_the_durable_store() {
    let dir = tempfile::tempdir().unwrap();
    let store = sequencer::sled_store::SledStorage::open(dir.path().to_str().unwrap()).unwrap();
    let mut engine = SingleNodeConsensus::new(SimpleMempool::default(), store);
    engine.submit_tx(make_tx(0)).unwrap();
    let (first, _) = committed(engine.step_at(10).unwrap());
    let (second, _) = committed(engine.step_at(20).unwrap());
    assert_eq!(second.header.parent, Some(first.header.id()));
    assert_eq!(engine.storage().get_block_by_height(2).unwrap(), second);
    assert_eq!(engine.storage().get_block(first.header.id()).unwrap(), first);
}

#[test]
fn l1_batch_lists_the_block_ids_in_order() {
    let mut engine = SingleNodeConsensus::default();
    engine.submit_tx(make_tx(0)).unwrap();
    let (first, _) = committed(engine.step_at(1).unwrap());
    let (second, _) = committed(engine.step_at(2).unwrap());
    let blocks = vec![first, second];
    let batch = build_l1_batch_commitment(42, &blocks);
    assert_eq!(batch.batch_number, 42);
    assert_eq!(batch.block_ids, vec![blocks[0].header.id(), blocks[1].header.id()]);
    assert_eq!(batch.hash(), build_l1_batch_commitment(42, &blocks).hash());
    assert_ne!(batch.hash(), build_l1_batch_commitment(43, &blocks).hash());
    let none = build_l1_batch_commitment(1, &[]);
    assert!(none.block_ids.is_empty());
}

#[test]
fn l1_batch_over_one_committed_block() {
    let mut engine = SingleNodeConsensus::default();
    for i in 0..3 {
        engine.submit_tx(make_tx(i)).unwrap();
    }
    let (block, _) = committed(engine.step().unwrap());
    let blocks = vec![block];
    let batch = build_l1_batch_commitment(42, &blocks);
    assert_eq!(batch.batch_number, 42);
    assert_eq!(batch.block_ids, vec![blocks[0].header.id()]);
    let again = build_l1_batch_commitment(42, &blocks);
    assert_eq!(batch.hash(), again.hash());
}

#[test]
fn step_stamps_the_block_with_the_wall_clock() {
    let mut engine = SingleNodeConsensus::default();
    engine.submit_tx(make_tx(0)).unwrap();
    let before = std::time::SystemTime::now()
        .duration_since(std::time::UNIX_EPOCH)
        .unwrap()
        .as_millis() as u64;
    let (block, _) = committed(engine.step().unwrap());
    let after = std::time::SystemTime::now()
        .duration_since(std::time::UNIX_EPOCH)
        .unwrap()
        .as_millis() as u64;
    assert!(before <= block.header.timestamp_ms);
    assert!(block.header.timestamp_ms <= after);
}
