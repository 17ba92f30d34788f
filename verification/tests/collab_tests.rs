use sequencer::consensus::{ConsensusError, FinalityEvent, SingleNodeConsensus};
use sequencer::mempool::{MempoolConfig, SimpleMempool};
use sequencer::networking::{handle_gossip, GossipMessage};
use sequencer::rpc::{handle_submit_tx, hex_text, transaction_of, SubmitTxRequest};
use sequencer::storage::InMemoryStorage;
use sequencer::types;
use sequencer::types::{Block, BlockHeader, NamespaceId, Transaction};

fn request(nonce: u64, payload: &str) -> SubmitTxRequest {
    SubmitTxRequest { namespace: 3, gas_price: 4, nonce, payload: payload.to_string() }
}

fn lower_hex(bytes: &[u8]) -> String {
    let mut text = String::new();
    for b in bytes {
        text.push_str(&format!("{:02x}", b));
    }
    text
}

#[test]
fn request_becomes_an_unsigned_transaction() {
    let tx = transaction_of(&request(5, "héllo"));
    let expected = Transaction {
        namespace: NamespaceId(3),
        gas_price: 4,
        nonce: 5,
        payload: "héllo".as_bytes().to_vec(),
        signature: vec![],
    };
    assert_eq!(tx, expected);
    assert_eq!(tx.payload.len(), 6);
}

#[test]
fn submission_is_answered_with_the_id_in_hex() {
    let mut engine = SingleNodeConsensus::default();
    let req = request(1, "abc");
    let response = handle_submit_tx(&mut engine, &req).unwrap();
    let id = transaction_of(&req).id();
    assert_eq!(response.tx_id.len(), 64);
    assert_eq!(response.tx_id, lower_hex(&id.0 .0));
    match engine.step_at(0).unwrap() {
        Some(FinalityEvent::BlockCommitted { block, .. }) => assert_eq!(block.txs, vec![id]),
        None => panic!("expected committed block"),
    }
}

#[test]
fn submission_to_a_full_mempool_fails() {
    let mempool = SimpleMempool::new(MempoolConfig { max_tx: 0 });
    let mut engine = SingleNodeConsensus::new(mempool, InMemoryStorage::default());
    match handle_submit_tx(&mut engine, &request(1, "")) {
        Err(ConsensusError::Mempool(msg)) => assert_eq!(msg, "mempool is full"),
        _ => panic!("expected a mempool error"),
    }
}

#[test]
fn gossiped_transaction_is_submitted() {
    let mut engine = SingleNodeConsensus::default();
    let tx = transaction_of(&request(2, "from a peer"));
    let id = tx.id();
    match handle_gossip(&mut engine, GossipMessage::Tx(tx)) {
        Some(Ok(got)) => assert_eq!(got, id),
        _ => panic!("expected the id of the transaction"),
    }
    match engine.step_at(0).unwrap() {
        Some(FinalityEvent::BlockCommitted { block, .. }) => assert_eq!(block.txs, vec![id]),
        None => panic!("expected committed block"),
    }
}

#[test]
fn gossiped_block_is_not_imported() {
    let mut engine = SingleNodeConsensus::default();
    let block = Block {
        header: BlockHeader {
            height: 1,
            parent: None,
            tx_root: types::Hash([0u8; 32]),
            state_root: types::Hash([0u8; 32]),
            timestamp_ms: 0,
            proposer: [0u8; 32],
        },
        txs: vec![],
    };
    assert!(handle_gossip(&mut engine, GossipMessage::Block(block)).is_none());
    assert_eq!(engine.last_height(), 0);
    assert_eq!(engine.last_block_id(), None);
    assert_eq!(engine.step_at(0).unwrap(), None);
}

#[test]
fn hex_text_is_two_lower_case_digits_a_byte() {
    assert_eq!(hex_text(&[]), "");
    assert_eq!(hex_text(&[0]), "00");
    assert_eq!(hex_text(&[1, 2, 3, 15, 16]), "0102030f10");
    assert_eq!(hex_text(&[0xab, 0xcd, 0xef, 0x09, 0x90, 0xff]), "abcdef0990ff");
    assert_eq!(hex_text(b"Hello world!"), "48656c6c6f20776f726c6421");
}

#[test]
fn hex_text_agrees_with_the_hex_crate_on_every_byte() {
    let all: Vec<u8> = (0..=255u8).collect();
    assert_eq!(hex_text(&all), hex::encode(&all));
    assert_eq!(hex_text(&all).len(), 512);
}
