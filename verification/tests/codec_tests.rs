use sequencer::codec::{
    decode_block, decode_transaction, encode_batch_commitment, encode_block_header,
    encode_transaction, encode_whole_block, u64_from_be, u64_to_be,
};
use sequencer::types;
use sequencer::types::{
    Block, BlockHeader, BlockId, L1BatchCommitment, NamespaceId, Transaction, TxId,
};

fn sample_tx() -> Transaction {
    Transaction {
        namespace: NamespaceId(1),
        gas_price: 10,
        nonce: 2,
        payload: vec![0xAA, 0xBB],
        signature: vec![0xCC],
    }
}

fn sample_header(parent: Option<BlockId>) -> BlockHeader {
    BlockHeader {
        height: 7,
        parent,
        tx_root: types::Hash([1u8; 32]),
        state_root: types::Hash([2u8; 32]),
        timestamp_ms: 9,
        proposer: [3u8; 32],
    }
}

#[test]
fn transaction_encoding_is_length_prefixed_little_endian() {
    let mut expected: Vec<u8> = Vec::new();
    expected.extend_from_slice(&[1, 0, 0, 0, 0, 0, 0, 0]);
    expected.extend_from_slice(&[10, 0, 0, 0, 0, 0, 0, 0]);
    expected.extend_from_slice(&[2, 0, 0, 0, 0, 0, 0, 0]);
    expected.extend_from_slice(&[2, 0, 0, 0, 0, 0, 0, 0]);
    expected.extend_from_slice(&[0xAA, 0xBB]);
    expected.extend_from_slice(&[1, 0, 0, 0, 0, 0, 0, 0]);
    expected.extend_from_slice(&[0xCC]);
    assert_eq!(encode_transaction(&sample_tx()), expected);
}

#[test]
fn empty_byte_strings_encode_as_zero_lengths() {
    let tx = Transaction {
        namespace: NamespaceId(0x0102030405060708),
        gas_price: 0,
        nonce: u64::MAX,
        payload: vec![],
        signature: vec![],
    };
    let mut expected: Vec<u8> = Vec::new();
    expected.extend_from_slice(&[8, 7, 6, 5, 4, 3, 2, 1]);
    expected.extend_from_slice(&[0; 8]);
    expected.extend_from_slice(&[0xFF; 8]);
    expected.extend_from_slice(&[0; 8]);
    expected.extend_from_slice(&[0; 8]);
    assert_eq!(encode_transaction(&tx), expected);
}

#[test]
fn transaction_decodes_to_what_was_encoded() {
    let tx = sample_tx();
    let bytes = encode_transaction(&tx);
    assert_eq!(decode_transaction(&bytes), Some(tx));
}

#[test]
fn transaction_decoding_refuses_other_bytes() {
    let bytes = encode_transaction(&sample_tx());
    assert_eq!(decode_transaction(&[]), None);
    assert_eq!(decode_transaction(&bytes[..bytes.len() - 1]), None);
    assert_eq!(decode_transaction(&bytes[..39]), None);
    let mut longer = bytes.clone();
    longer.push(0);
    assert_eq!(decode_transaction(&longer), None);
    let mut huge_len = bytes.clone();
    huge_len[31] = 0xFF;
    assert_eq!(decode_transaction(&huge_len), None);
}

#[test]
fn header_without_parent_encodes_in_113_bytes() {
    let mut expected: Vec<u8> = Vec::new();
    expected.extend_from_slice(&[7, 0, 0, 0, 0, 0, 0, 0]);
    expected.push(0);
    expected.extend_from_slice(&[1; 32]);
    expected.extend_from_slice(&[2; 32]);
    expected.extend_from_slice(&[9, 0, 0, 0, 0, 0, 0, 0]);
    expected.extend_from_slice(&[3; 32]);
    let bytes = encode_block_header(&sample_header(None));
    assert_eq!(bytes.len(), 113);
    assert_eq!(bytes, expected);
}

#[test]
fn header_with_parent_encodes_in_145_bytes() {
    let parent = BlockId(types::Hash([4u8; 32]));
    let mut expected: Vec<u8> = Vec::new();
    expected.extend_from_slice(&[7, 0, 0, 0, 0, 0, 0, 0]);
    expected.push(1);
    expected.extend_from_slice(&[4; 32]);
    expected.extend_from_slice(&[1; 32]);
    expected.extend_from_slice(&[2; 32]);
    expected.extend_from_slice(&[9, 0, 0, 0, 0, 0, 0, 0]);
    expected.extend_from_slice(&[3; 32]);
    let bytes = encode_block_header(&sample_header(Some(parent)));
    assert_eq!(bytes.len(), 145);
    assert_eq!(bytes, expected);
}

#[test]
fn block_encoding_is_header_count_and_ids() {
    let block = Block {
        header: sample_header(None),
        txs: vec![TxId(types::Hash([5u8; 32])), TxId(types::Hash([6u8; 32]))],
    };
    let mut expected = encode_block_header(&block.header);
    expected.extend_from_slice(&[2, 0, 0, 0, 0, 0, 0, 0]);
    expected.extend_from_slice(&[5; 32]);
    expected.extend_from_slice(&[6; 32]);
    assert_eq!(encode_whole_block(&block), expected);
}

#[test]
fn block_decodes_to_what_was_encoded() {
    let with_parent = Block {
        header: sample_header(Some(BlockId(types::Hash([4u8; 32])))),
        txs: vec![TxId(types::Hash([5u8; 32])), TxId(types::Hash([6u8; 32]))],
    };
    let bytes = encode_whole_block(&with_parent);
    assert_eq!(decode_block(&bytes), Some(with_parent));

    let without_parent = Block { header: sample_header(None), txs: vec![] };
    let bytes = encode_whole_block(&without_parent);
    assert_eq!(bytes.len(), 121);
    assert_eq!(decode_block(&bytes), Some(without_parent));
}

#[test]
fn block_decoding_refuses_other_bytes() {
    let block = Block {
        header: sample_header(None),
        txs: vec![TxId(types::Hash([5u8; 32]))],
    };
    let bytes = encode_whole_block(&block);
    assert_eq!(decode_block(&[]), None);
    assert_eq!(decode_block(&bytes[..bytes.len() - 1]), None);
    let mut longer = bytes.clone();
    longer.push(0);
    assert_eq!(decode_block(&longer), None);
    let mut bad_tag = bytes.clone();
    bad_tag[8] = 2;
    assert_eq!(decode_block(&bad_tag), None);
    let mut parent_tag = bytes.clone();
    parent_tag[8] = 1;
    assert_eq!(decode_block(&parent_tag), None);
    let mut wrong_count = bytes.clone();
    wrong_count[113] = 2;
    assert_eq!(decode_block(&wrong_count), None);
}

#[test]
fn commitment_encoding_is_number_count_and_ids() {
    let c = L1BatchCommitment {
        batch_number: 42,
        block_ids: vec![BlockId(types::Hash([7u8; 32]))],
    };
    let mut expected: Vec<u8> = Vec::new();
    expected.extend_from_slice(&[42, 0, 0, 0, 0, 0, 0, 0]);
    expected.extend_from_slice(&[1, 0, 0, 0, 0, 0, 0, 0]);
    expected.extend_from_slice(&[7; 32]);
    assert_eq!(encode_batch_commitment(&c), expected);
}

#[test]
fn height_keys_are_big_endian() {
    assert_eq!(u64_to_be(0x0102030405060708), vec![1, 2, 3, 4, 5, 6, 7, 8]);
    assert_eq!(u64_to_be(5), vec![0, 0, 0, 0, 0, 0, 0, 5]);
    assert_eq!(u64_from_be(&[1, 2, 3, 4, 5, 6, 7, 8]), 0x0102030405060708);
    assert_eq!(u64_from_be(&u64_to_be(u64::MAX)), u64::MAX);
}

#[test]
fn height_keys_sort_as_the_heights_do() {
    let heights = [0u64, 1, 255, 256, 65_535, 65_536, 1 << 40, u64::MAX];
    for a in heights {
        for b in heights {
            assert_eq!(u64_to_be(a) < u64_to_be(b), a < b);
        }
    }
}
