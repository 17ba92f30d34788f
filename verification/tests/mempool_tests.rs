use sequencer::mempool::{Mempool, MempoolConfig, MempoolError, SimpleMempool};
use sequencer::types::{NamespaceId, Transaction};

fn make_tx(namespace: u64, nonce: u64) -> Transaction {
    Transaction {
        namespace: NamespaceId(namespace),
        gas_price: 1,
        nonce,
        payload: vec![],
        signature: vec![],
    }
}

#[test]
fn insert_and_get_batch_preserves_order() {
    let mut mp = SimpleMempool::default();

    let tx1 = make_tx(1, 1);
    let tx2 = make_tx(1, 2);
    let id1 = mp.insert(tx1.clone()).unwrap();
    let id2 = mp.insert(tx2.clone()).unwrap();

    let batch = mp.get_batch(10);
    assert_eq!(batch.len(), 2);
    assert_eq!(batch[0].0, id1);
    assert_eq!(batch[1].0, id2);
}

#[test]
fn remove_committed_evicts_from_mempool() {
    let mut mp = SimpleMempool::default();
    let tx1 = make_tx(1, 1);
    let tx2 = make_tx(2, 1);
    let id1 = mp.insert(tx1).unwrap();
    let id2 = mp.insert(tx2).unwrap();

    mp.remove_committed(&[id1]);
    assert_eq!(mp.len(), 1);

    let remaining: Vec<_> = mp.get_batch(10).into_iter().map(|(id, _)| id).collect();
    assert_eq!(remaining, vec![id2]);
}

#[test]
fn mempool_respects_capacity_limit() {
    let mut mp = SimpleMempool::new(MempoolConfig { max_tx: 1 });
    mp.insert(make_tx(1, 1)).unwrap();
    let res = mp.insert(make_tx(1, 2));
    assert!(matches!(res, Err(MempoolError::Full)));
}

#[test]
fn higher_gas_price_is_prioritized() {
    let mut mp = SimpleMempool::default();

    let mut tx_low = make_tx(1, 1);
    tx_low.gas_price = 1;
    let mut tx_high = make_tx(1, 2);
    tx_high.gas_price = 10;

    let id_low = mp.insert(tx_low).unwrap();
    let id_high = mp.insert(tx_high).unwrap();

    let batch = mp.get_batch(2);
    assert_eq!(batch.len(), 2);
    assert_eq!(batch[0].0, id_high);
    assert_eq!(batch[1].0, id_low);
}

fn priced(nonce: u64, gas_price: u64) -> Transaction {
    let mut tx = make_tx(1, nonce);
    tx.gas_price = gas_price;
    tx
}

#[test]
fn distinct_inserts_are_counted_and_repeats_are_not() {
    let mut mp = SimpleMempool::default();
    assert_eq!(mp.len(), 0);
    for n in 0..7 {
        mp.insert(make_tx(1, n)).unwrap();
        assert_eq!(mp.len(), (n + 1) as usize);
    }
    let id = mp.insert(make_tx(1, 3)).unwrap();
    assert_eq!(id, make_tx(1, 3).id());
    assert_eq!(mp.len(), 7);
    let ids: Vec<_> = mp.get_batch(10).into_iter().map(|(id, _)| id).collect();
    let expected: Vec<_> = (0..7).map(|n| make_tx(1, n).id()).collect();
    assert_eq!(ids, expected);
}

#[test]
fn insert_returns_the_id_of_the_transaction() {
    let mut mp = SimpleMempool::default();
    let tx = make_tx(9, 9);
    let id = mp.insert(tx.clone()).unwrap();
    assert_eq!(id, tx.id());
    let batch = mp.get_batch(1);
    assert_eq!(batch, vec![(id, tx)]);
}

#[test]
fn full_pool_refuses_even_what_it_holds() {
    let mut mp = SimpleMempool::new(MempoolConfig { max_tx: 2 });
    let a = mp.insert(make_tx(1, 1)).unwrap();
    let b = mp.insert(make_tx(1, 2)).unwrap();
    assert!(matches!(mp.insert(make_tx(1, 1)), Err(MempoolError::Full)));
    assert!(matches!(mp.insert(make_tx(1, 3)), Err(MempoolError::Full)));
    assert_eq!(mp.len(), 2);
    let ids: Vec<_> = mp.get_batch(10).into_iter().map(|(id, _)| id).collect();
    assert_eq!(ids, vec![a, b]);
}

#[test]
fn pool_of_no_capacity_takes_nothing() {
    let mut mp = SimpleMempool::new(MempoolConfig { max_tx: 0 });
    assert!(matches!(mp.insert(make_tx(1, 1)), Err(MempoolError::Full)));
    assert_eq!(mp.len(), 0);
    assert!(mp.get_batch(10).is_empty());
}

#[test]
fn default_capacity_is_ten_thousand() {
    assert_eq!(MempoolConfig::default().max_tx, 10_000);
}

#[test]
fn removing_makes_room_again() {
    let mut mp = SimpleMempool::new(MempoolConfig { max_tx: 1 });
    let a = mp.insert(make_tx(1, 1)).unwrap();
    mp.remove_committed(&[a]);
    assert_eq!(mp.len(), 0);
    let b = mp.insert(make_tx(1, 2)).unwrap();
    assert_eq!(mp.get_batch(5)[0].0, b);
}

#[test]
fn batch_of_zero_is_empty_and_batches_do_not_drain() {
    let mut mp = SimpleMempool::default();
    mp.insert(make_tx(1, 1)).unwrap();
    mp.insert(make_tx(1, 2)).unwrap();
    assert!(mp.get_batch(0).is_empty());
    let first = mp.get_batch(10);
    let second = mp.get_batch(10);
    assert_eq!(first, second);
    assert_eq!(mp.len(), 2);
}

#[test]
fn batch_takes_the_dearest_and_keeps_arrival_order_among_equals() {
    let mut mp = SimpleMempool::default();
    let prices = [5u64, 9, 5, 1, 9, 7, 5];
    let mut ids = Vec::new();
    for (n, p) in prices.iter().enumerate() {
        ids.push(mp.insert(priced(n as u64, *p)).unwrap());
    }
    let all: Vec<_> = mp.get_batch(100).into_iter().map(|(id, _)| id).collect();
    assert_eq!(all, vec![ids[1], ids[4], ids[5], ids[0], ids[2], ids[6], ids[3]]);
    let top3: Vec<_> = mp.get_batch(3).into_iter().map(|(id, _)| id).collect();
    assert_eq!(top3, vec![ids[1], ids[4], ids[5]]);
    let top4: Vec<_> = mp.get_batch(4).into_iter().map(|(id, _)| id).collect();
    assert_eq!(top4, vec![ids[1], ids[4], ids[5], ids[0]]);
    let top1 = mp.get_batch(1);
    assert_eq!(top1.len(), 1);
    assert_eq!(top1[0].1.gas_price, 9);
    assert_eq!(top1[0].1.nonce, 1);
}

#[test]
fn batch_agrees_with_a_stable_sort_by_price() {
    let mut mp = SimpleMempool::default();
    let mut entries = Vec::new();
    let mut seed: u64 = 12345;
    for n in 0..200u64 {
        seed = seed.wrapping_mul(6364136223846793005).wrapping_add(1442695040888963407);
        let tx = priced(n, (seed >> 60) % 7);
        let id = mp.insert(tx.clone()).unwrap();
        entries.push((id, tx));
    }
    let mut sorted = entries.clone();
    sorted.sort_by(|a, b| b.1.gas_price.cmp(&a.1.gas_price));
    for max in [0usize, 1, 2, 50, 100, 199, 200, 500] {
        let expected: Vec<_> = sorted.iter().take(max).cloned().collect();
        assert_eq!(mp.get_batch(max), expected);
    }
}

#[test]
fn remove_committed_keeps_the_rest_in_order() {
    let mut mp = SimpleMempool::default();
    let ids: Vec<_> = (0..6).map(|n| mp.insert(make_tx(n % 2, n)).unwrap()).collect();
    let stranger = make_tx(7, 7).id();
    mp.remove_committed(&[ids[4], stranger, ids[1], ids[4]]);
    assert_eq!(mp.len(), 4);
    let left: Vec<_> = mp.get_batch(10).into_iter().map(|(id, _)| id).collect();
    assert_eq!(left, vec![ids[0], ids[2], ids[3], ids[5]]);
    mp.remove_committed(&[]);
    assert_eq!(mp.len(), 4);
    let again = mp.insert(make_tx(1, 1)).unwrap();
    assert_eq!(again, ids[1]);
    assert_eq!(mp.len(), 5);
}

#[test]
fn mempool_error_reads_as_text() {
    assert_eq!(MempoolError::Full.to_string(), "mempool is full");
}

#[test]
fn a_full_pool_of_many_transactions_still_knows_each_of_them() {
    let mut mp = SimpleMempool::new(MempoolConfig { max_tx: 3000 });
    for n in 0..3000 {
        mp.insert(make_tx(n % 5, n)).unwrap();
    }
    assert_eq!(mp.len(), 3000);
    assert!(matches!(mp.insert(make_tx(9, 9)), Err(MempoolError::Full)));
    let gone: Vec<_> = (0..3000).filter(|n| n % 2 == 0).map(|n| make_tx(n % 5, n).id()).collect();
    mp.remove_committed(&gone);
    assert_eq!(mp.len(), 1500);
    for n in 0..50 {
        let id = mp.insert(make_tx(n % 5, n)).unwrap();
        assert_eq!(id, make_tx(n % 5, n).id());
    }
    assert_eq!(mp.len(), 1525);
    let batch = mp.get_batch(3);
    let ids: Vec<_> = batch.into_iter().map(|(id, _)| id).collect();
    assert_eq!(ids, vec![make_tx(1, 1).id(), make_tx(3, 3).id(), make_tx(0, 5).id()]);
}
