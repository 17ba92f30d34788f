//! The canonical binary encoding: integers as eight little-endian bytes,
//! byte strings behind an eight-byte length, fixed-size arrays as they are,
//! an optional value behind a one-byte tag. The same bytes are hashed for an
//! identifier and written to durable storage.
use crate::types;
use crate::types::{
    Block, BlockHeader, BlockId, BlockView, L1BatchCommitment, NamespaceId, Transaction,
    TransactionView, TxId,
};
use vstd::bytes::{
    lemma_auto_spec_u64_to_from_le_bytes, spec_u64_from_le_bytes, spec_u64_to_le_bytes,
    spec_u64_to_le_bytes_to_open, u64_from_le_bytes, u64_to_le_bytes,
};
use vstd::prelude::*;
use vstd::slice::slice_subrange;

verus! {

/// The eight little-endian bytes of `x`.
pub open spec fn le64(x: u64) -> Seq<u8> {
    spec_u64_to_le_bytes(x)
}

/// A byte string behind its length.
pub open spec fn encode_bytes(b: Seq<u8>) -> Seq<u8> {
    le64(b.len() as u64) + b
}

/// The canonical encoding of a transaction.
pub open spec fn encode_tx(t: TransactionView) -> Seq<u8> {
    le64(t.namespace.0) + le64(t.gas_price) + le64(t.nonce) + encode_bytes(t.payload)
        + encode_bytes(t.signature)
}

/// The contents that a transaction in memory can have: byte strings whose
/// lengths fit the length prefix.
pub open spec fn tx_encodable(t: TransactionView) -> bool {
    t.payload.len() <= u64::MAX && t.signature.len() <= u64::MAX
}

/// The little-endian bytes of an integer are eight, and give the integer back.
pub proof fn lemma_le64(x: u64)
    ensures
        le64(x).len() == 8,
        spec_u64_from_le_bytes(le64(x)) == x,
{
    lemma_auto_spec_u64_to_from_le_bytes();
}

/// Eight bytes are the little-endian bytes of the integer they spell.
pub proof fn lemma_le64_of_bytes(s: Seq<u8>)
    requires
        s.len() == 8,
    ensures
        le64(spec_u64_from_le_bytes(s)) == s,
{
    lemma_auto_spec_u64_to_from_le_bytes();
}

/// Where each field of an encoded transaction lies.
pub proof fn lemma_tx_layout(t: TransactionView)
    requires
        tx_encodable(t),
    ensures
        ({
            let e = encode_tx(t);
            let p = t.payload.len() as int;
            let s = t.signature.len() as int;
            &&& e.len() == 40 + p + s
            &&& e.subrange(0, 8) == le64(t.namespace.0)
            &&& e.subrange(8, 16) == le64(t.gas_price)
            &&& e.subrange(16, 24) == le64(t.nonce)
            &&& e.subrange(24, 32) == le64(p as u64)
            &&& e.subrange(32, 32 + p) == t.payload
            &&& e.subrange(32 + p, 40 + p) == le64(s as u64)
            &&& e.subrange(40 + p, 40 + p + s) == t.signature
        }),
{
    lemma_auto_spec_u64_to_from_le_bytes();
    let e = encode_tx(t);
    let p = t.payload.len() as int;
    let s = t.signature.len() as int;
    assert(e.subrange(0, 8) =~= le64(t.namespace.0));
    assert(e.subrange(8, 16) =~= le64(t.gas_price));
    assert(e.subrange(16, 24) =~= le64(t.nonce));
    assert(e.subrange(24, 32) =~= le64(p as u64));
    assert(e.subrange(32, 32 + p) =~= t.payload);
    assert(e.subrange(32 + p, 40 + p) =~= le64(s as u64));
    assert(e.subrange(40 + p, 40 + p + s) =~= t.signature);
}

/// Two transactions with the same encoding have the same content.
pub proof fn lemma_encode_tx_injective(a: TransactionView, b: TransactionView)
    requires
        tx_encodable(a),
        tx_encodable(b),
        encode_tx(a) == encode_tx(b),
    ensures
        a == b,
{
    lemma_tx_layout(a);
    lemma_tx_layout(b);
    lemma_le64(a.namespace.0);
    lemma_le64(b.namespace.0);
    lemma_le64(a.gas_price);
    lemma_le64(b.gas_price);
    lemma_le64(a.nonce);
    lemma_le64(b.nonce);
    lemma_le64(a.payload.len() as u64);
    lemma_le64(b.payload.len() as u64);
    lemma_le64(a.signature.len() as u64);
    lemma_le64(b.signature.len() as u64);
    assert(a.payload.len() == b.payload.len());
    assert(a.signature.len() == b.signature.len());
    assert(a.payload =~= b.payload);
    assert(a.signature =~= b.signature);
}

/// Appends the bytes of `src` to `out`.
pub fn put_slice(out: &mut Vec<u8>, src: &[u8])
    ensures
        final(out)@ == old(out)@ + src@,
{
    let mut i: usize = 0;
    while i < src.len()
        invariant
            i <= src.len(),
            out@ == old(out)@ + src@.subrange(0, i as int),
        decreases src.len() - i,
    {
        out.push(src[i]);
        proof {
            assert(out@ =~= old(out)@ + src@.subrange(0, i + 1));
        }
        i = i + 1;
    }
    proof {
        assert(src@.subrange(0, src@.len() as int) =~= src@);
    }
}

/// Appends the eight little-endian bytes of `x` to `out`.
pub fn put_u64(out: &mut Vec<u8>, x: u64)
    ensures
        final(out)@ == old(out)@ + le64(x),
{
    let b = u64_to_le_bytes(x);
    put_slice(out, b.as_slice());
}

/// Appends a byte string behind its length to `out`.
pub fn put_bytes(out: &mut Vec<u8>, src: &[u8])
    ensures
        final(out)@ == old(out)@ + encode_bytes(src@),
{
    put_u64(out, src.len() as u64);
    put_slice(out, src);
    proof {
        assert(out@ =~= old(out)@ + encode_bytes(src@));
    }
}

/// The canonical encoding of `tx`.
pub fn encode_transaction(tx: &Transaction) -> (out: Vec<u8>)
    ensures
        out@ == encode_tx(tx@),
        tx_encodable(tx@),
{
    let mut out: Vec<u8> = Vec::new();
    put_u64(&mut out, tx.namespace.0);
    put_u64(&mut out, tx.gas_price);
    put_u64(&mut out, tx.nonce);
    put_bytes(&mut out, tx.payload.as_slice());
    put_bytes(&mut out, tx.signature.as_slice());
    proof {
        assert(out@ =~= encode_tx(tx@));
        assert(tx.payload@.len() == tx.payload.len() && tx.signature@.len() == tx.signature.len());
    }
    out
}

/// Reads eight little-endian bytes at `at`.
pub fn get_u64(bytes: &[u8], at: usize) -> (x: u64)
    requires
        at + 8 <= bytes.len(),
    ensures
        x == spec_u64_from_le_bytes(bytes@.subrange(at as int, at + 8)),
{
    u64_from_le_bytes(slice_subrange(bytes, at, at + 8))
}

/// Copies `len` bytes at `at`.
pub fn get_slice(bytes: &[u8], at: usize, len: usize) -> (v: Vec<u8>)
    requires
        at + len <= bytes.len(),
    ensures
        v@ == bytes@.subrange(at as int, at + len),
{
    types::copy_items(slice_subrange(bytes, at, at + len))
}

/// The transaction that `bytes` encode, if they encode one.
pub open spec fn decoded_tx(bytes: Seq<u8>) -> Option<TransactionView> {
    if exists|t: TransactionView| tx_encodable(t) && #[trigger] encode_tx(t) == bytes {
        Some(choose|t: TransactionView| tx_encodable(t) && #[trigger] encode_tx(t) == bytes)
    } else {
        None
    }
}

/// Decoding gives back what was encoded.
pub proof fn lemma_tx_round_trip(t: TransactionView)
    requires
        tx_encodable(t),
    ensures
        decoded_tx(encode_tx(t)) == Some(t),
{
    let back = choose|u: TransactionView| tx_encodable(u) && #[trigger] encode_tx(u) == encode_tx(t);
    lemma_encode_tx_injective(back, t);
}

/// Reads a transaction back from its canonical encoding. The answer is
/// `None` exactly when the bytes are the encoding of no transaction.
pub fn decode_transaction(bytes: &[u8]) -> (r: Option<Transaction>)
    ensures
        match r {
            Some(tx) => encode_tx(tx@) == bytes@ && decoded_tx(bytes@) == Some(tx@),
            None => decoded_tx(bytes@) is None && forall|t: TransactionView|
                tx_encodable(t) ==> #[trigger] encode_tx(t) != bytes@,
        },
{
    let n = bytes.len();
    proof {
        assert forall|t: TransactionView| tx_encodable(t) && #[trigger] encode_tx(t) == bytes@
            implies ({
            let p = t.payload.len() as int;
            let s = t.signature.len() as int;
            &&& n == 40 + p + s
            &&& spec_u64_from_le_bytes(bytes@.subrange(24, 32)) == p
            &&& spec_u64_from_le_bytes(bytes@.subrange(32 + p, 40 + p)) == s
        }) by {
            lemma_tx_layout(t);
            lemma_le64(t.payload.len() as u64);
            lemma_le64(t.signature.len() as u64);
        }
    }
    if n < 40 {
        return None;
    }
    let namespace = get_u64(bytes, 0);
    let gas_price = get_u64(bytes, 8);
    let nonce = get_u64(bytes, 16);
    let p = get_u64(bytes, 24);
    if p > (n - 40) as u64 {
        return None;
    }
    let p: usize = p as usize;
    let payload = get_slice(bytes, 32, p);
    let s = get_u64(bytes, 32 + p);
    if s != (n - 40 - p) as u64 {
        return None;
    }
    let s: usize = s as usize;
    let signature = get_slice(bytes, 40 + p, s);
    let tx = Transaction { namespace: NamespaceId(namespace), gas_price, nonce, payload, signature };
    proof {
        lemma_le64_of_bytes(bytes@.subrange(0, 8));
        lemma_le64_of_bytes(bytes@.subrange(8, 16));
        lemma_le64_of_bytes(bytes@.subrange(16, 24));
        lemma_le64_of_bytes(bytes@.subrange(24, 32));
        lemma_le64_of_bytes(bytes@.subrange(32 + p, 40 + p));
        assert(encode_tx(tx@) =~= bytes@);
        lemma_tx_round_trip(tx@);
    }
    Some(tx)
}

/// The hashes that a list of transaction ids wraps.
pub open spec fn tx_hashes(ids: Seq<TxId>) -> Seq<types::Hash> {
    Seq::new(ids.len(), |i: int| ids[i].0)
}

/// The hashes that a list of block ids wraps.
pub open spec fn block_hashes(ids: Seq<BlockId>) -> Seq<types::Hash> {
    Seq::new(ids.len(), |i: int| ids[i].0)
}

/// A list of hashes, one after the other, 32 bytes each.
pub open spec fn encode_hashes(hs: Seq<types::Hash>) -> Seq<u8>
    decreases hs.len(),
{
    if hs.len() == 0 {
        Seq::empty()
    } else {
        encode_hashes(hs.drop_last()) + hs.last().0@
    }
}

/// An optional parent: the tag 0, or the tag 1 and the 32 bytes of the id.
pub open spec fn encode_parent(p: Option<BlockId>) -> Seq<u8> {
    match p {
        None => seq![0u8],
        Some(id) => seq![1u8] + id.0.0@,
    }
}

/// The canonical encoding of a block header.
pub open spec fn encode_header(h: BlockHeader) -> Seq<u8> {
    le64(h.height) + encode_parent(h.parent) + h.tx_root.0@ + h.state_root.0@ + le64(
        h.timestamp_ms,
    ) + h.proposer@
}

/// The canonical encoding of a block: the header, the number of
/// transactions, then their ids.
pub open spec fn encode_block(b: BlockView) -> Seq<u8> {
    encode_header(b.header) + le64(b.txs.len() as u64) + encode_hashes(tx_hashes(b.txs))
}

/// The canonical encoding of a batch commitment.
pub open spec fn encode_commitment(batch_number: u64, block_ids: Seq<BlockId>) -> Seq<u8> {
    le64(batch_number) + le64(block_ids.len() as u64) + encode_hashes(block_hashes(block_ids))
}

/// The contents that a block in memory can have.
pub open spec fn block_encodable(b: BlockView) -> bool {
    b.txs.len() <= u64::MAX
}

/// The length of an encoded header: 113 bytes without a parent, 145 with one.
pub open spec fn header_len(h: BlockHeader) -> int {
    if h.parent is Some {
        145
    } else {
        113
    }
}

/// Encoded hashes take 32 bytes each, in order.
pub proof fn lemma_hashes_layout(hs: Seq<types::Hash>)
    ensures
        encode_hashes(hs).len() == 32 * hs.len(),
        forall|i: int|
            0 <= i < hs.len() ==> #[trigger] encode_hashes(hs).subrange(32 * i, 32 * i + 32)
                == hs[i].0@,
    decreases hs.len(),
{
    if hs.len() > 0 {
        let front = hs.drop_last();
        lemma_hashes_layout(front);
        let e = encode_hashes(hs);
        assert forall|i: int| 0 <= i < hs.len() implies #[trigger] e.subrange(32 * i, 32 * i + 32)
            == hs[i].0@ by {
            if i < front.len() {
                assert(e.subrange(32 * i, 32 * i + 32) =~= encode_hashes(front).subrange(
                    32 * i,
                    32 * i + 32,
                ));
            } else {
                assert(e.subrange(32 * i, 32 * i + 32) =~= hs.last().0@);
            }
        }
    }
}

/// Bytes that hold the hashes of `hs` in 32-byte pieces are their encoding.
pub proof fn lemma_hashes_from_pieces(s: Seq<u8>, hs: Seq<types::Hash>)
    requires
        s.len() == 32 * hs.len(),
        forall|i: int| 0 <= i < hs.len() ==> #[trigger] s.subrange(32 * i, 32 * i + 32) == hs[i].0@,
    ensures
        s == encode_hashes(hs),
    decreases hs.len(),
{
    if hs.len() == 0 {
        assert(s =~= encode_hashes(hs));
    } else {
        let front = hs.drop_last();
        let k = front.len() as int;
        let head = s.subrange(0, 32 * k);
        assert forall|i: int| 0 <= i < front.len() implies #[trigger] head.subrange(
            32 * i,
            32 * i + 32,
        ) == front[i].0@ by {
            assert(head.subrange(32 * i, 32 * i + 32) =~= s.subrange(32 * i, 32 * i + 32));
        }
        lemma_hashes_from_pieces(head, front);
        assert(s.subrange(32 * k, 32 * k + 32) == hs[k].0@);
        assert(s =~= head + s.subrange(32 * k, 32 * k + 32));
    }
}

/// Two lists of hashes with the same encoding are the same list.
pub proof fn lemma_encode_hashes_injective(a: Seq<types::Hash>, b: Seq<types::Hash>)
    requires
        encode_hashes(a) == encode_hashes(b),
    ensures
        a == b,
{
    lemma_hashes_layout(a);
    lemma_hashes_layout(b);
    assert(a.len() == b.len());
    assert forall|i: int| 0 <= i < a.len() implies a[i] == b[i] by {
        assert(encode_hashes(a).subrange(32 * i, 32 * i + 32) == a[i].0@);
        assert(encode_hashes(b).subrange(32 * i, 32 * i + 32) == b[i].0@);
        assert(a[i].0 =~= b[i].0);
    }
    assert(a =~= b);
}

/// Where each field of an encoded header lies.
pub proof fn lemma_header_layout(h: BlockHeader)
    ensures
        ({
            let e = encode_header(h);
            let o = header_len(h) - 104;
            &&& e.len() == header_len(h)
            &&& e.subrange(0, 8) == le64(h.height)
            &&& e[8] == (if h.parent is Some { 1u8 } else { 0u8 })
            &&& h.parent is Some ==> e.subrange(9, 41) == h.parent->Some_0.0.0@
            &&& e.subrange(o, o + 32) == h.tx_root.0@
            &&& e.subrange(o + 32, o + 64) == h.state_root.0@
            &&& e.subrange(o + 64, o + 72) == le64(h.timestamp_ms)
            &&& e.subrange(o + 72, o + 104) == h.proposer@
        }),
{
    lemma_auto_spec_u64_to_from_le_bytes();
    let e = encode_header(h);
    let o = header_len(h) - 104;
    assert(e.subrange(0, 8) =~= le64(h.height));
    if h.parent is Some {
        assert(e.subrange(9, 41) =~= h.parent->Some_0.0.0@);
    }
    assert(e.subrange(o, o + 32) =~= h.tx_root.0@);
    assert(e.subrange(o + 32, o + 64) =~= h.state_root.0@);
    assert(e.subrange(o + 64, o + 72) =~= le64(h.timestamp_ms));
    assert(e.subrange(o + 72, o + 104) =~= h.proposer@);
}

/// Two headers with the same encoding are the same header.
pub proof fn lemma_encode_header_injective(a: BlockHeader, b: BlockHeader)
    requires
        encode_header(a) == encode_header(b),
    ensures
        a == b,
{
    lemma_header_layout(a);
    lemma_header_layout(b);
    lemma_le64(a.height);
    lemma_le64(b.height);
    lemma_le64(a.timestamp_ms);
    lemma_le64(b.timestamp_ms);
    assert(a.parent is Some <==> b.parent is Some);
    if a.parent is Some {
        assert(a.parent->Some_0.0.0 =~= b.parent->Some_0.0.0);
    }
    assert(a.tx_root.0 =~= b.tx_root.0);
    assert(a.state_root.0 =~= b.state_root.0);
    assert(a.proposer =~= b.proposer);
}

/// An encoded block is its encoded header, the count, and the ids.
pub proof fn lemma_block_layout(b: BlockView)
    requires
        block_encodable(b),
    ensures
        ({
            let e = encode_block(b);
            let n = header_len(b.header);
            &&& e.len() == n + 8 + 32 * b.txs.len()
            &&& e.subrange(0, n) == encode_header(b.header)
            &&& e[8] == (if b.header.parent is Some { 1u8 } else { 0u8 })
            &&& e.subrange(n, n + 8) == le64(b.txs.len() as u64)
            &&& e.subrange(n + 8, e.len() as int) == encode_hashes(tx_hashes(b.txs))
        }),
{
    lemma_auto_spec_u64_to_from_le_bytes();
    lemma_header_layout(b.header);
    lemma_hashes_layout(tx_hashes(b.txs));
    let e = encode_block(b);
    let n = header_len(b.header);
    assert(e.subrange(0, n) =~= encode_header(b.header));
    assert(e[8] == encode_header(b.header)[8]);
    assert(e.subrange(n, n + 8) =~= le64(b.txs.len() as u64));
    assert(e.subrange(n + 8, e.len() as int) =~= encode_hashes(tx_hashes(b.txs)));
}

/// Two blocks with the same encoding have the same content.
pub proof fn lemma_encode_block_injective(a: BlockView, b: BlockView)
    requires
        block_encodable(a),
        block_encodable(b),
        encode_block(a) == encode_block(b),
    ensures
        a == b,
{
    lemma_block_layout(a);
    lemma_block_layout(b);
    lemma_encode_header_injective(a.header, b.header);
    lemma_encode_hashes_injective(tx_hashes(a.txs), tx_hashes(b.txs));
    assert(a.txs.len() == b.txs.len());
    assert forall|i: int| 0 <= i < a.txs.len() implies a.txs[i] == b.txs[i] by {
        assert(tx_hashes(a.txs)[i] == tx_hashes(b.txs)[i]);
    }
    assert(a.txs =~= b.txs);
}

/// Appends the 32 bytes of `a` to `out`.
pub fn put_array32(out: &mut Vec<u8>, a: &[u8; 32])
    ensures
        final(out)@ == old(out)@ + a@,
{
    put_slice(out, a.as_slice());
}

/// Copies the 32 bytes at `at`.
pub fn get_array32(bytes: &[u8], at: usize) -> (a: [u8; 32])
    requires
        at + 32 <= bytes.len(),
    ensures
        a@ == bytes@.subrange(at as int, at + 32),
{
    let mut a = [0u8; 32];
    let mut i: usize = 0;
    while i < 32
        invariant
            i <= 32,
            at + 32 <= bytes.len(),
            forall|j: int| 0 <= j < i ==> a@[j] == bytes@[at + j],
        decreases 32 - i,
    {
        a[i] = bytes[at + i];
        i = i + 1;
    }
    proof {
        assert(a@ =~= bytes@.subrange(at as int, at + 32));
    }
    a
}

/// Appends the canonical encoding of `h` to `out`.
pub fn put_header(out: &mut Vec<u8>, h: &BlockHeader)
    ensures
        final(out)@ == old(out)@ + encode_header(*h),
{
    put_u64(out, h.height);
    match h.parent {
        None => {
            out.push(0u8);
        },
        Some(id) => {
            out.push(1u8);
            put_array32(out, &id.0.0);
        },
    }
    put_array32(out, &h.tx_root.0);
    put_array32(out, &h.state_root.0);
    put_u64(out, h.timestamp_ms);
    put_array32(out, &h.proposer);
    proof {
        assert(out@ =~= old(out)@ + encode_header(*h));
    }
}

/// The canonical encoding of `h`.
pub fn encode_block_header(h: &BlockHeader) -> (out: Vec<u8>)
    ensures
        out@ == encode_header(*h),
{
    let mut out: Vec<u8> = Vec::new();
    put_header(&mut out, h);
    proof {
        assert(out@ =~= encode_header(*h));
    }
    out
}

/// The canonical encoding of `b`.
pub fn encode_whole_block(b: &Block) -> (out: Vec<u8>)
    ensures
        out@ == encode_block(b@),
        block_encodable(b@),
{
    let mut out: Vec<u8> = Vec::new();
    put_header(&mut out, &b.header);
    put_u64(&mut out, b.txs.len() as u64);
    let ghost base = out@;
    let mut i: usize = 0;
    while i < b.txs.len()
        invariant
            i <= b.txs.len(),
            out@ == base + encode_hashes(tx_hashes(b.txs@.take(i as int))),
        decreases b.txs.len() - i,
    {
        put_array32(&mut out, &b.txs[i].0.0);
        proof {
            let next = tx_hashes(b.txs@.take(i + 1));
            assert(next.drop_last() =~= tx_hashes(b.txs@.take(i as int)));
            assert(next.last() == b.txs@[i as int].0);
            assert(out@ =~= base + encode_hashes(next));
        }
        i = i + 1;
    }
    proof {
        assert(b.txs@.take(b.txs@.len() as int) =~= b.txs@);
        assert(out@ =~= encode_block(b@));
    }
    out
}

/// The canonical encoding of `c`.
pub fn encode_batch_commitment(c: &L1BatchCommitment) -> (out: Vec<u8>)
    ensures
        out@ == encode_commitment(c.batch_number, c.block_ids@),
{
    let mut out: Vec<u8> = Vec::new();
    put_u64(&mut out, c.batch_number);
    put_u64(&mut out, c.block_ids.len() as u64);
    let ghost base = out@;
    let mut i: usize = 0;
    while i < c.block_ids.len()
        invariant
            i <= c.block_ids.len(),
            out@ == base + encode_hashes(block_hashes(c.block_ids@.take(i as int))),
        decreases c.block_ids.len() - i,
    {
        put_array32(&mut out, &c.block_ids[i].0.0);
        proof {
            let next = block_hashes(c.block_ids@.take(i + 1));
            assert(next.drop_last() =~= block_hashes(c.block_ids@.take(i as int)));
            assert(next.last() == c.block_ids@[i as int].0);
            assert(out@ =~= base + encode_hashes(next));
        }
        i = i + 1;
    }
    proof {
        assert(c.block_ids@.take(c.block_ids@.len() as int) =~= c.block_ids@);
        assert(out@ =~= encode_commitment(c.batch_number, c.block_ids@));
    }
    out
}

/// The block that `bytes` encode, if they encode one.
pub open spec fn decoded_block(bytes: Seq<u8>) -> Option<BlockView> {
    if exists|v: BlockView| block_encodable(v) && #[trigger] encode_block(v) == bytes {
        Some(choose|v: BlockView| block_encodable(v) && #[trigger] encode_block(v) == bytes)
    } else {
        None
    }
}

/// Decoding gives back what was encoded.
pub proof fn lemma_block_round_trip(b: BlockView)
    requires
        block_encodable(b),
    ensures
        decoded_block(encode_block(b)) == Some(b),
{
    let back = choose|v: BlockView| block_encodable(v) && #[trigger] encode_block(v) == encode_block(b);
    lemma_encode_block_injective(back, b);
}

/// Reads a block back from its canonical encoding. The answer is `None`
/// exactly when the bytes are the encoding of no block.
pub fn decode_block(bytes: &[u8]) -> (r: Option<Block>)
    ensures
        match r {
            Some(b) => encode_block(b@) == bytes@ && decoded_block(bytes@) == Some(b@),
            None => decoded_block(bytes@) is None && forall|v: BlockView|
                block_encodable(v) ==> #[trigger] encode_block(v) != bytes@,
        },
{
    let n = bytes.len();
    proof {
        assert forall|v: BlockView| block_encodable(v) && #[trigger] encode_block(v) == bytes@
            implies ({
            let o = header_len(v.header);
            &&& n == o + 8 + 32 * v.txs.len()
            &&& bytes@[8] == (if v.header.parent is Some { 1u8 } else { 0u8 })
            &&& spec_u64_from_le_bytes(bytes@.subrange(o, o + 8)) == v.txs.len()
        }) by {
            lemma_block_layout(v);
            lemma_le64(v.txs.len() as u64);
        }
    }
    if n < 121 {
        return None;
    }
    let height = get_u64(bytes, 0);
    let tag = bytes[8];
    if tag > 1 {
        return None;
    }
    let o: usize = if tag == 1 { 145 } else { 113 };
    if n < o + 8 {
        return None;
    }
    let parent = if tag == 1 {
        Some(BlockId(types::Hash(get_array32(bytes, 9))))
    } else {
        None
    };
    let tx_root = types::Hash(get_array32(bytes, o - 104));
    let state_root = types::Hash(get_array32(bytes, o - 72));
    let timestamp_ms = get_u64(bytes, o - 40);
    let proposer = get_array32(bytes, o - 32);
    let header = BlockHeader { height, parent, tx_root, state_root, timestamp_ms, proposer };
    let count = get_u64(bytes, o);
    let room: usize = n - o - 8;
    if room % 32 != 0 || count != (room / 32) as u64 {
        return None;
    }
    let k: usize = room / 32;
    let mut txs: Vec<TxId> = Vec::with_capacity(k);
    let mut i: usize = 0;
    while i < k
        invariant
            i <= k,
            n == bytes.len(),
            n == o + 8 + 32 * k,
            txs@.len() == i,
            forall|j: int|
                0 <= j < i ==> (#[trigger] txs@[j]).0.0@ == bytes@.subrange(
                    o + 8 + 32 * j,
                    o + 8 + 32 * j + 32,
                ),
        decreases k - i,
    {
        let a = get_array32(bytes, o + 8 + 32 * i);
        txs.push(TxId(types::Hash(a)));
        i = i + 1;
    }
    let block = Block { header, txs };
    proof {
        let tail = bytes@.subrange(o + 8, n as int);
        let hs = tx_hashes(block.txs@);
        assert forall|j: int| 0 <= j < hs.len() implies #[trigger] tail.subrange(
            32 * j,
            32 * j + 32,
        ) == hs[j].0@ by {
            assert(tail.subrange(32 * j, 32 * j + 32) =~= bytes@.subrange(
                o + 8 + 32 * j,
                o + 8 + 32 * j + 32,
            ));
            assert(block.txs@[j].0.0@ == bytes@.subrange(o + 8 + 32 * j, o + 8 + 32 * j + 32));
        }
        lemma_hashes_from_pieces(tail, hs);
        lemma_le64_of_bytes(bytes@.subrange(0, 8));
        lemma_le64_of_bytes(bytes@.subrange(o - 40, o - 32));
        lemma_le64_of_bytes(bytes@.subrange(o as int, o + 8));
        let head = bytes@.subrange(0, o as int);
        assert(encode_header(header) =~= head);
        assert(bytes@ =~= head + bytes@.subrange(o as int, o + 8) + tail);
        assert(encode_block(block@) =~= bytes@);
        lemma_block_round_trip(block@);
    }
    Some(block)
}

/// The eight big-endian bytes of `x`: its little-endian bytes in reverse.
/// Heights are keyed this way in durable storage.
pub open spec fn be64(x: u64) -> Seq<u8> {
    le64(x).reverse()
}

/// The integer that eight big-endian bytes spell.
pub open spec fn from_be64(s: Seq<u8>) -> u64 {
    spec_u64_from_le_bytes(s.reverse())
}

/// Big-endian bytes are eight, give the integer back, and every eight
/// bytes are the big-endian bytes of the integer they spell.
pub proof fn lemma_be64(x: u64, s: Seq<u8>)
    ensures
        be64(x).len() == 8,
        from_be64(be64(x)) == x,
        s.len() == 8 ==> be64(from_be64(s)) == s,
{
    lemma_auto_spec_u64_to_from_le_bytes();
    assert(le64(x).reverse().reverse() =~= le64(x));
    if s.len() == 8 {
        assert(s.reverse().reverse() =~= s);
    }
}

/// Different integers have different big-endian bytes.
pub proof fn lemma_be64_injective(x: u64, y: u64)
    requires
        be64(x) == be64(y),
    ensures
        x == y,
{
    lemma_be64(x, Seq::empty());
    lemma_be64(y, Seq::empty());
}

/// Whether `a` stands before `b` in the order of byte strings: `a` is
/// smaller where they first differ, or `a` is a proper beginning of `b`.
pub open spec fn bytes_before(a: Seq<u8>, b: Seq<u8>) -> bool {
    ||| exists|i: int|
        0 <= i < a.len() && i < b.len() && a[i] < b[i] && forall|j: int|
            0 <= j < i ==> a[j] == b[j]
    ||| a.len() < b.len() && a == b.take(a.len() as int)
}

/// Of two integers, the big-endian bytes of the smaller stand before
/// those of the greater at the first place where they differ.
proof fn lemma_be64_first_difference(x: u64, y: u64)
    requires
        x < y,
    ensures
        exists|i: int|
            0 <= i < 8 && be64(x)[i] < be64(y)[i] && forall|j: int|
                0 <= j < i ==> be64(x)[j] == be64(y)[j],
{
    lemma_auto_spec_u64_to_from_le_bytes();
    spec_u64_to_le_bytes_to_open(x);
    spec_u64_to_le_bytes_to_open(y);
    let a = be64(x);
    let b = be64(y);
    assert(a[0] == ((x >> 56) & 0xff) as u8 && b[0] == ((y >> 56) & 0xff) as u8);
    assert(a[1] == ((x >> 48) & 0xff) as u8 && b[1] == ((y >> 48) & 0xff) as u8);
    assert(a[2] == ((x >> 40) & 0xff) as u8 && b[2] == ((y >> 40) & 0xff) as u8);
    assert(a[3] == ((x >> 32) & 0xff) as u8 && b[3] == ((y >> 32) & 0xff) as u8);
    assert(a[4] == ((x >> 24) & 0xff) as u8 && b[4] == ((y >> 24) & 0xff) as u8);
    assert(a[5] == ((x >> 16) & 0xff) as u8 && b[5] == ((y >> 16) & 0xff) as u8);
    assert(a[6] == ((x >> 8) & 0xff) as u8 && b[6] == ((y >> 8) & 0xff) as u8);
    assert(a[7] == (x & 0xff) as u8 && b[7] == (y & 0xff) as u8);
    assert((x >> 56) & 0xff < 256 && (x >> 48) & 0xff < 256 && (x >> 40) & 0xff < 256 && (x >> 32)
        & 0xff < 256 && (x >> 24) & 0xff < 256 && (x >> 16) & 0xff < 256 && (x >> 8) & 0xff < 256
        && x & 0xff < 256) by (bit_vector);
    assert((y >> 56) & 0xff < 256 && (y >> 48) & 0xff < 256 && (y >> 40) & 0xff < 256 && (y >> 32)
        & 0xff < 256 && (y >> 24) & 0xff < 256 && (y >> 16) & 0xff < 256 && (y >> 8) & 0xff < 256
        && y & 0xff < 256) by (bit_vector);
    assert(x < y ==> (x >> 56) & 0xff < (y >> 56) & 0xff || (x >> 56) == (y >> 56))
        by (bit_vector);
    assert((x >> 56) == (y >> 56) && x < y ==> (x >> 48) & 0xff < (y >> 48) & 0xff || (x >> 48) == (
    y >> 48)) by (bit_vector);
    assert((x >> 48) == (y >> 48) && x < y ==> (x >> 40) & 0xff < (y >> 40) & 0xff || (x >> 40) == (
    y >> 40)) by (bit_vector);
    assert((x >> 40) == (y >> 40) && x < y ==> (x >> 32) & 0xff < (y >> 32) & 0xff || (x >> 32) == (
    y >> 32)) by (bit_vector);
    assert((x >> 32) == (y >> 32) && x < y ==> (x >> 24) & 0xff < (y >> 24) & 0xff || (x >> 24) == (
    y >> 24)) by (bit_vector);
    assert((x >> 24) == (y >> 24) && x < y ==> (x >> 16) & 0xff < (y >> 16) & 0xff || (x >> 16) == (
    y >> 16)) by (bit_vector);
    assert((x >> 16) == (y >> 16) && x < y ==> (x >> 8) & 0xff < (y >> 8) & 0xff || (x >> 8) == (y
        >> 8)) by (bit_vector);
    assert((x >> 8) == (y >> 8) && x < y ==> x & 0xff < y & 0xff) by (bit_vector);
    if a[0] < b[0] {
        assert(0 <= 0 < 8 && a[0] < b[0]);
    } else if a[1] < b[1] {
        assert(a[0] == b[0]);
    } else if a[2] < b[2] {
        assert(a[0] == b[0] && a[1] == b[1]);
    } else if a[3] < b[3] {
        assert(a[0] == b[0] && a[1] == b[1] && a[2] == b[2]);
    } else if a[4] < b[4] {
        assert(a[0] == b[0] && a[1] == b[1] && a[2] == b[2] && a[3] == b[3]);
    } else if a[5] < b[5] {
        assert(a[0] == b[0] && a[1] == b[1] && a[2] == b[2] && a[3] == b[3] && a[4] == b[4]);
    } else if a[6] < b[6] {
        assert(a[0] == b[0] && a[1] == b[1] && a[2] == b[2] && a[3] == b[3] && a[4] == b[4]
            && a[5] == b[5]);
    } else {
        assert(a[0] == b[0] && a[1] == b[1] && a[2] == b[2] && a[3] == b[3] && a[4] == b[4]
            && a[5] == b[5] && a[6] == b[6]);
        assert(a[7] < b[7]);
    }
}

/// Height keys sort as the heights do: the big-endian bytes of one
/// integer stand before those of another exactly when it is the smaller.
pub proof fn lemma_be64_order(x: u64, y: u64)
    ensures
        x < y <==> bytes_before(be64(x), be64(y)),
{
    lemma_be64(x, Seq::empty());
    lemma_be64(y, Seq::empty());
    if x < y {
        lemma_be64_first_difference(x, y);
    } else if y < x {
        lemma_be64_first_difference(y, x);
        let i = choose|i: int|
            0 <= i < 8 && be64(y)[i] < be64(x)[i] && forall|j: int|
                0 <= j < i ==> be64(y)[j] == be64(x)[j];
        if bytes_before(be64(x), be64(y)) {
            let k = choose|k: int|
                0 <= k < 8 && be64(x)[k] < be64(y)[k] && forall|j: int|
                    0 <= j < k ==> be64(x)[j] == be64(y)[j];
            if k < i {
                assert(be64(y)[k] == be64(x)[k]);
            } else if i < k {
                assert(be64(x)[i] == be64(y)[i]);
            }
        }
    }
}

/// The eight big-endian bytes of `x`.
pub fn u64_to_be(x: u64) -> (out: Vec<u8>)
    ensures
        out@ == be64(x),
{
    let le = u64_to_le_bytes(x);
    let mut out: Vec<u8> = Vec::with_capacity(8);
    let mut i: usize = 0;
    while i < 8
        invariant
            i <= 8,
            le@.len() == 8,
            out@.len() == i,
            forall|j: int| 0 <= j < i ==> out@[j] == le@[7 - j],
        decreases 8 - i,
    {
        out.push(le[7 - i]);
        i = i + 1;
    }
    proof {
        assert(out@ =~= be64(x));
    }
    out
}

/// The integer that the eight big-endian bytes `bytes` spell.
pub fn u64_from_be(bytes: &[u8]) -> (x: u64)
    requires
        bytes@.len() == 8,
    ensures
        x == from_be64(bytes@),
{
    let mut le: Vec<u8> = Vec::with_capacity(8);
    let mut i: usize = 0;
    while i < 8
        invariant
            i <= 8,
            bytes@.len() == 8,
            le@.len() == i,
            forall|j: int| 0 <= j < i ==> le@[j] == bytes@[7 - j],
        decreases 8 - i,
    {
        le.push(bytes[7 - i]);
        i = i + 1;
    }
    proof {
        assert(le@ =~= bytes@.reverse());
    }
    u64_from_le_bytes(le.as_slice())
}

/// The hash whose bytes are `s`.
pub open spec fn hash_from_bytes(s: Seq<u8>) -> types::Hash {
    choose|h: types::Hash| h.0@ == s
}

/// A hash is the hash of its bytes.
pub proof fn lemma_hash_from_bytes(h: types::Hash)
    ensures
        hash_from_bytes(h.0@) == h,
{
    let c = hash_from_bytes(h.0@);
    assert(c.0 =~= h.0);
}

/// The hash whose bytes are the 32 bytes of `bytes`.
pub fn hash_from_slice(bytes: &[u8]) -> (h: types::Hash)
    requires
        bytes@.len() == 32,
    ensures
        h.0@ == bytes@,
        h == hash_from_bytes(bytes@),
{
    let a = get_array32(bytes, 0);
    let h = types::Hash(a);
    proof {
        assert(bytes@.subrange(0, 32) =~= bytes@);
        lemma_hash_from_bytes(h);
    }
    h
}

} // verus!
