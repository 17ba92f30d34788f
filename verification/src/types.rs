use crate::codec::{
    encode_batch_commitment, encode_block_header, encode_commitment, encode_header, encode_transaction,
    encode_tx,
};
use vstd::prelude::*;
use vstd::std_specs::cmp::PartialEqSpecImpl;

verus! {

/// A 32-byte content hash. Two hashes are equal when their bytes are, and
/// are ordered as their bytes are, the first byte deciding first.
#[derive(Clone, Copy, Debug, Eq, PartialOrd, Ord, Hash)]
pub struct Hash(pub [u8; 32]);

impl PartialEq for Hash {
    fn eq(&self, other: &Self) -> (r: bool) {
        let mut i: usize = 0;
        while i < 32
            invariant
                i <= 32,
                forall|j: int| 0 <= j < i ==> self.0[j] == other.0[j],
            decreases 32 - i,
        {
            if self.0[i] != other.0[i] {
                return false;
            }
            i = i + 1;
        }
        proof {
            assert(self.0 =~= other.0);
        }
        true
    }
}

impl PartialEqSpecImpl for Hash {
    open spec fn obeys_eq_spec() -> bool {
        true
    }

    open spec fn eq_spec(&self, other: &Self) -> bool {
        *self == *other
    }
}

impl Hash {
    /// The all-zero hash, the root of the empty Merkle tree.
    pub open spec fn zero() -> Hash {
        Hash(vstd::array::spec_array_fill_for_copy_type::<u8, 32>(0u8))
    }

    /// The all-zero hash as a value.
    pub fn zeroed() -> (h: Hash)
        ensures
            h == Hash::zero(),
    {
        Hash([0u8; 32])
    }
}

/// Identifier of a transaction: the hash of its canonical encoding.
#[derive(Clone, Copy, Debug, Eq, PartialOrd, Ord, Hash)]
pub struct TxId(pub Hash);

impl PartialEq for TxId {
    fn eq(&self, other: &Self) -> (r: bool) {
        self.0 == other.0
    }
}

impl PartialEqSpecImpl for TxId {
    open spec fn obeys_eq_spec() -> bool {
        true
    }

    open spec fn eq_spec(&self, other: &Self) -> bool {
        *self == *other
    }
}

/// Identifier of a block: the hash of the canonical encoding of its header.
#[derive(Clone, Copy, Debug, Eq, PartialOrd, Ord, Hash)]
pub struct BlockId(pub Hash);

impl PartialEq for BlockId {
    fn eq(&self, other: &Self) -> (r: bool) {
        self.0 == other.0
    }
}

impl PartialEqSpecImpl for BlockId {
    open spec fn obeys_eq_spec() -> bool {
        true
    }

    open spec fn eq_spec(&self, other: &Self) -> bool {
        *self == *other
    }
}

/// Identifier of a rollup tenant.
#[derive(Clone, Copy, Debug, PartialEq, Eq, Structural, Hash)]
pub struct NamespaceId(pub u64);

/// Where a transaction stands, as reported to clients.
#[derive(Clone, Copy, Debug, PartialEq, Eq, Hash)]
pub enum TransactionStatus {
    Pending,
    Included { block: BlockId, index: u32 },
    Rejected,
}

/// A transaction submitted to the sequencer. Payload and signature are
/// opaque byte strings and may be empty.
#[derive(Debug, PartialEq, Eq)]
pub struct Transaction {
    pub namespace: NamespaceId,
    pub gas_price: u64,
    pub nonce: u64,
    pub payload: Vec<u8>,
    pub signature: Vec<u8>,
}

/// The mathematical content of a `Transaction`.
pub struct TransactionView {
    pub namespace: NamespaceId,
    pub gas_price: u64,
    pub nonce: u64,
    pub payload: Seq<u8>,
    pub signature: Seq<u8>,
}

impl View for Transaction {
    type V = TransactionView;

    open spec fn view(&self) -> TransactionView {
        TransactionView {
            namespace: self.namespace,
            gas_price: self.gas_price,
            nonce: self.nonce,
            payload: self.payload@,
            signature: self.signature@,
        }
    }
}

impl Clone for Transaction {
    fn clone(&self) -> (r: Self)
        ensures
            r@ == self@,
    {
        Transaction {
            namespace: self.namespace,
            gas_price: self.gas_price,
            nonce: self.nonce,
            payload: copy_items(self.payload.as_slice()),
            signature: copy_items(self.signature.as_slice()),
        }
    }
}

/// The header of a block.
#[derive(Clone, Copy, Debug, PartialEq, Eq)]
pub struct BlockHeader {
    pub height: u64,
    pub parent: Option<BlockId>,
    pub tx_root: Hash,
    pub state_root: Hash,
    pub timestamp_ms: u64,
    pub proposer: [u8; 32],
}

/// A block: a header and the ids of its transactions, in order. The
/// transaction bodies live in the transaction store.
#[derive(Debug, PartialEq, Eq)]
pub struct Block {
    pub header: BlockHeader,
    pub txs: Vec<TxId>,
}

/// The mathematical content of a `Block`.
pub struct BlockView {
    pub header: BlockHeader,
    pub txs: Seq<TxId>,
}

impl View for Block {
    type V = BlockView;

    open spec fn view(&self) -> BlockView {
        BlockView { header: self.header, txs: self.txs@ }
    }
}

/// A copy of a list of plain values.
pub fn copy_items<T: Copy>(a: &[T]) -> (v: Vec<T>)
    ensures
        v@ == a@,
{
    let mut v: Vec<T> = Vec::with_capacity(a.len());
    let mut i: usize = 0;
    while i < a.len()
        invariant
            i <= a.len(),
            v@ == a@.subrange(0, i as int),
        decreases a.len() - i,
    {
        v.push(a[i]);
        proof {
            assert(v@ =~= a@.subrange(0, i + 1));
        }
        i = i + 1;
    }
    proof {
        assert(a@.subrange(0, a@.len() as int) =~= a@);
    }
    v
}

impl Clone for Block {
    fn clone(&self) -> (r: Self)
        ensures
            r@ == self@,
    {
        Block { header: self.header, txs: copy_items(self.txs.as_slice()) }
    }
}

/// A Merkle inclusion proof: the position of the leaf and the sibling
/// hashes on the way up, lowest level first.
#[derive(Debug, PartialEq, Eq)]
pub struct MerkleProof {
    pub index: u32,
    pub siblings: Vec<Hash>,
}

impl Clone for MerkleProof {
    fn clone(&self) -> (r: Self)
        ensures
            r.index == self.index,
            r.siblings@ == self.siblings@,
    {
        MerkleProof { index: self.index, siblings: copy_items(self.siblings.as_slice()) }
    }
}

/// What is posted to the settlement layer for a batch of committed blocks.
#[derive(Debug, PartialEq, Eq)]
pub struct L1BatchCommitment {
    pub batch_number: u64,
    pub block_ids: Vec<BlockId>,
}

impl Clone for L1BatchCommitment {
    fn clone(&self) -> (r: Self)
        ensures
            r.batch_number == self.batch_number,
            r.block_ids@ == self.block_ids@,
    {
        L1BatchCommitment {
            batch_number: self.batch_number,
            block_ids: copy_items(self.block_ids.as_slice()),
        }
    }
}

/// Errors of the type layer.
#[derive(Clone, Copy, Debug, PartialEq, Eq, Structural)]
pub enum TypesError {
    /// A proof with too few siblings for a tree that holds its index.
    MalformedProof,
}

/// The digest that BLAKE3 gives a byte string, as a function of the bytes.
pub uninterp spec fn blake3_digest(data: Seq<u8>) -> [u8; 32];

/// `blake3::hash`, with the 32 bytes of its result copied out. BLAKE3 is a
/// deterministic function: the claim is that the bytes returned are the
/// digest of the bytes given, and nothing about their value.
#[verifier::external_body]
fn blake3_hash(data: &[u8]) -> (out: [u8; 32])
    ensures
        out == blake3_digest(data@),
{
    *blake3::hash(data).as_bytes()
}

/// The hash of a byte string.
pub open spec fn hash_of(data: Seq<u8>) -> Hash {
    Hash(blake3_digest(data))
}

/// Hashes `data`.
pub fn hash_bytes(data: &[u8]) -> (h: Hash)
    ensures
        h == hash_of(data@),
{
    Hash(blake3_hash(data))
}

/// The identifier of a transaction with content `t`.
pub open spec fn tx_id_of(t: TransactionView) -> TxId {
    TxId(hash_of(encode_tx(t)))
}

/// The identifier of the block with header `h`.
pub open spec fn block_id_of(h: BlockHeader) -> BlockId {
    BlockId(hash_of(encode_header(h)))
}

impl Transaction {
    pub open spec fn spec_id(&self) -> TxId {
        tx_id_of(self@)
    }

    /// The identifier of this transaction: the hash of its canonical encoding.
    #[verifier::when_used_as_spec(spec_id)]
    pub fn id(&self) -> (id: TxId)
        ensures
            id == tx_id_of(self@),
    {
        let encoded = encode_transaction(self);
        TxId(hash_bytes(encoded.as_slice()))
    }
}

impl BlockHeader {
    pub open spec fn spec_id(&self) -> BlockId {
        block_id_of(*self)
    }

    /// The identifier of the block: the hash of the header's canonical encoding.
    #[verifier::when_used_as_spec(spec_id)]
    pub fn id(&self) -> (id: BlockId)
        ensures
            id == block_id_of(*self),
    {
        let encoded = encode_block_header(self);
        BlockId(hash_bytes(encoded.as_slice()))
    }
}

impl L1BatchCommitment {
    pub open spec fn spec_hash(&self) -> Hash {
        hash_of(encode_commitment(self.batch_number, self.block_ids@))
    }

    /// The hash of the commitment's canonical encoding.
    #[verifier::when_used_as_spec(spec_hash)]
    pub fn hash(&self) -> (h: Hash)
        ensures
            h == hash_of(encode_commitment(self.batch_number, self.block_ids@)),
    {
        let encoded = encode_batch_commitment(self);
        hash_bytes(encoded.as_slice())
    }
}

/// Identity is content-addressed: transactions with the same content have
/// the same identifier.
pub proof fn lemma_tx_id_by_content(a: Transaction, b: Transaction)
    requires
        a@ == b@,
    ensures
        a.id() == b.id(),
{
}

/// Commitments over the same batch number and the same blocks have the same hash.
pub proof fn lemma_commitment_hash_by_content(a: L1BatchCommitment, b: L1BatchCommitment)
    requires
        a.batch_number == b.batch_number,
        a.block_ids@ == b.block_ids@,
    ensures
        a.hash() == b.hash(),
{
}

} // verus!
