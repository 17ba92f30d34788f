//! The single-validator proposer: each step pulls a batch from the mempool,
//! builds a block on the tip, persists it and reports it as final.
use crate::mempool::{ids_of, inserted, priority_batch, without, Mempool, SimpleMempool};
use crate::merkle::{merkle_root, merkle_root_of};
use crate::storage::{
    concat_text, heights_resolve, storage_error_text, BlockStore, InMemoryStorage, StateStore,
    StorageError, Store, TxStore,
};
use crate::types;
use crate::types::{
    block_id_of, Block, BlockHeader, BlockId, BlockView, L1BatchCommitment, Transaction,
    TransactionView, TxId,
};
use std::time::{SystemTime, UNIX_EPOCH};
use vstd::prelude::*;
use vstd::std_specs::convert::FromSpecImpl;

verus! {

/// The number of a proposer round.
#[derive(Clone, Copy, Debug, PartialEq, Eq, Structural, PartialOrd, Ord)]
pub struct ViewNumber(pub u64);

/// The public identity of a validator.
#[derive(Clone, Copy, Debug, PartialEq, Eq, Hash)]
pub struct ValidatorId(pub [u8; 32]);

/// The certificate that a block is decided. With a single validator it is
/// synthetic: the proposer's own commit.
#[derive(Clone, Copy, Debug, PartialEq, Eq)]
pub struct QuorumCertificate {
    pub view: ViewNumber,
    pub block_id: BlockId,
}

/// Why the engine failed, with the text of the error underneath.
#[derive(Debug)]
pub enum ConsensusError {
    Mempool(String),
    Storage(String),
}

impl ConsensusError {
    /// The error as text: `mempool error: ` or `storage error: `, then the cause.
    pub fn to_string(&self) -> (s: String)
        ensures
            s@ == match *self {
                ConsensusError::Mempool(msg) => "mempool error: "@ + msg@,
                ConsensusError::Storage(msg) => "storage error: "@ + msg@,
            },
    {
        match self {
            ConsensusError::Mempool(msg) => concat_text("mempool error: ", msg.as_str()),
            ConsensusError::Storage(msg) => concat_text("storage error: ", msg.as_str()),
        }
    }
}

impl From<StorageError> for ConsensusError {
    /// A storage failure as the engine reports it: `Storage` with the
    /// text of the failure.
    fn from(e: StorageError) -> (ret: Self)
        ensures
            ret is Storage,
            ret->Storage_0@ == storage_error_text(e),
    {
        ConsensusError::Storage(e.to_string())
    }
}

impl FromSpecImpl<StorageError> for ConsensusError {
    open spec fn obeys_from_spec() -> bool {
        false
    }

    open spec fn from_spec(v: StorageError) -> Self {
        arbitrary()
    }
}

/// What the engine reports.
#[derive(Debug, PartialEq, Eq)]
pub enum FinalityEvent {
    /// `block` is committed for good, certified by `qc`.
    BlockCommitted { block: Block, qc: QuorumCertificate },
}

impl Clone for FinalityEvent {
    fn clone(&self) -> (r: Self)
        ensures
            match (*self, r) {
                (
                    FinalityEvent::BlockCommitted { block: b1, qc: q1 },
                    FinalityEvent::BlockCommitted { block: b2, qc: q2 },
                ) => b1@ == b2@ && q1 == q2,
            },
    {
        match self {
            FinalityEvent::BlockCommitted { block, qc } => FinalityEvent::BlockCommitted {
                block: block.clone(),
                qc: *qc,
            },
        }
    }
}

/// The greatest number of transactions in one block.
pub const BATCH_SIZE: usize = 100;

/// The ids of the blocks with the given contents, in order.
pub open spec fn block_ids_of(blocks: Seq<Block>) -> Seq<BlockId> {
    Seq::new(blocks.len(), |i: int| block_id_of(blocks[i].header))
}

/// The commitment to post for a batch of committed blocks: the number of
/// the batch and the ids of the blocks in order.
pub fn build_l1_batch_commitment(batch_number: u64, blocks: &[Block]) -> (c: L1BatchCommitment)
    ensures
        c.batch_number == batch_number,
        c.block_ids@ == block_ids_of(blocks@),
{
    let mut block_ids: Vec<BlockId> = Vec::with_capacity(blocks.len());
    let mut i: usize = 0;
    while i < blocks.len()
        invariant
            i <= blocks.len(),
            block_ids@.len() == i,
            forall|j: int| 0 <= j < i ==> block_ids@[j] == block_id_of(blocks@[j].header),
        decreases blocks.len() - i,
    {
        block_ids.push(blocks[i].header.id());
        i = i + 1;
    }
    proof {
        assert(block_ids@ =~= block_ids_of(blocks@));
    }
    L1BatchCommitment { batch_number, block_ids }
}

/// Whether `chain` is a chain of committed blocks: heights count from 1
/// without a gap, the first block has no parent, each later one names the
/// block before it, and each header's transaction root is the Merkle root
/// of the block's transactions.
pub open spec fn is_chain(chain: Seq<BlockView>) -> bool {
    forall|k: int|
        0 <= k < chain.len() ==> {
            &&& (#[trigger] chain[k]).header.height == k + 1
            &&& chain[k].header.parent == (if k == 0 {
                None
            } else {
                Some(block_id_of(chain[k - 1].header))
            })
            &&& chain[k].header.tx_root == merkle_root_of(chain[k].txs)
        }
}

/// The block that a proposer with the given tip builds over `batch`.
pub open spec fn proposal(
    batch: Seq<(TxId, TransactionView)>,
    height: u64,
    tip: Option<BlockId>,
    timestamp_ms: u64,
    proposer: [u8; 32],
) -> BlockView {
    BlockView {
        header: BlockHeader {
            height: (height + 1) as u64,
            parent: tip,
            tx_root: merkle_root_of(ids_of(batch)),
            state_root: types::Hash::zero(),
            timestamp_ms,
            proposer,
        },
        txs: ids_of(batch),
    }
}

/// A consensus engine that is driven step by step.
pub trait ConsensusEngine {
    /// The invariant of the engine.
    spec fn inv(&self) -> bool;

    /// Whether the round counter can still advance.
    spec fn rounds_left(&self) -> bool;

    /// The entries of the engine's mempool, oldest first.
    spec fn pending_txs(&self) -> Seq<(TxId, TransactionView)>;

    /// The greatest number of entries that the engine's mempool holds.
    spec fn pending_limit(&self) -> nat;

    /// Hands `tx` to the mempool. A full mempool refuses it, which is
    /// reported as `Mempool`; else the id of `tx` comes back, and `tx` is
    /// pending unless its id was already.
    fn submit_tx(&mut self, tx: Transaction) -> (r: Result<TxId, ConsensusError>)
        requires
            old(self).inv(),
        ensures
            final(self).inv(),
            final(self).rounds_left() == old(self).rounds_left(),
            final(self).pending_limit() == old(self).pending_limit(),
            final(self).pending_txs() == inserted(
                old(self).pending_txs(),
                old(self).pending_limit(),
                tx@,
            ),
            r is Err <==> old(self).pending_txs().len() >= old(self).pending_limit(),
            r is Err ==> r->Err_0 is Mempool,
            r is Ok ==> r->Ok_0 == tx.id(),
    ;

    /// Runs one proposer round. A failure is the storage's.
    fn step(&mut self) -> (r: Result<Option<FinalityEvent>, ConsensusError>)
        requires
            old(self).inv(),
            old(self).rounds_left(),
        ensures
            final(self).inv(),
            final(self).pending_limit() == old(self).pending_limit(),
            r is Err ==> r->Err_0 is Storage,
    ;
}

/// The wall clock in milliseconds since the Unix epoch, read with
/// `SystemTime::now`; 0 if the clock stands before the epoch. Nothing is
/// claimed of the value.
#[verifier::external_body]
fn unix_time_ms() -> u64 {
    SystemTime::now().duration_since(UNIX_EPOCH).unwrap_or_default().as_millis() as u64
}

/// What a round reports once the store has answered: the block with its
/// certificate if it was stored, else the store's failure.
pub fn settle(block: Block, view: ViewNumber, stored: Result<(), StorageError>) -> (r: Result<
    FinalityEvent,
    ConsensusError,
>)
    ensures
        match r {
            Ok(FinalityEvent::BlockCommitted { block: b, qc }) => {
                &&& stored is Ok
                &&& b@ == block@
                &&& qc.view == view
                &&& qc.block_id == block_id_of(block.header)
            },
            Err(e) => {
                &&& stored is Err
                &&& e is Storage
                &&& e->Storage_0@ == storage_error_text(stored->Err_0)
            },
        },
{
    match stored {
        Ok(_) => {
            let qc = QuorumCertificate { view, block_id: block.header.id() };
            Ok(FinalityEvent::BlockCommitted { block, qc })
        },
        Err(e) => Err(ConsensusError::from(e)),
    }
}

/// A single-node engine over a mempool and a store.
pub struct SingleNodeConsensus<M, S> where M: Mempool, S: BlockStore + StateStore + TxStore {
    view: ViewNumber,
    validator: ValidatorId,
    mempool: M,
    storage: S,
    last_block_id: Option<BlockId>,
    last_height: u64,
    committed: Ghost<Seq<BlockView>>,
}

impl<M, S> SingleNodeConsensus<M, S> where M: Mempool, S: BlockStore + StateStore + TxStore {
    /// The invariant: the tip is the last committed block, the committed
    /// blocks form a chain, and no more blocks than rounds were committed.
    pub closed spec fn wf(&self) -> bool {
        &&& self.mempool.wf()
        &&& self.storage.wf()
        &&& self.last_height == self.committed@.len()
        &&& self.last_height <= self.view.0
        &&& self.last_block_id == (if self.committed@.len() == 0 {
            None
        } else {
            Some(block_id_of(self.committed@.last().header))
        })
        &&& is_chain(self.committed@)
    }

    /// The number of rounds run.
    pub closed spec fn view_number(&self) -> u64 {
        self.view.0
    }

    /// The identity under which blocks are proposed.
    pub closed spec fn proposer(&self) -> [u8; 32] {
        self.validator.0
    }

    /// The id of the last committed block, if any.
    pub closed spec fn tip(&self) -> Option<BlockId> {
        self.last_block_id
    }

    /// The height of the last committed block, 0 if there is none.
    pub closed spec fn height(&self) -> u64 {
        self.last_height
    }

    /// The blocks committed so far, oldest first.
    pub closed spec fn committed(&self) -> Seq<BlockView> {
        self.committed@
    }

    /// The entries of the mempool.
    pub closed spec fn pending(&self) -> Seq<(TxId, TransactionView)> {
        self.mempool.pending()
    }

    /// The capacity of the mempool.
    pub closed spec fn capacity(&self) -> nat {
        self.mempool.capacity()
    }

    /// The blocks in the store, by id.
    pub closed spec fn stored_blocks(&self) -> Map<BlockId, BlockView> {
        self.storage.blocks()
    }

    /// The ids in the store, by height.
    pub closed spec fn stored_heights(&self) -> Map<u64, BlockId> {
        self.storage.heights()
    }

    /// The transactions in the store, by id.
    pub closed spec fn stored_txs(&self) -> Map<TxId, TransactionView> {
        self.storage.txs()
    }

    /// The state roots in the store, by height.
    pub closed spec fn stored_state_roots(&self) -> Map<u64, types::Hash> {
        self.storage.state_roots()
    }

    /// What one proposer round at the time `timestamp_ms` makes of the
    /// engine `before`, with the result `r`. The round counter advances;
    /// mempool, proposer, stored transactions and stored state roots stay,
    /// and no height in the store comes to name a missing block.
    /// With nothing pending the result is `Ok(None)`, and chain, tip and
    /// store stay. Else the block proposed over the batch is handed to
    /// the store: if the store takes it, the block is reported with its
    /// certificate, is the new tip and the last of the chain, and is in
    /// the store under its id and its height; if the store fails, the
    /// failure is reported, chain and tip stay, and the store is as it
    /// was or holds the block, with or without its height.
    pub open spec fn stepped(
        before: Self,
        after: Self,
        timestamp_ms: u64,
        r: Result<Option<FinalityEvent>, ConsensusError>,
    ) -> bool {
        let batch = priority_batch(before.pending(), BATCH_SIZE as nat);
        let block = proposal(batch, before.height(), before.tip(), timestamp_ms, before.proposer());
        &&& after.view_number() == before.view_number() + 1
        &&& after.pending() == before.pending()
        &&& after.capacity() == before.capacity()
        &&& after.proposer() == before.proposer()
        &&& after.stored_txs() == before.stored_txs()
        &&& after.stored_state_roots() == before.stored_state_roots()
        &&& heights_resolve(before.stored_blocks(), before.stored_heights()) ==> heights_resolve(
            after.stored_blocks(),
            after.stored_heights(),
        )
        &&& after.height() == after.committed().len()
        &&& batch.len() == 0 ==> {
            &&& r is Ok && r->Ok_0 is None
            &&& after.committed() == before.committed()
            &&& after.tip() == before.tip()
            &&& after.stored_blocks() == before.stored_blocks()
            &&& after.stored_heights() == before.stored_heights()
        }
        &&& batch.len() > 0 ==> (match r {
            Ok(Some(FinalityEvent::BlockCommitted { block: b, qc })) => {
                &&& b@ == block
                &&& qc.view.0 == after.view_number()
                &&& qc.block_id == block_id_of(block.header)
                &&& after.committed() == before.committed().push(block)
                &&& after.tip() == Some(block_id_of(block.header))
                &&& after.stored_blocks() == before.stored_blocks().insert(
                    block_id_of(block.header),
                    block,
                )
                &&& after.stored_heights() == before.stored_heights().insert(
                    block.header.height,
                    block_id_of(block.header),
                )
            },
            Ok(None) => false,
            Err(e) => {
                &&& e is Storage
                &&& after.committed() == before.committed()
                &&& after.tip() == before.tip()
                &&& after.stored_blocks() == before.stored_blocks() || after.stored_blocks()
                    == before.stored_blocks().insert(block_id_of(block.header), block)
                &&& after.stored_heights() == before.stored_heights() || (after.stored_heights()
                    == before.stored_heights().insert(
                    block.header.height,
                    block_id_of(block.header),
                ) && after.stored_blocks() == before.stored_blocks().insert(
                    block_id_of(block.header),
                    block,
                ))
            },
        })
    }

    /// In every state of the engine the committed blocks form a chain:
    /// the k-th has height k, the first has no parent, each later one has
    /// the one before it as parent, and each transaction root is the
    /// Merkle root of the block's transactions. The tip is the last of them.
    pub proof fn lemma_committed_chain(&self)
        requires
            self.wf(),
        ensures
            is_chain(self.committed()),
            self.height() == self.committed().len(),
            self.height() <= self.view_number(),
            self.tip() == (if self.committed().len() == 0 {
                None
            } else {
                Some(block_id_of(self.committed().last().header))
            }),
    {
    }

    /// An engine that has run no round and committed no block.
    pub fn new(mempool: M, storage: S) -> (e: Self)
        requires
            mempool.wf(),
            storage.wf(),
        ensures
            e.wf(),
            e.view_number() == 0,
            e.height() == 0,
            e.tip() is None,
            e.committed() == Seq::<BlockView>::empty(),
            e.pending() == mempool.pending(),
            e.capacity() == mempool.capacity(),
            e.stored_blocks() == storage.blocks(),
            e.stored_heights() == storage.heights(),
            e.stored_txs() == storage.txs(),
            e.stored_state_roots() == storage.state_roots(),
            e.proposer() == types::Hash::zero().0,
    {
        SingleNodeConsensus {
            view: ViewNumber(0),
            validator: ValidatorId([0u8; 32]),
            mempool,
            storage,
            last_block_id: None,
            last_height: 0,
            committed: Ghost(Seq::empty()),
        }
    }

    /// The number of rounds run so far.
    pub fn view(&self) -> (v: ViewNumber)
        ensures
            v.0 == self.view_number(),
    {
        self.view
    }

    /// The id of the last committed block, if any.
    pub fn last_block_id(&self) -> (id: Option<BlockId>)
        ensures
            id == self.tip(),
    {
        self.last_block_id
    }

    /// The height of the last committed block, 0 if there is none.
    pub fn last_height(&self) -> (h: u64)
        ensures
            h == self.height(),
    {
        self.last_height
    }

    /// The mempool, to read what is pending.
    pub fn mempool(&self) -> (m: &M)
        requires
            self.wf(),
        ensures
            m.wf(),
            m.pending() == self.pending(),
            m.capacity() == self.capacity(),
    {
        &self.mempool
    }

    /// The store, to read what was committed.
    pub fn storage(&self) -> (s: &S)
        requires
            self.wf(),
        ensures
            s.wf(),
            s.blocks() == self.stored_blocks(),
            s.heights() == self.stored_heights(),
            s.txs() == self.stored_txs(),
            s.state_roots() == self.stored_state_roots(),
    {
        &self.storage
    }

    /// Drops the transactions with the given ids from the mempool. The
    /// engine never does so by itself: a committed transaction stays
    /// pending, and is proposed again, until the caller removes it here.
    pub fn remove_committed(&mut self, ids: &[TxId])
        requires
            old(self).wf(),
        ensures
            final(self).wf(),
            final(self).pending() == without(old(self).pending(), ids@),
            final(self).capacity() == old(self).capacity(),
            final(self).view_number() == old(self).view_number(),
            final(self).committed() == old(self).committed(),
            final(self).tip() == old(self).tip(),
            final(self).height() == old(self).height(),
            final(self).proposer() == old(self).proposer(),
            final(self).stored_blocks() == old(self).stored_blocks(),
            final(self).stored_heights() == old(self).stored_heights(),
            final(self).stored_txs() == old(self).stored_txs(),
            final(self).stored_state_roots() == old(self).stored_state_roots(),
    {
        self.mempool.remove_committed(ids);
    }

    /// The block to propose at `timestamp_ms`: over the first `BATCH_SIZE`
    /// pending transactions by priority, on top of the tip; `None` when
    /// nothing is pending. The engine stays as it is.
    pub fn build_block(&mut self, timestamp_ms: u64) -> (r: Result<Option<Block>, ConsensusError>)
        requires
            old(self).wf(),
            old(self).height() < u64::MAX,
        ensures
            *final(self) == *old(self),
            r is Ok,
            priority_batch(old(self).pending(), BATCH_SIZE as nat).len() == 0 ==> r->Ok_0 is None,
            priority_batch(old(self).pending(), BATCH_SIZE as nat).len() > 0 ==> r->Ok_0 is Some
                && r->Ok_0->Some_0@ == proposal(
                priority_batch(old(self).pending(), BATCH_SIZE as nat),
                old(self).height(),
                old(self).tip(),
                timestamp_ms,
                old(self).proposer(),
            ),
    {
        let batch = self.mempool.get_batch(BATCH_SIZE);
        if batch.len() == 0 {
            return Ok(None);
        }
        let ghost taken = priority_batch(self.mempool.pending(), BATCH_SIZE as nat);
        let mut tx_ids: Vec<TxId> = Vec::with_capacity(batch.len());
        let mut i: usize = 0;
        while i < batch.len()
            invariant
                i <= batch.len(),
                tx_ids@.len() == i,
                forall|j: int| 0 <= j < i ==> tx_ids@[j] == batch@[j].0,
            decreases batch.len() - i,
        {
            tx_ids.push(batch[i].0);
            i = i + 1;
        }
        proof {
            assert(crate::mempool::entries_view(batch@) == taken);
            assert forall|j: int| 0 <= j < batch@.len() implies tx_ids@[j] == taken[j].0 by {
                assert(crate::mempool::entries_view(batch@)[j].0 == batch@[j].0);
            }
            assert(tx_ids@ =~= ids_of(taken));
        }
        let tx_root = merkle_root(tx_ids.as_slice());
        let header = BlockHeader {
            height: self.last_height + 1,
            parent: self.last_block_id,
            tx_root,
            state_root: types::Hash::zeroed(),
            timestamp_ms,
            proposer: self.validator.0,
        };
        Ok(Some(Block { header, txs: tx_ids }))
    }

    /// One proposer round at the given time: see `stepped`. Over a store
    /// whose writes cannot fail the round succeeds.
    pub fn step_at(&mut self, timestamp_ms: u64) -> (r: Result<Option<FinalityEvent>, ConsensusError>)
        requires
            old(self).wf(),
            old(self).view_number() < u64::MAX,
        ensures
            final(self).wf(),
            Self::stepped(*old(self), *final(self), timestamp_ms, r),
            S::puts_succeed() ==> r is Ok,
    {
        self.view = ViewNumber(self.view.0 + 1);
        let built = self.build_block(timestamp_ms);
        let block = match built {
            Ok(Some(block)) => block,
            Ok(None) => {
                return Ok(None);
            },
            Err(e) => {
                return Err(e);
            },
        };
        let block_id = block.header.id();
        let height = block.header.height;
        let ghost view = block@;
        let stored = self.storage.put_block(block.clone());
        match settle(block, self.view, stored) {
            Ok(event) => {
                self.last_block_id = Some(block_id);
                self.last_height = height;
                proof {
                    self.committed@ = self.committed@.push(view);
                }
                Ok(Some(event))
            },
            Err(e) => Err(e),
        }
    }
}

impl Default for SingleNodeConsensus<SimpleMempool, InMemoryStorage> {
    fn default() -> (e: Self)
        ensures
            e.wf(),
            e.view_number() == 0,
            e.height() == 0,
            e.tip() is None,
            e.committed() == Seq::<BlockView>::empty(),
            e.pending() == Seq::<(TxId, TransactionView)>::empty(),
            e.capacity() == 10_000,
    {
        SingleNodeConsensus::new(SimpleMempool::default(), InMemoryStorage::default())
    }
}

impl<M, S> ConsensusEngine for SingleNodeConsensus<M, S> where
    M: Mempool,
    S: BlockStore + StateStore + TxStore,
 {
    open spec fn inv(&self) -> bool {
        self.wf()
    }

    open spec fn rounds_left(&self) -> bool {
        self.view_number() < u64::MAX
    }

    open spec fn pending_txs(&self) -> Seq<(TxId, TransactionView)> {
        self.pending()
    }

    open spec fn pending_limit(&self) -> nat {
        self.capacity()
    }

    /// Hands `tx` to the mempool: a full mempool refuses it with `Mempool`
    /// and the text of its error; else the id of `tx` comes back and the
    /// transaction is pending, once.
    fn submit_tx(&mut self, tx: Transaction) -> (r: Result<TxId, ConsensusError>)
        ensures
            final(self).wf(),
            final(self).view_number() == old(self).view_number(),
            final(self).committed() == old(self).committed(),
            final(self).tip() == old(self).tip(),
            final(self).height() == old(self).height(),
            final(self).proposer() == old(self).proposer(),
            final(self).capacity() == old(self).capacity(),
            final(self).stored_blocks() == old(self).stored_blocks(),
            final(self).stored_heights() == old(self).stored_heights(),
            final(self).stored_txs() == old(self).stored_txs(),
            final(self).stored_state_roots() == old(self).stored_state_roots(),
            final(self).pending() == inserted(old(self).pending(), old(self).capacity(), tx@),
            r is Err <==> old(self).pending().len() >= old(self).capacity(),
            r is Err ==> r->Err_0 is Mempool && r->Err_0->Mempool_0@ == "mempool is full"@,
            r is Ok ==> r->Ok_0 == tx.id(),
    {
        match self.mempool.insert(tx) {
            Ok(id) => Ok(id),
            Err(e) => Err(ConsensusError::Mempool(e.to_string())),
        }
    }

    /// One proposer round at the time that the wall clock shows: what
    /// `step_at` does at some time, which is the timestamp of the block
    /// if one is committed.
    fn step(&mut self) -> (r: Result<Option<FinalityEvent>, ConsensusError>)
        ensures
            final(self).wf(),
            exists|timestamp_ms: u64| #[trigger]
                Self::stepped(*old(self), *final(self), timestamp_ms, r),
            S::puts_succeed() ==> r is Ok,
    {
        let now_ms = unix_time_ms();
        let r = self.step_at(now_ms);
        proof {
            assert(Self::stepped(*old(self), *self, now_ms, r));
        }
        r
    }
}

} // verus!
