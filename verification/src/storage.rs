//! The three stores of the sequencer (blocks, transactions, state roots) as
//! capabilities, and the volatile backend that keeps them in memory.
use crate::id_list::IdList;
use crate::types;
use crate::types::{Block, BlockId, BlockView, Transaction, TransactionView, TxId};
use std::collections::HashMap;
use vstd::prelude::*;
use vstd::string::StringExecFns;

verus! {

broadcast use vstd::std_specs::hash::group_hash_axioms;

/// Why a storage operation failed.
#[derive(Debug)]
pub enum StorageError {
    /// The key is absent.
    NotFound,
    /// The durable engine failed; the text is its report.
    Backend(String),
}

/// The text `a` followed by the text `b`.
pub(crate) fn concat_text(a: &str, b: &str) -> (s: String)
    ensures
        s@ == a@ + b@,
{
    let mut s = a.to_owned();
    s.append(b);
    s
}

/// The text of a storage error.
pub open spec fn storage_error_text(e: StorageError) -> Seq<char> {
    match e {
        StorageError::NotFound => "not found"@,
        StorageError::Backend(msg) => "backend error: "@ + msg@,
    }
}

impl StorageError {
    /// The error as text: `not found`, or `backend error: ` and the report.
    pub fn to_string(&self) -> (s: String)
        ensures
            s@ == storage_error_text(*self),
    {
        match self {
            StorageError::NotFound => "not found".to_owned(),
            StorageError::Backend(msg) => concat_text("backend error: ", msg.as_str()),
        }
    }
}

/// What a store holds: blocks by id, ids by height, transactions by id
/// and state roots by height. Each capability of a store reads or writes
/// a part of it and leaves the rest as it is.
pub trait Store {
    /// The invariant of the store.
    spec fn wf(&self) -> bool;

    /// The blocks held, by id.
    spec fn blocks(&self) -> Map<BlockId, BlockView>;

    /// The id recorded for each height.
    spec fn heights(&self) -> Map<u64, BlockId>;

    /// The transactions held, by id.
    spec fn txs(&self) -> Map<TxId, TransactionView>;

    /// The state root recorded for each height.
    spec fn state_roots(&self) -> Map<u64, types::Hash>;

    /// Whether writing to a store of this kind cannot fail.
    spec fn puts_succeed() -> bool;
}

/// Whether every height on record names a block on record.
pub open spec fn heights_resolve(
    blocks: Map<BlockId, BlockView>,
    heights: Map<u64, BlockId>,
) -> bool {
    forall|h: u64| #[trigger] heights.contains_key(h) ==> blocks.contains_key(heights[h])
}

/// A store of blocks, found by id and by height.
pub trait BlockStore: Store {
    /// Records `block` under its id, and its id under its height.
    /// Transactions and state roots stay as they are. A failure is a
    /// backend failure, and leaves the store as it was, or with the block
    /// recorded, or with block and height recorded: the height is never
    /// recorded without the block. So whether the call succeeds or fails,
    /// it leaves no height that names a missing block, if there was none
    /// before.
    fn put_block(&mut self, block: Block) -> (r: Result<(), StorageError>)
        requires
            old(self).wf(),
        ensures
            final(self).wf(),
            r is Ok ==> final(self).blocks() == old(self).blocks().insert(
                block.header.id(),
                block@,
            ),
            r is Ok ==> final(self).heights() == old(self).heights().insert(
                block.header.height,
                block.header.id(),
            ),
            final(self).txs() == old(self).txs(),
            final(self).state_roots() == old(self).state_roots(),
            heights_resolve(old(self).blocks(), old(self).heights()) ==> heights_resolve(
                final(self).blocks(),
                final(self).heights(),
            ),
            r is Err ==> r->Err_0 is Backend,
            r is Err ==> final(self).blocks() == old(self).blocks()
                || final(self).blocks() == old(self).blocks().insert(block.header.id(), block@),
            r is Err ==> final(self).heights() == old(self).heights() || (final(self).heights()
                == old(self).heights().insert(block.header.height, block.header.id())
                && final(self).blocks() == old(self).blocks().insert(block.header.id(), block@)),
            Self::puts_succeed() ==> r is Ok,
    ;

    /// The block with the given id; `NotFound` only when there is none.
    fn get_block(&self, id: BlockId) -> (r: Result<Block, StorageError>)
        requires
            self.wf(),
        ensures
            r is Ok ==> self.blocks().contains_key(id) && r->Ok_0@ == self.blocks()[id],
            r is Err && r->Err_0 is NotFound ==> !self.blocks().contains_key(id),
    ;

    /// The block recorded at the given height, found through its id;
    /// `NotFound` only when the height or the block is missing.
    fn get_block_by_height(&self, height: u64) -> (r: Result<Block, StorageError>)
        requires
            self.wf(),
        ensures
            r is Ok ==> self.heights().contains_key(height) && self.blocks().contains_key(
                self.heights()[height],
            ) && r->Ok_0@ == self.blocks()[self.heights()[height]],
            r is Err && r->Err_0 is NotFound ==> !self.heights().contains_key(height)
                || !self.blocks().contains_key(self.heights()[height]),
    ;
}

/// A content-addressed store of transactions.
pub trait TxStore: Store {
    /// Records `tx` under its id and returns the id. Blocks, heights and
    /// state roots stay as they are. A failure is a backend failure, and
    /// leaves the transactions as they were or with `tx` recorded.
    fn put_tx(&mut self, tx: Transaction) -> (r: Result<TxId, StorageError>)
        requires
            old(self).wf(),
        ensures
            final(self).wf(),
            r is Ok ==> r->Ok_0 == tx.id() && final(self).txs() == old(self).txs().insert(
                tx.id(),
                tx@,
            ),
            final(self).blocks() == old(self).blocks(),
            final(self).heights() == old(self).heights(),
            final(self).state_roots() == old(self).state_roots(),
            r is Err ==> r->Err_0 is Backend,
            r is Err ==> final(self).txs() == old(self).txs()
                || final(self).txs() == old(self).txs().insert(tx.id(), tx@),
            Self::puts_succeed() ==> r is Ok,
    ;

    /// The transaction with the given id; `NotFound` only when there is none.
    fn get_tx(&self, id: TxId) -> (r: Result<Transaction, StorageError>)
        requires
            self.wf(),
        ensures
            r is Ok ==> self.txs().contains_key(id) && r->Ok_0@ == self.txs()[id],
            r is Err && r->Err_0 is NotFound ==> !self.txs().contains_key(id),
    ;
}

/// Whether `h` is the greatest height in `roots`.
pub open spec fn is_latest(roots: Map<u64, types::Hash>, h: u64) -> bool {
    roots.contains_key(h) && forall|k: u64| roots.contains_key(k) ==> k <= h
}

/// A store of state roots by height.
pub trait StateStore: Store {
    /// Records `root` for `height`. Blocks, heights and transactions stay
    /// as they are. A failure is a backend failure, and leaves the state
    /// roots as they were or with `root` recorded.
    fn put_state_root(&mut self, height: u64, root: types::Hash) -> (r: Result<(), StorageError>)
        requires
            old(self).wf(),
        ensures
            final(self).wf(),
            r is Ok ==> final(self).state_roots() == old(self).state_roots().insert(height, root),
            final(self).blocks() == old(self).blocks(),
            final(self).heights() == old(self).heights(),
            final(self).txs() == old(self).txs(),
            r is Err ==> r->Err_0 is Backend,
            r is Err ==> final(self).state_roots() == old(self).state_roots()
                || final(self).state_roots() == old(self).state_roots().insert(height, root),
            Self::puts_succeed() ==> r is Ok,
    ;

    /// The greatest height recorded and its root; `NotFound` only when
    /// nothing is recorded.
    fn latest_state_root(&self) -> (r: Result<(u64, types::Hash), StorageError>)
        requires
            self.wf(),
        ensures
            r is Ok ==> is_latest(self.state_roots(), r->Ok_0.0) && r->Ok_0.1
                == self.state_roots()[r->Ok_0.0],
            r is Err && r->Err_0 is NotFound ==> forall|k: u64| !self.state_roots().contains_key(k),
    ;
}

/// The volatile backend: everything is kept in memory and lost on restart.
/// Blocks and transactions are kept in the order of their arrival, with a
/// list of their ids to find them by.
pub struct InMemoryStorage {
    blocks_by_id: Vec<(BlockId, Block)>,
    block_ids: IdList,
    blocks_by_height: HashMap<u64, BlockId>,
    txs: Vec<(TxId, Transaction)>,
    tx_ids: IdList,
    state_roots: HashMap<u64, types::Hash>,
    latest_height: Option<u64>,
    block_model: Ghost<Map<BlockId, BlockView>>,
    tx_model: Ghost<Map<TxId, TransactionView>>,
}

/// Whether `model` maps exactly the keys of `entries`, each to its block.
spec fn models_blocks(
    entries: Seq<(BlockId, Block)>,
    model: Map<BlockId, BlockView>,
) -> bool {
    &&& forall|i: int|
        0 <= i < entries.len() ==> model.contains_key(#[trigger] entries[i].0)
            && model[entries[i].0] == entries[i].1@
    &&& forall|id: BlockId| #[trigger]
        model.contains_key(id) ==> exists|i: int| 0 <= i < entries.len() && entries[i].0 == id
    &&& forall|i: int, j: int|
        0 <= i < j < entries.len() ==> (#[trigger] entries[i]).0 != (#[trigger] entries[j]).0
}

/// Whether `model` maps exactly the keys of `entries`, each to its transaction.
spec fn models_txs(
    entries: Seq<(TxId, Transaction)>,
    model: Map<TxId, TransactionView>,
) -> bool {
    &&& forall|i: int|
        0 <= i < entries.len() ==> model.contains_key(#[trigger] entries[i].0)
            && model[entries[i].0] == entries[i].1@
    &&& forall|id: TxId| #[trigger]
        model.contains_key(id) ==> exists|i: int| 0 <= i < entries.len() && entries[i].0 == id
    &&& forall|i: int, j: int|
        0 <= i < j < entries.len() ==> (#[trigger] entries[i]).0 != (#[trigger] entries[j]).0
}

/// The hashes of the ids of a list of blocks, in order.
pub open spec fn block_keys(entries: Seq<(BlockId, Block)>) -> Seq<types::Hash> {
    Seq::new(entries.len(), |i: int| entries[i].0.0)
}

/// The hashes of the ids of a list of transactions, in order.
pub open spec fn tx_keys(entries: Seq<(TxId, Transaction)>) -> Seq<types::Hash> {
    Seq::new(entries.len(), |i: int| entries[i].0.0)
}

/// The position of the block with id `id`, if there is one; `ids` lists
/// the ids of `entries`.
fn find_block(entries: &Vec<(BlockId, Block)>, ids: &IdList, id: &BlockId) -> (r: Option<usize>)
    requires
        ids.wf(),
        ids@ == block_keys(entries@),
    ensures
        match r {
            Some(i) => i < entries@.len() && entries@[i as int].0 == *id,
            None => forall|i: int| 0 <= i < entries@.len() ==> (#[trigger] entries@[i]).0 != *id,
        },
{
    let found = ids.position_of(&id.0);
    proof {
        match found {
            Some(i) => {
                assert(block_keys(entries@)[i as int] == id.0);
            },
            None => {
                assert forall|i: int| 0 <= i < entries@.len() implies (#[trigger] entries@[i]).0
                    != *id by {
                    assert(block_keys(entries@)[i] == entries@[i].0.0);
                }
            },
        }
    }
    found
}

/// The position of the transaction with id `id`, if there is one; `ids`
/// lists the ids of `entries`.
pub(crate) fn find_tx(entries: &Vec<(TxId, Transaction)>, ids: &IdList, id: &TxId) -> (r: Option<
    usize,
>)
    requires
        ids.wf(),
        ids@ == tx_keys(entries@),
    ensures
        match r {
            Some(i) => i < entries@.len() && entries@[i as int].0 == *id,
            None => forall|i: int| 0 <= i < entries@.len() ==> (#[trigger] entries@[i]).0 != *id,
        },
{
    let found = ids.position_of(&id.0);
    proof {
        match found {
            Some(i) => {
                assert(tx_keys(entries@)[i as int] == id.0);
            },
            None => {
                assert forall|i: int| 0 <= i < entries@.len() implies (#[trigger] entries@[i]).0
                    != *id by {
                    assert(tx_keys(entries@)[i] == entries@[i].0.0);
                }
            },
        }
    }
    found
}

impl Store for InMemoryStorage {
    /// The invariant that ties the fields together.
    closed spec fn wf(&self) -> bool {
        &&& models_blocks(self.blocks_by_id@, self.block_model@)
        &&& models_txs(self.txs@, self.tx_model@)
        &&& self.block_ids.wf()
        &&& self.block_ids@ == block_keys(self.blocks_by_id@)
        &&& self.tx_ids.wf()
        &&& self.tx_ids@ == tx_keys(self.txs@)
        &&& forall|h: u64| #[trigger]
            self.blocks_by_height@.contains_key(h) ==> self.block_model@.contains_key(
                self.blocks_by_height@[h],
            )
        &&& match self.latest_height {
            Some(h) => is_latest(self.state_roots@, h),
            None => forall|k: u64| !self.state_roots@.contains_key(k),
        }
    }

    closed spec fn blocks(&self) -> Map<BlockId, BlockView> {
        self.block_model@
    }

    closed spec fn heights(&self) -> Map<u64, BlockId> {
        self.blocks_by_height@
    }

    closed spec fn txs(&self) -> Map<TxId, TransactionView> {
        self.tx_model@
    }

    closed spec fn state_roots(&self) -> Map<u64, types::Hash> {
        self.state_roots@
    }

    open spec fn puts_succeed() -> bool {
        true
    }
}

impl InMemoryStorage {
    /// An empty store.
    pub fn new() -> (s: Self)
        ensures
            s.wf(),
            s.blocks() == Map::<BlockId, BlockView>::empty(),
            s.heights() == Map::<u64, BlockId>::empty(),
            s.txs() == Map::<TxId, TransactionView>::empty(),
            s.state_roots() == Map::<u64, types::Hash>::empty(),
    {
        let s = InMemoryStorage {
            blocks_by_id: Vec::new(),
            block_ids: IdList::new(),
            blocks_by_height: HashMap::new(),
            txs: Vec::new(),
            tx_ids: IdList::new(),
            state_roots: HashMap::new(),
            latest_height: None,
            block_model: Ghost(Map::empty()),
            tx_model: Ghost(Map::empty()),
        };
        proof {
            assert(s.block_ids@ =~= block_keys(s.blocks_by_id@));
            assert(s.tx_ids@ =~= tx_keys(s.txs@));
        }
        s
    }

    /// Every height on record leads to a block on record.
    pub proof fn lemma_heights_resolve(&self, height: u64)
        requires
            self.wf(),
            self.heights().contains_key(height),
        ensures
            self.blocks().contains_key(self.heights()[height]),
    {
    }
}

impl Default for InMemoryStorage {
    fn default() -> (s: Self)
        ensures
            s.wf(),
            s.blocks() == Map::<BlockId, BlockView>::empty(),
            s.heights() == Map::<u64, BlockId>::empty(),
            s.txs() == Map::<TxId, TransactionView>::empty(),
            s.state_roots() == Map::<u64, types::Hash>::empty(),
    {
        InMemoryStorage::new()
    }
}

impl BlockStore for InMemoryStorage {
    fn put_block(&mut self, block: Block) -> (r: Result<(), StorageError>)
        ensures
            r is Ok,
    {
        let id = block.header.id();
        let height = block.header.height;
        let ghost view = block@;
        let ghost before = self.blocks_by_id@;
        let ghost model = self.block_model@;
        self.blocks_by_height.insert(height, id);
        let found = find_block(&self.blocks_by_id, &self.block_ids, &id);
        let ghost at: int = match found {
            Some(i) => i as int,
            None => before.len() as int,
        };
        match found {
            Some(i) => {
                self.blocks_by_id[i] = (id, block);
            },
            None => {
                self.blocks_by_id.push((id, block));
                self.block_ids.push(id.0);
            },
        }
        proof {
            self.block_model@ = model.insert(id, view);
            let entries = self.blocks_by_id@;
            assert(entries[at].0 == id);
            assert(self.block_ids@ =~= block_keys(entries));
            assert forall|k: BlockId| #[trigger] model.insert(id, view).contains_key(k) implies exists|
                i: int,
            |
                0 <= i < entries.len() && entries[i].0 == k by {
                if k != id {
                    assert(model.contains_key(k));
                    let i = choose|i: int| 0 <= i < before.len() && before[i].0 == k;
                    assert(entries[i].0 == k);
                }
            }
        }
        Ok(())
    }

    fn get_block(&self, id: BlockId) -> (r: Result<Block, StorageError>)
        ensures
            r is Ok <==> self.blocks().contains_key(id),
            r is Err ==> r->Err_0 is NotFound,
    {
        match find_block(&self.blocks_by_id, &self.block_ids, &id) {
            Some(i) => Ok(self.blocks_by_id[i].1.clone()),
            None => Err(StorageError::NotFound),
        }
    }

    fn get_block_by_height(&self, height: u64) -> (r: Result<Block, StorageError>)
        ensures
            r is Ok <==> self.heights().contains_key(height),
            r is Err ==> r->Err_0 is NotFound,
    {
        match self.blocks_by_height.get(&height) {
            Some(id) => self.get_block(*id),
            None => Err(StorageError::NotFound),
        }
    }
}

impl TxStore for InMemoryStorage {
    fn put_tx(&mut self, tx: Transaction) -> (r: Result<TxId, StorageError>)
        ensures
            r is Ok,
    {
        let id = tx.id();
        let ghost view = tx@;
        let ghost before = self.txs@;
        let ghost model = self.tx_model@;
        let found = find_tx(&self.txs, &self.tx_ids, &id);
        let ghost at: int = match found {
            Some(i) => i as int,
            None => before.len() as int,
        };
        match found {
            Some(i) => {
                self.txs[i] = (id, tx);
            },
            None => {
                self.txs.push((id, tx));
                self.tx_ids.push(id.0);
            },
        }
        proof {
            self.tx_model@ = model.insert(id, view);
            let entries = self.txs@;
            assert(entries[at].0 == id);
            assert(self.tx_ids@ =~= tx_keys(entries));
            assert forall|k: TxId| #[trigger] model.insert(id, view).contains_key(k) implies exists|
                i: int,
            |
                0 <= i < entries.len() && entries[i].0 == k by {
                if k != id {
                    assert(model.contains_key(k));
                    let i = choose|i: int| 0 <= i < before.len() && before[i].0 == k;
                    assert(entries[i].0 == k);
                }
            }
        }
        Ok(id)
    }

    fn get_tx(&self, id: TxId) -> (r: Result<Transaction, StorageError>)
        ensures
            r is Ok <==> self.txs().contains_key(id),
            r is Err ==> r->Err_0 is NotFound,
    {
        match find_tx(&self.txs, &self.tx_ids, &id) {
            Some(i) => Ok(self.txs[i].1.clone()),
            None => Err(StorageError::NotFound),
        }
    }
}

impl StateStore for InMemoryStorage {
    fn put_state_root(&mut self, height: u64, root: types::Hash) -> (r: Result<(), StorageError>)
        ensures
            r is Ok,
    {
        self.state_roots.insert(height, root);
        let raised = match self.latest_height {
            Some(h) => height > h,
            None => true,
        };
        if raised {
            self.latest_height = Some(height);
        }
        Ok(())
    }

    fn latest_state_root(&self) -> (r: Result<(u64, types::Hash), StorageError>)
        ensures
            r is Ok <==> exists|k: u64| self.state_roots().contains_key(k),
            r is Err ==> r->Err_0 is NotFound,
    {
        match self.latest_height {
            Some(h) => {
                proof {
                    assert(self.state_roots().contains_key(h));
                }
                match self.state_roots.get(&h) {
                    Some(root) => Ok((h, *root)),
                    None => Err(StorageError::NotFound),
                }
            },
            None => Err(StorageError::NotFound),
        }
    }
}

/// A block that a store has taken is found again, by its id and by its
/// height: if `after` is a store as `put_block` leaves it on success, it
/// holds `block` under the block's id, and that id under the block's height.
pub proof fn lemma_stored_block_found<S: BlockStore>(before: S, after: S, block: Block)
    requires
        after.blocks() == before.blocks().insert(block.header.id(), block@),
        after.heights() == before.heights().insert(block.header.height, block.header.id()),
    ensures
        after.blocks().contains_key(block.header.id()),
        after.blocks()[block.header.id()] == block@,
        after.heights().contains_key(block.header.height),
        after.blocks().contains_key(after.heights()[block.header.height]),
        after.blocks()[after.heights()[block.header.height]] == block@,
{
}

/// A transaction that a store has taken is found again by its id.
pub proof fn lemma_stored_tx_found<S: TxStore>(before: S, after: S, tx: Transaction)
    requires
        after.txs() == before.txs().insert(tx.id(), tx@),
    ensures
        after.txs().contains_key(tx.id()),
        after.txs()[tx.id()] == tx@,
{
}

/// Putting a transaction that the store holds under its id changes nothing.
pub proof fn lemma_put_tx_idempotent<S: TxStore>(before: S, after: S, tx: Transaction)
    requires
        before.txs().contains_key(tx.id()),
        before.txs()[tx.id()] == tx@,
        after.txs() == before.txs().insert(tx.id(), tx@),
    ensures
        after.txs() == before.txs(),
{
    assert(after.txs() =~= before.txs());
}

/// The state roots on record after the records `puts` are put in turn.
pub open spec fn roots_after(start: Map<u64, types::Hash>, puts: Seq<(u64, types::Hash)>) -> Map<
    u64,
    types::Hash,
>
    decreases puts.len(),
{
    if puts.len() == 0 {
        start
    } else {
        roots_after(start, puts.drop_last()).insert(puts.last().0, puts.last().1)
    }
}

/// After a series of puts into an empty store the heights on record are
/// those that were put, each with the root that was put for it last.
pub proof fn lemma_roots_after(puts: Seq<(u64, types::Hash)>)
    ensures
        forall|j: int|
            0 <= j < puts.len() ==> roots_after(Map::empty(), puts).contains_key(
                (#[trigger] puts[j]).0,
            ),
        forall|k: u64| #[trigger]
            roots_after(Map::empty(), puts).contains_key(k) ==> exists|i: int|
                {
                    &&& 0 <= i < puts.len()
                    &&& (#[trigger] puts[i]).0 == k
                    &&& roots_after(Map::empty(), puts)[k] == puts[i].1
                    &&& forall|j: int| i < j < puts.len() ==> (#[trigger] puts[j]).0 != k
                },
    decreases puts.len(),
{
    if puts.len() > 0 {
        let front = puts.drop_last();
        lemma_roots_after(front);
        let before = roots_after(Map::empty(), front);
        let after = roots_after(Map::empty(), puts);
        let last = puts.len() - 1;
        assert forall|j: int| 0 <= j < puts.len() implies after.contains_key((#[trigger] puts[j]).0) by {
            if j < last {
                assert(front[j] == puts[j]);
            }
        }
        assert forall|k: u64| #[trigger] after.contains_key(k) implies exists|i: int|
            {
                &&& 0 <= i < puts.len()
                &&& (#[trigger] puts[i]).0 == k
                &&& after[k] == puts[i].1
                &&& forall|j: int| i < j < puts.len() ==> (#[trigger] puts[j]).0 != k
            } by {
            if k == puts[last].0 {
                assert(puts[last].0 == k && after[k] == puts[last].1);
            } else {
                assert(before.contains_key(k));
                let i = choose|i: int|
                    {
                        &&& 0 <= i < front.len()
                        &&& (#[trigger] front[i]).0 == k
                        &&& before[k] == front[i].1
                        &&& forall|j: int| i < j < front.len() ==> (#[trigger] front[j]).0 != k
                    };
                assert(puts[i] == front[i]);
                assert forall|j: int| i < j < puts.len() implies (#[trigger] puts[j]).0 != k by {
                    if j < last {
                        assert(front[j] == puts[j]);
                    }
                }
            }
        }
    }
}

/// The latest state root after a series of puts into an empty store is
/// the pair with the greatest height that was put: no put has a greater
/// height, and the root is the one put for that height last.
pub proof fn lemma_latest_after_puts(puts: Seq<(u64, types::Hash)>, h: u64)
    requires
        is_latest(roots_after(Map::empty(), puts), h),
    ensures
        forall|j: int| 0 <= j < puts.len() ==> (#[trigger] puts[j]).0 <= h,
        exists|i: int|
            {
                &&& 0 <= i < puts.len()
                &&& (#[trigger] puts[i]).0 == h
                &&& roots_after(Map::empty(), puts)[h] == puts[i].1
                &&& forall|j: int| i < j < puts.len() ==> (#[trigger] puts[j]).0 != h
            },
{
    lemma_roots_after(puts);
}

} // verus!
