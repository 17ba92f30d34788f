//! The durable backend: the three stores kept in four trees of a sled
//! database. Keys are raw bytes (an id's 32 bytes, a height's eight
//! big-endian bytes); values are canonical encodings.
use crate::codec::{
    be64, block_encodable, decode_block, decode_transaction, decoded_block, decoded_tx, encode_block,
    encode_transaction, encode_tx, encode_whole_block, from_be64, hash_from_bytes, hash_from_slice,
    lemma_be64, lemma_be64_injective, lemma_block_round_trip, lemma_hash_from_bytes,
    lemma_tx_round_trip, tx_encodable, u64_from_be, u64_to_be,
};
use crate::storage::{heights_resolve, BlockStore, StateStore, StorageError, Store, TxStore};
use crate::types;
use crate::types::{Block, BlockId, BlockView, Transaction, TransactionView, TxId};
use vstd::prelude::*;
use vstd::utf8::encode_utf8;

verus! {

/// `sled::Db`, the handle of an open database. Nothing is known of it.
#[verifier::external_type_specification]
#[verifier::external_body]
pub struct ExSledDb(sled::Db);

/// `sled::Tree`, one keyspace of a database. What it holds is spoken of
/// through `tree_contents`.
#[verifier::external_type_specification]
#[verifier::external_body]
pub struct ExSledTree(sled::Tree);

/// `sled::Error`, what a failed operation of sled returns. Nothing is
/// known of it but its text.
#[verifier::external_type_specification]
#[verifier::external_body]
pub struct ExSledError(sled::Error);

/// What a sled tree holds: its values by key.
pub uninterp spec fn tree_contents(tree: sled::Tree) -> Map<Seq<u8>, Seq<u8>>;

/// The name of a sled tree, as `sled::Tree::name` gives it: the bytes
/// under which the tree was opened.
pub uninterp spec fn tree_name(tree: sled::Tree) -> Seq<u8>;

/// The records of a sled tree that are stable on disk, so that sled
/// recovers them after a crash. sled makes records stable by itself from
/// time to time; this library knows them only where a flush has just
/// succeeded.
pub uninterp spec fn tree_flushed(tree: sled::Tree) -> Map<Seq<u8>, Seq<u8>>;

/// The path of a sled database, as `get_path` of its configuration gives
/// it: the path at which the database was opened.
pub uninterp spec fn db_path(db: sled::Db) -> Seq<char>;

/// `sled::open`: opens the database at `path`, creating it if there is
/// none. The database that comes back is the one at `path`. Nothing is
/// claimed of what it holds, nor of when the call succeeds.
#[verifier::external_body]
fn open_db(path: &str) -> (r: Result<sled::Db, sled::Error>)
    ensures
        r is Ok ==> db_path(r->Ok_0) == path@,
{
    sled::open(path)
}

/// `sled::Db::open_tree`: opens the tree of the given name, creating it
/// if there is none. The tree that comes back has that name. Nothing is
/// claimed of what it holds, nor of when the call succeeds.
#[verifier::external_body]
fn open_tree(db: &sled::Db, name: &str) -> (r: Result<sled::Tree, sled::Error>)
    ensures
        r is Ok ==> tree_name(r->Ok_0) == encode_utf8(name@),
{
    db.open_tree(name)
}

/// `sled::Tree::insert`: when it succeeds, the tree holds `value` under
/// `key` and is otherwise as before. When it fails, the tree is as before
/// or holds `value` under `key`: sled fails before it changes the tree,
/// or after it has changed it and while it writes its log. The tree
/// keeps its name either way.
#[verifier::external_body]
fn tree_insert(tree: &mut sled::Tree, key: &[u8], value: &[u8]) -> (r: Result<(), sled::Error>)
    ensures
        r is Ok ==> tree_contents(*final(tree)) == tree_contents(*old(tree)).insert(key@, value@),
        r is Err ==> tree_contents(*final(tree)) == tree_contents(*old(tree)) || tree_contents(
            *final(tree),
        ) == tree_contents(*old(tree)).insert(key@, value@),
        tree_name(*final(tree)) == tree_name(*old(tree)),
{
    tree.insert(key, value).map(|_| ())
}

/// `sled::Tree::get`: when it succeeds, the value under `key`, or `None`
/// if the tree holds none.
#[verifier::external_body]
fn tree_get(tree: &sled::Tree, key: &[u8]) -> (r: Result<Option<Vec<u8>>, sled::Error>)
    ensures
        match r {
            Ok(Some(v)) => tree_contents(*tree).contains_key(key@) && v@ == tree_contents(
                *tree,
            )[key@],
            Ok(None) => !tree_contents(*tree).contains_key(key@),
            Err(_) => true,
        },
{
    tree.get(key).map(|found| found.map(|v| v.to_vec()))
}

/// `sled::Tree::iter`, collected: when every item is read, the pairs are
/// the keys of the tree, each once and with its value.
#[verifier::external_body]
fn tree_pairs(tree: &sled::Tree) -> (r: Result<Vec<(Vec<u8>, Vec<u8>)>, sled::Error>)
    ensures
        r is Ok ==> {
            &&& forall|i: int|
                0 <= i < r->Ok_0@.len() ==> tree_contents(*tree).contains_key(
                    (#[trigger] r->Ok_0@[i]).0@,
                ) && tree_contents(*tree)[r->Ok_0@[i].0@] == r->Ok_0@[i].1@
            &&& forall|k: Seq<u8>| #[trigger]
                tree_contents(*tree).contains_key(k) ==> exists|i: int|
                    0 <= i < r->Ok_0@.len() && (#[trigger] r->Ok_0@[i]).0@ == k
        },
{
    tree.iter().map(|item| item.map(|(k, v)| (k.to_vec(), v.to_vec()))).collect()
}

/// `sled::Tree::flush`: writes what is buffered to disk and syncs. The
/// tree holds what it held and keeps its name; when the call succeeds,
/// all that the tree holds is stable on disk.
#[verifier::external_body]
fn tree_flush(tree: &mut sled::Tree) -> (r: Result<(), sled::Error>)
    ensures
        tree_contents(*final(tree)) == tree_contents(*old(tree)),
        tree_name(*final(tree)) == tree_name(*old(tree)),
        r is Ok ==> tree_flushed(*final(tree)) == tree_contents(*final(tree)),
{
    tree.flush().map(|_| ())
}

/// The text of a sled error, by its `Display`.
#[verifier::external_body]
fn error_text(e: &sled::Error) -> (s: String) {
    e.to_string()
}

/// A sled failure as a storage error: `Backend` with the text of the
/// failure. The text is sled's own and is not known here.
fn backend(e: sled::Error) -> (r: StorageError)
    ensures
        r is Backend,
{
    StorageError::Backend(error_text(&e))
}

/// The durable backend.
pub struct SledStorage {
    db: sled::Db,
    blocks: sled::Tree,
    blocks_by_height: sled::Tree,
    txs: sled::Tree,
    state_roots: sled::Tree,
}

/// The names of the four trees of the store, in the order `blocks`,
/// `blocks_by_height`, `txs`, `state_roots`.
pub open spec fn partition_names() -> Seq<Seq<u8>> {
    seq![
        encode_utf8("blocks"@),
        encode_utf8("blocks_by_height"@),
        encode_utf8("txs"@),
        encode_utf8("state_roots"@),
    ]
}

/// What a read of the tree `blocks` means: no record is `NotFound`, a
/// record that decodes is its block, any other record is a failure.
pub fn block_of_record(found: Option<Vec<u8>>) -> (r: Result<Block, StorageError>)
    ensures
        match found {
            None => r is Err && r->Err_0 is NotFound,
            Some(bytes) => match decoded_block(bytes@) {
                Some(view) => r is Ok && r->Ok_0@ == view,
                None => r is Err && r->Err_0 is Backend,
            },
        },
{
    match found {
        None => Err(StorageError::NotFound),
        Some(bytes) => match decode_block(bytes.as_slice()) {
            Some(block) => Ok(block),
            None => Err(StorageError::Backend("stored block does not decode".to_owned())),
        },
    }
}

/// What a read of the tree `txs` means: no record is `NotFound`, a
/// record that decodes is its transaction, any other record is a failure.
pub fn tx_of_record(found: Option<Vec<u8>>) -> (r: Result<Transaction, StorageError>)
    ensures
        match found {
            None => r is Err && r->Err_0 is NotFound,
            Some(bytes) => match decoded_tx(bytes@) {
                Some(view) => r is Ok && r->Ok_0@ == view,
                None => r is Err && r->Err_0 is Backend,
            },
        },
{
    match found {
        None => Err(StorageError::NotFound),
        Some(bytes) => match decode_transaction(bytes.as_slice()) {
            Some(tx) => Ok(tx),
            None => Err(StorageError::Backend("stored transaction does not decode".to_owned())),
        },
    }
}

/// What a read of the tree `blocks_by_height` means: no record is
/// `NotFound`, a record of 32 bytes is the id with those bytes, any
/// other record is a failure.
pub fn id_of_record(found: Option<Vec<u8>>) -> (r: Result<BlockId, StorageError>)
    ensures
        match found {
            None => r is Err && r->Err_0 is NotFound,
            Some(bytes) => if bytes@.len() == 32 {
                r is Ok && r->Ok_0 == BlockId(hash_from_bytes(bytes@))
            } else {
                r is Err && r->Err_0 is Backend
            },
        },
{
    match found {
        None => Err(StorageError::NotFound),
        Some(bytes) => {
            if bytes.len() != 32 {
                return Err(StorageError::Backend("stored block id is not 32 bytes".to_owned()));
            }
            Ok(BlockId(hash_from_slice(bytes.as_slice())))
        },
    }
}

/// The blocks that a tree of encoded blocks holds, by id.
pub open spec fn blocks_in(c: Map<Seq<u8>, Seq<u8>>) -> Map<BlockId, BlockView> {
    Map::new(
        |id: BlockId| c.contains_key(id.0.0@) && decoded_block(c[id.0.0@]) is Some,
        |id: BlockId| decoded_block(c[id.0.0@])->Some_0,
    )
}

/// The transactions that a tree of encoded transactions holds, by id.
pub open spec fn txs_in(c: Map<Seq<u8>, Seq<u8>>) -> Map<TxId, TransactionView> {
    Map::new(
        |id: TxId| c.contains_key(id.0.0@) && decoded_tx(c[id.0.0@]) is Some,
        |id: TxId| decoded_tx(c[id.0.0@])->Some_0,
    )
}

/// The hashes that a tree keyed by big-endian heights holds, by height.
pub open spec fn hashes_by_height(c: Map<Seq<u8>, Seq<u8>>) -> Map<u64, types::Hash> {
    Map::new(
        |h: u64| c.contains_key(be64(h)) && c[be64(h)].len() == 32,
        |h: u64| hash_from_bytes(c[be64(h)]),
    )
}

/// The block ids that a tree keyed by big-endian heights holds, by height.
pub open spec fn ids_by_height(c: Map<Seq<u8>, Seq<u8>>) -> Map<u64, BlockId> {
    Map::new(
        |h: u64| c.contains_key(be64(h)) && c[be64(h)].len() == 32,
        |h: u64| BlockId(hash_from_bytes(c[be64(h)])),
    )
}

/// Hashes that differ have bytes that differ.
proof fn lemma_hash_bytes_differ(a: types::Hash, b: types::Hash)
    requires
        a != b,
    ensures
        a.0@ != b.0@,
{
    if a.0@ == b.0@ {
        assert(a.0 =~= b.0);
    }
}

/// Writing the encoding of a block under the bytes of an id records the
/// block under that id and leaves every other id as it was.
pub proof fn lemma_put_block_record(c: Map<Seq<u8>, Seq<u8>>, id: BlockId, view: BlockView)
    requires
        block_encodable(view),
    ensures
        blocks_in(c.insert(id.0.0@, encode_block(view))) == blocks_in(c).insert(id, view),
{
    lemma_block_round_trip(view);
    let after = blocks_in(c.insert(id.0.0@, encode_block(view)));
    let want = blocks_in(c).insert(id, view);
    assert forall|k: BlockId| after.contains_key(k) <==> want.contains_key(k) by {
        if k != id {
            lemma_hash_bytes_differ(k.0, id.0);
        }
    }
    assert forall|k: BlockId| after.contains_key(k) implies after[k] == want[k] by {
        if k != id {
            lemma_hash_bytes_differ(k.0, id.0);
        }
    }
    assert(after =~= want);
}

/// Writing the encoding of a transaction under the bytes of an id
/// records the transaction under that id and leaves every other id as
/// it was.
pub proof fn lemma_put_tx_record(c: Map<Seq<u8>, Seq<u8>>, id: TxId, view: TransactionView)
    requires
        tx_encodable(view),
    ensures
        txs_in(c.insert(id.0.0@, encode_tx(view))) == txs_in(c).insert(id, view),
{
    lemma_tx_round_trip(view);
    let after = txs_in(c.insert(id.0.0@, encode_tx(view)));
    let want = txs_in(c).insert(id, view);
    assert forall|k: TxId| after.contains_key(k) <==> want.contains_key(k) by {
        if k != id {
            lemma_hash_bytes_differ(k.0, id.0);
        }
    }
    assert forall|k: TxId| after.contains_key(k) implies after[k] == want[k] by {
        if k != id {
            lemma_hash_bytes_differ(k.0, id.0);
        }
    }
    assert(after =~= want);
}

/// Writing the bytes of a hash under the key of a height records the
/// hash for that height and leaves every other height as it was.
pub proof fn lemma_put_root_record(c: Map<Seq<u8>, Seq<u8>>, height: u64, root: types::Hash)
    ensures
        hashes_by_height(c.insert(be64(height), root.0@)) == hashes_by_height(c).insert(
            height,
            root,
        ),
{
    lemma_hash_from_bytes(root);
    lemma_be64(height, Seq::empty());
    let after = hashes_by_height(c.insert(be64(height), root.0@));
    let want = hashes_by_height(c).insert(height, root);
    assert forall|h: u64| after.contains_key(h) <==> want.contains_key(h) by {
        if h != height && be64(h) == be64(height) {
            lemma_be64_injective(h, height);
        }
    }
    assert forall|h: u64| after.contains_key(h) implies after[h] == want[h] by {
        if h != height && be64(h) == be64(height) {
            lemma_be64_injective(h, height);
        }
    }
    assert(after =~= want);
}

/// Writing the bytes of a block id under the key of a height records
/// the id for that height and leaves every other height as it was.
pub proof fn lemma_put_id_record(c: Map<Seq<u8>, Seq<u8>>, height: u64, id: BlockId)
    ensures
        ids_by_height(c.insert(be64(height), id.0.0@)) == ids_by_height(c).insert(height, id),
{
    lemma_hash_from_bytes(id.0);
    lemma_be64(height, Seq::empty());
    let after = ids_by_height(c.insert(be64(height), id.0.0@));
    let want = ids_by_height(c).insert(height, id);
    assert forall|h: u64| after.contains_key(h) <==> want.contains_key(h) by {
        if h != height && be64(h) == be64(height) {
            lemma_be64_injective(h, height);
        }
    }
    assert forall|h: u64| after.contains_key(h) implies after[h] == want[h] by {
        if h != height && be64(h) == be64(height) {
            lemma_be64_injective(h, height);
        }
    }
    assert(after =~= want);
}

impl Store for SledStorage {
    /// The invariant of the store: its four trees are the partitions
    /// `blocks`, `blocks_by_height`, `txs` and `state_roots`.
    open spec fn wf(&self) -> bool {
        self.tree_names() == partition_names()
    }

    /// The blocks held, by id: what the tree `blocks` holds that decodes.
    closed spec fn blocks(&self) -> Map<BlockId, BlockView> {
        blocks_in(tree_contents(self.blocks))
    }

    /// The id recorded for each height in the tree `blocks_by_height`.
    closed spec fn heights(&self) -> Map<u64, BlockId> {
        ids_by_height(tree_contents(self.blocks_by_height))
    }

    /// The transactions held, by id: what the tree `txs` holds that decodes.
    closed spec fn txs(&self) -> Map<TxId, TransactionView> {
        txs_in(tree_contents(self.txs))
    }

    /// The state root recorded for each height in the tree `state_roots`.
    closed spec fn state_roots(&self) -> Map<u64, types::Hash> {
        hashes_by_height(tree_contents(self.state_roots))
    }

    open spec fn puts_succeed() -> bool {
        false
    }
}

impl SledStorage {
    /// The blocks that are stable on disk, by id: known only where a
    /// flush has just succeeded.
    pub closed spec fn flushed_blocks(&self) -> Map<BlockId, BlockView> {
        blocks_in(tree_flushed(self.blocks))
    }

    /// The ids by height that are stable on disk.
    pub closed spec fn flushed_heights(&self) -> Map<u64, BlockId> {
        ids_by_height(tree_flushed(self.blocks_by_height))
    }

    /// The transactions that are stable on disk, by id.
    pub closed spec fn flushed_txs(&self) -> Map<TxId, TransactionView> {
        txs_in(tree_flushed(self.txs))
    }

    /// The state roots by height that are stable on disk.
    pub closed spec fn flushed_state_roots(&self) -> Map<u64, types::Hash> {
        hashes_by_height(tree_flushed(self.state_roots))
    }

    /// The names of the four trees, in the order of `partition_names`.
    pub closed spec fn tree_names(&self) -> Seq<Seq<u8>> {
        seq![
            tree_name(self.blocks),
            tree_name(self.blocks_by_height),
            tree_name(self.txs),
            tree_name(self.state_roots),
        ]
    }

    /// The path of the database.
    pub closed spec fn path(&self) -> Seq<char> {
        db_path(self.db)
    }

    /// Opens the database at `path` with its four trees: `blocks`,
    /// `blocks_by_height`, `txs`, `state_roots`. When sled opens them all,
    /// the store is the one at `path` over those four partitions; the
    /// first failure of sled comes back as `Backend` with sled's text.
    pub fn open(path: &str) -> (r: Result<Self, StorageError>)
        ensures
            r is Ok ==> r->Ok_0.wf() && r->Ok_0.path() == path@,
            r is Err ==> r->Err_0 is Backend,
    {
        let db = match open_db(path) {
            Ok(db) => db,
            Err(e) => {
                return Err(backend(e));
            },
        };
        let blocks = match open_tree(&db, "blocks") {
            Ok(t) => t,
            Err(e) => {
                return Err(backend(e));
            },
        };
        let blocks_by_height = match open_tree(&db, "blocks_by_height") {
            Ok(t) => t,
            Err(e) => {
                return Err(backend(e));
            },
        };
        let txs = match open_tree(&db, "txs") {
            Ok(t) => t,
            Err(e) => {
                return Err(backend(e));
            },
        };
        let state_roots = match open_tree(&db, "state_roots") {
            Ok(t) => t,
            Err(e) => {
                return Err(backend(e));
            },
        };
        Ok(SledStorage { db, blocks, blocks_by_height, txs, state_roots })
    }
}

impl BlockStore for SledStorage {
    /// Writes the block under its id first and the id under the height
    /// second, so that a height never names a block that is not there,
    /// whichever write fails; then flushes both trees: when the call
    /// succeeds, all blocks and heights that the store holds are stable
    /// on disk.
    fn put_block(&mut self, block: Block) -> (r: Result<(), StorageError>)
        ensures
            r is Ok ==> final(self).flushed_blocks() == final(self).blocks(),
            r is Ok ==> final(self).flushed_heights() == final(self).heights(),
    {
        let id = block.header.id();
        let key_height = u64_to_be(block.header.height);
        let value = encode_whole_block(&block);
        let ghost c = tree_contents(self.blocks);
        let ghost ch = tree_contents(self.blocks_by_height);
        proof {
            lemma_put_block_record(c, id, block@);
            lemma_put_id_record(ch, block.header.height, id);
        }
        match tree_insert(&mut self.blocks, id.0.0.as_slice(), value.as_slice()) {
            Ok(_) => {},
            Err(e) => {
                return Err(backend(e));
            },
        }
        match tree_insert(&mut self.blocks_by_height, key_height.as_slice(), id.0.0.as_slice()) {
            Ok(_) => {},
            Err(e) => {
                return Err(backend(e));
            },
        }
        match tree_flush(&mut self.blocks) {
            Ok(_) => {},
            Err(e) => {
                return Err(backend(e));
            },
        }
        match tree_flush(&mut self.blocks_by_height) {
            Ok(_) => {},
            Err(e) => {
                return Err(backend(e));
            },
        }
        Ok(())
    }

    fn get_block(&self, id: BlockId) -> (r: Result<Block, StorageError>) {
        match tree_get(&self.blocks, id.0.0.as_slice()) {
            Err(e) => Err(backend(e)),
            Ok(found) => block_of_record(found),
        }
    }

    fn get_block_by_height(&self, height: u64) -> (r: Result<Block, StorageError>) {
        let key_height = u64_to_be(height);
        match tree_get(&self.blocks_by_height, key_height.as_slice()) {
            Err(e) => Err(backend(e)),
            Ok(found) => match id_of_record(found) {
                Ok(id) => self.get_block(id),
                Err(e) => Err(e),
            },
        }
    }
}

impl TxStore for SledStorage {
    /// Writes the transaction under its id, then flushes: when the call
    /// succeeds, all transactions that the store holds are stable on disk.
    fn put_tx(&mut self, tx: Transaction) -> (r: Result<TxId, StorageError>)
        ensures
            r is Ok ==> final(self).flushed_txs() == final(self).txs(),
    {
        let id = tx.id();
        let value = encode_transaction(&tx);
        let ghost c = tree_contents(self.txs);
        proof {
            lemma_put_tx_record(c, id, tx@);
        }
        match tree_insert(&mut self.txs, id.0.0.as_slice(), value.as_slice()) {
            Ok(_) => {},
            Err(e) => {
                return Err(backend(e));
            },
        }
        match tree_flush(&mut self.txs) {
            Ok(_) => {},
            Err(e) => {
                return Err(backend(e));
            },
        }
        Ok(id)
    }

    fn get_tx(&self, id: TxId) -> (r: Result<Transaction, StorageError>) {
        match tree_get(&self.txs, id.0.0.as_slice()) {
            Err(e) => Err(backend(e)),
            Ok(found) => tx_of_record(found),
        }
    }
}

/// The record with the greatest height among `pairs`, each a height in
/// eight big-endian bytes and a root of 32 bytes. `None` when there is
/// no record; a record of another shape is a failure.
pub fn latest_of(pairs: &Vec<(Vec<u8>, Vec<u8>)>) -> (r: Result<
    Option<(u64, types::Hash)>,
    StorageError,
>)
    ensures
        match r {
            Ok(Some((h, root))) => {
                &&& exists|i: int|
                    0 <= i < pairs@.len() && (#[trigger] pairs@[i]).0@ == be64(h) && pairs@[i].1@
                        == root.0@
                &&& forall|i: int|
                    0 <= i < pairs@.len() ==> from_be64((#[trigger] pairs@[i]).0@) <= h
            },
            Ok(None) => pairs@.len() == 0,
            Err(e) => e is Backend && exists|i: int|
                0 <= i < pairs@.len() && ((#[trigger] pairs@[i]).0@.len() != 8 || pairs@[i].1@.len()
                    != 32),
        },
        r is Ok ==> forall|i: int|
            0 <= i < pairs@.len() ==> (#[trigger] pairs@[i]).0@.len() == 8 && pairs@[i].1@.len() == 32,
{
    let mut latest: Option<(u64, types::Hash)> = None;
    let ghost mut at: int = 0;
    let mut i: usize = 0;
    while i < pairs.len()
        invariant
            i <= pairs.len(),
            forall|j: int|
                0 <= j < i ==> (#[trigger] pairs@[j]).0@.len() == 8 && pairs@[j].1@.len() == 32,
            match latest {
                Some((h, root)) => {
                    &&& 0 <= at < i
                    &&& pairs@[at].0@ == be64(h)
                    &&& pairs@[at].1@ == root.0@
                    &&& forall|j: int| 0 <= j < i ==> from_be64((#[trigger] pairs@[j]).0@) <= h
                },
                None => i == 0,
            },
        decreases pairs.len() - i,
    {
        if pairs[i].0.len() != 8 || pairs[i].1.len() != 32 {
            return Err(StorageError::Backend("stored state root is malformed".to_owned()));
        }
        let height = u64_from_be(pairs[i].0.as_slice());
        let root = hash_from_slice(pairs[i].1.as_slice());
        proof {
            lemma_be64(0, pairs@[i as int].0@);
        }
        let better = match latest {
            Some((best, _)) => height > best,
            None => true,
        };
        if better {
            latest = Some((height, root));
            proof {
                at = i as int;
            }
        }
        i = i + 1;
    }
    Ok(latest)
}

impl StateStore for SledStorage {
    /// Writes the root under the height, then flushes: when the call
    /// succeeds, all state roots that the store holds are stable on disk.
    fn put_state_root(&mut self, height: u64, root: types::Hash) -> (r: Result<(), StorageError>)
        ensures
            r is Ok ==> final(self).flushed_state_roots() == final(self).state_roots(),
    {
        let key_height = u64_to_be(height);
        let ghost c = tree_contents(self.state_roots);
        proof {
            lemma_put_root_record(c, height, root);
        }
        match tree_insert(&mut self.state_roots, key_height.as_slice(), root.0.as_slice()) {
            Ok(_) => {},
            Err(e) => {
                return Err(backend(e));
            },
        }
        match tree_flush(&mut self.state_roots) {
            Ok(_) => {},
            Err(e) => {
                return Err(backend(e));
            },
        }
        Ok(())
    }

    /// Reads every record and keeps the one with the greatest height.
    fn latest_state_root(&self) -> (r: Result<(u64, types::Hash), StorageError>) {
        let pairs = match tree_pairs(&self.state_roots) {
            Ok(pairs) => pairs,
            Err(e) => {
                return Err(backend(e));
            },
        };
        let ghost c = tree_contents(self.state_roots);
        match latest_of(&pairs) {
            Err(e) => Err(e),
            Ok(None) => {
                proof {
                    assert forall|k: u64| !self.state_roots().contains_key(k) by {
                        if c.contains_key(be64(k)) {
                            let i = choose|i: int|
                                0 <= i < pairs@.len() && (#[trigger] pairs@[i]).0@ == be64(k);
                        }
                    }
                }
                Err(StorageError::NotFound)
            },
            Ok(Some((h, root))) => {
                proof {
                    let i = choose|i: int|
                        0 <= i < pairs@.len() && (#[trigger] pairs@[i]).0@ == be64(h)
                            && pairs@[i].1@ == root.0@;
                    assert(c.contains_key(pairs@[i].0@));
                    lemma_hash_from_bytes(root);
                    assert forall|k: u64| self.state_roots().contains_key(k) implies k <= h by {
                        let j = choose|j: int|
                            0 <= j < pairs@.len() && (#[trigger] pairs@[j]).0@ == be64(k);
                        lemma_be64(k, Seq::empty());
                    }
                }
                Ok((h, root))
            },
        }
    }
}

} // verus!
