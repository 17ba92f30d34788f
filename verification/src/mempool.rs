//! The pool of pending transactions: bounded, kept in insertion order, and
//! read out in batches by gas price.
use crate::id_list::IdList;
use crate::storage::{find_tx, tx_keys};
use crate::types::{tx_id_of, NamespaceId, Transaction, TransactionView, TxId};
use std::collections::HashMap;
use vstd::prelude::*;

verus! {

broadcast use vstd::std_specs::hash::group_hash_axioms;

/// Limits of a mempool.
#[derive(Clone, Copy, Debug)]
pub struct MempoolConfig {
    /// The greatest number of transactions held at once.
    pub max_tx: usize,
}

impl Default for MempoolConfig {
    fn default() -> (c: Self)
        ensures
            c.max_tx == 10_000,
    {
        MempoolConfig { max_tx: 10_000 }
    }
}

/// Why a transaction was not taken.
#[derive(Clone, Copy, Debug, PartialEq, Eq, Structural)]
pub enum MempoolError {
    /// The pool holds as many transactions as it may.
    Full,
}

impl MempoolError {
    /// The error as text.
    pub fn to_string(&self) -> (s: String)
        ensures
            s@ == "mempool is full"@,
    {
        "mempool is full".to_owned()
    }
}

/// The content of a list of pending entries.
pub open spec fn entries_view(s: Seq<(TxId, Transaction)>) -> Seq<(TxId, TransactionView)> {
    Seq::new(s.len(), |i: int| (s[i].0, s[i].1@))
}

/// The ids of a list of pending entries, in order.
pub open spec fn ids_of(pending: Seq<(TxId, TransactionView)>) -> Seq<TxId> {
    Seq::new(pending.len(), |i: int| pending[i].0)
}

/// Whether the entry at position `a` comes before the one at `b` in a
/// batch: a higher gas price first, and of equal prices the older first.
pub open spec fn outranks(pending: Seq<(TxId, TransactionView)>, a: int, b: int) -> bool {
    pending[a].1.gas_price > pending[b].1.gas_price || (pending[a].1.gas_price
        == pending[b].1.gas_price && a < b)
}

/// `order` with position `p` put in behind the last position whose gas
/// price is at least that of `p`.
pub open spec fn place(pending: Seq<(TxId, TransactionView)>, order: Seq<int>, p: int) -> Seq<int>
    decreases order.len(),
{
    if order.len() == 0 {
        seq![p]
    } else if pending[order.last()].1.gas_price >= pending[p].1.gas_price {
        order.push(p)
    } else {
        place(pending, order.drop_last(), p).push(order.last())
    }
}

/// The first `n` positions of `pending` by priority: each position is put
/// in turn behind those that are at least as dear.
pub open spec fn priority_order(pending: Seq<(TxId, TransactionView)>, n: nat) -> Seq<int>
    decreases n,
{
    if n == 0 {
        Seq::empty()
    } else {
        place(pending, priority_order(pending, (n - 1) as nat), n - 1)
    }
}

/// The first `max` positions of `order`, or all of them if there are fewer.
pub open spec fn top(order: Seq<int>, max: nat) -> Seq<int> {
    if order.len() <= max {
        order
    } else {
        order.take(max as int)
    }
}

/// The batch of at most `max` entries that a pool with the entries
/// `pending` gives out: the first of them by priority.
pub open spec fn priority_batch(pending: Seq<(TxId, TransactionView)>, max: nat) -> Seq<
    (TxId, TransactionView),
> {
    let order = top(priority_order(pending, pending.len()), max);
    Seq::new(order.len(), |k: int| pending[order[k]])
}

/// `pending` without the entries whose id is among `ids`, the rest in order.
pub open spec fn without(pending: Seq<(TxId, TransactionView)>, ids: Seq<TxId>) -> Seq<
    (TxId, TransactionView),
>
    decreases pending.len(),
{
    if pending.len() == 0 {
        Seq::empty()
    } else {
        let rest = without(pending.drop_last(), ids);
        if ids.contains(pending.last().0) {
            rest
        } else {
            rest.push(pending.last())
        }
    }
}

/// The entries after a transaction with content `t` is handed to a pool that
/// holds `pending` and at most `capacity` entries: as before if the pool is
/// full or holds the id of `t`, else with `t` at the end.
pub open spec fn inserted(
    pending: Seq<(TxId, TransactionView)>,
    capacity: nat,
    t: TransactionView,
) -> Seq<(TxId, TransactionView)> {
    if pending.len() >= capacity || ids_of(pending).contains(tx_id_of(t)) {
        pending
    } else {
        pending.push((tx_id_of(t), t))
    }
}

/// The entries after the transactions `txs` are handed to the pool in turn.
pub open spec fn inserted_all(
    pending: Seq<(TxId, TransactionView)>,
    capacity: nat,
    txs: Seq<TransactionView>,
) -> Seq<(TxId, TransactionView)>
    decreases txs.len(),
{
    if txs.len() == 0 {
        pending
    } else {
        inserted(inserted_all(pending, capacity, txs.drop_last()), capacity, txs.last())
    }
}

/// The ids of the entries of `pending` in namespace `ns`, oldest first.
pub open spec fn bucket_of(pending: Seq<(TxId, TransactionView)>, ns: u64) -> Seq<TxId>
    decreases pending.len(),
{
    if pending.len() == 0 {
        Seq::empty()
    } else {
        let rest = bucket_of(pending.drop_last(), ns);
        if pending.last().1.namespace.0 == ns {
            rest.push(pending.last().0)
        } else {
            rest
        }
    }
}

/// The ids that a namespace index holds for `ns`.
pub open spec fn bucket_at(index: Map<u64, Vec<TxId>>, ns: u64) -> Seq<TxId> {
    if index.contains_key(ns) {
        index[ns]@
    } else {
        Seq::empty()
    }
}

/// Whether no id occurs twice and each entry stands under the id of its content.
pub open spec fn pending_ok(pending: Seq<(TxId, TransactionView)>) -> bool {
    &&& forall|i: int, j: int|
        0 <= i < j < pending.len() ==> (#[trigger] pending[i]).0 != (#[trigger] pending[j]).0
    &&& forall|i: int| 0 <= i < pending.len() ==> (#[trigger] pending[i]).0 == tx_id_of(pending[i].1)
}

/// Whether `order` lists positions below `n`, each before all that it outranks.
pub open spec fn ordered(pending: Seq<(TxId, TransactionView)>, order: Seq<int>, n: int) -> bool {
    &&& forall|k: int| 0 <= k < order.len() ==> 0 <= #[trigger] order[k] < n
    &&& forall|j: int, k: int|
        0 <= j < k < order.len() ==> outranks(pending, #[trigger] order[j], #[trigger] order[k])
}

/// Placing `p` at `at` when everything from `at` on is cheaper than `p`
/// and what stands before `at` is not.
pub proof fn lemma_place_at(pending: Seq<(TxId, TransactionView)>, order: Seq<int>, p: int, at: int)
    requires
        0 <= at <= order.len(),
        forall|k: int|
            at <= k < order.len() ==> pending[#[trigger] order[k]].1.gas_price
                < pending[p].1.gas_price,
        at > 0 ==> pending[order[at - 1]].1.gas_price >= pending[p].1.gas_price,
    ensures
        place(pending, order, p) == order.take(at).push(p) + order.skip(at),
    decreases order.len() - at,
{
    if order.len() == 0 {
        assert(place(pending, order, p) =~= order.take(at).push(p) + order.skip(at));
    } else if at == order.len() {
        assert(place(pending, order, p) =~= order.take(at).push(p) + order.skip(at));
    } else {
        let front = order.drop_last();
        assert(pending[order[order.len() - 1]].1.gas_price < pending[p].1.gas_price);
        assert forall|k: int| at <= k < front.len() implies pending[#[trigger] front[k]].1.gas_price
            < pending[p].1.gas_price by {
            assert(front[k] == order[k]);
        }
        lemma_place_at(pending, front, p, at);
        assert(front.take(at) =~= order.take(at));
        assert(place(pending, order, p) =~= order.take(at).push(p) + order.skip(at));
    }
}

/// Where `place` puts a position into a list in priority order.
pub open spec fn place_index(pending: Seq<(TxId, TransactionView)>, order: Seq<int>, p: int) -> int
    decreases order.len(),
{
    if order.len() == 0 {
        0
    } else if pending[order.last()].1.gas_price >= pending[p].1.gas_price {
        order.len() as int
    } else {
        place_index(pending, order.drop_last(), p)
    }
}

/// `place` puts `p` at `place_index`, behind what is at least as dear and
/// before what is cheaper.
pub proof fn lemma_place_index(pending: Seq<(TxId, TransactionView)>, order: Seq<int>, p: int)
    ensures
        ({
            let at = place_index(pending, order, p);
            &&& 0 <= at <= order.len()
            &&& place(pending, order, p) == order.take(at).push(p) + order.skip(at)
            &&& forall|k: int|
                at <= k < order.len() ==> pending[#[trigger] order[k]].1.gas_price
                    < pending[p].1.gas_price
            &&& at > 0 ==> pending[order[at - 1]].1.gas_price >= pending[p].1.gas_price
        }),
    decreases order.len(),
{
    if order.len() > 0 && pending[order.last()].1.gas_price < pending[p].1.gas_price {
        let front = order.drop_last();
        lemma_place_index(pending, front, p);
        let at = place_index(pending, front, p);
        assert forall|k: int| at <= k < order.len() implies pending[#[trigger] order[k]].1.gas_price
            < pending[p].1.gas_price by {
            if k < front.len() {
                assert(front[k] == order[k]);
            }
        }
        if at > 0 {
            assert(front[at - 1] == order[at - 1]);
        }
    }
    lemma_place_at(pending, order, p, place_index(pending, order, p));
}

/// Placing the next position into a list in priority order keeps the order.
pub proof fn lemma_place_ordered(pending: Seq<(TxId, TransactionView)>, order: Seq<int>, p: int)
    requires
        0 <= p,
        ordered(pending, order, p),
    ensures
        ordered(pending, place(pending, order, p), p + 1),
        place(pending, order, p).len() == order.len() + 1,
        place(pending, order, p).contains(p),
        forall|q: int| order.contains(q) ==> place(pending, order, p).contains(q),
{
    lemma_place_index(pending, order, p);
    let at = place_index(pending, order, p);
    let placed = place(pending, order, p);
    assert(placed[at] == p);
    assert forall|q: int| order.contains(q) implies placed.contains(q) by {
        let k = choose|k: int| 0 <= k < order.len() && order[k] == q;
        if k < at {
            assert(placed[k] == q);
        } else {
            assert(placed[k + 1] == q);
        }
    }
    assert forall|k: int| 0 <= k < placed.len() implies 0 <= #[trigger] placed[k] < p + 1 by {
        if k < at {
            assert(placed[k] == order[k]);
        } else if k > at {
            assert(placed[k] == order[k - 1]);
        }
    }
    assert forall|j: int, k: int| 0 <= j < k < placed.len() implies outranks(
        pending,
        #[trigger] placed[j],
        #[trigger] placed[k],
    ) by {
        let a = if j < at { order[j] } else if j == at { p } else { order[j - 1] };
        let b = if k < at { order[k] } else if k == at { p } else { order[k - 1] };
        assert(placed[j] == a);
        assert(placed[k] == b);
        if k == at {
            if at > 0 && j < at - 1 {
                assert(outranks(pending, order[j], order[at - 1]));
            }
        }
    }
}

/// The batch order is the order by gas price, the dearest first, and among
/// equal prices by insertion, the oldest first; it holds every position once.
pub proof fn lemma_priority_order(pending: Seq<(TxId, TransactionView)>, n: nat)
    ensures
        priority_order(pending, n).len() == n,
        ordered(pending, priority_order(pending, n), n as int),
        forall|p: int| 0 <= p < n ==> priority_order(pending, n).contains(p),
    decreases n,
{
    if n > 0 {
        let before = priority_order(pending, (n - 1) as nat);
        lemma_priority_order(pending, (n - 1) as nat);
        lemma_place_ordered(pending, before, n - 1);
        assert forall|p: int| 0 <= p < n implies priority_order(pending, n).contains(p) by {
            if p < n - 1 {
                assert(before.contains(p));
            }
        }
    }
}

/// Cutting a priority list before placing a position, and again after,
/// gives what cutting after placing it gives.
pub proof fn lemma_top_of_place(
    pending: Seq<(TxId, TransactionView)>,
    order: Seq<int>,
    p: int,
    max: nat,
)
    requires
        0 <= p,
        ordered(pending, order, p),
    ensures
        top(place(pending, order, p), max) == top(place(pending, top(order, max), p), max),
    decreases order.len(),
{
    if order.len() > max {
        let cut = order.take(max as int);
        lemma_place_ordered(pending, order, p);
        if pending[order.last()].1.gas_price >= pending[p].1.gas_price {
            if max > 0 {
                assert(cut.last() == order[max - 1]);
                assert(outranks(pending, order[max - 1], order[order.len() - 1]));
                assert(place(pending, cut, p) == cut.push(p));
                assert(cut.push(p).take(max as int) =~= cut);
            } else {
                assert(place(pending, cut, p).take(0) =~= cut);
            }
            assert(order.push(p).take(max as int) =~= cut);
        } else {
            let front = order.drop_last();
            assert(ordered(pending, front, p));
            lemma_top_of_place(pending, front, p, max);
            lemma_place_ordered(pending, front, p);
            assert(place(pending, front, p).push(order.last()).take(max as int) =~= place(
                pending,
                front,
                p,
            ).take(max as int));
            assert(top(front, max) =~= cut);
        }
    }
}

/// A pool of pending transactions.
pub trait Mempool {
    /// The invariant of the pool.
    spec fn wf(&self) -> bool;

    /// The entries held, oldest first, each an id and a transaction.
    spec fn pending(&self) -> Seq<(TxId, TransactionView)>;

    /// The greatest number of entries that the pool holds.
    spec fn capacity(&self) -> nat;

    /// In a pool that satisfies its invariant no id occurs twice, and each
    /// entry stands under the id of its content.
    proof fn lemma_pending_ok(&self)
        requires
            self.wf(),
        ensures
            pending_ok(self.pending()),
            self.pending().len() <= self.capacity(),
    ;

    /// Takes `tx` in. A full pool refuses it and stays as it is; else the
    /// id of `tx` comes back, and `tx` is appended unless its id is held.
    fn insert(&mut self, tx: Transaction) -> (r: Result<TxId, MempoolError>)
        requires
            old(self).wf(),
        ensures
            final(self).wf(),
            final(self).capacity() == old(self).capacity(),
            final(self).pending() == inserted(old(self).pending(), old(self).capacity(), tx@),
            r is Err <==> old(self).pending().len() >= old(self).capacity(),
            r is Err ==> r->Err_0 is Full,
            r is Ok ==> r->Ok_0 == tx.id(),
    ;

    /// The first `max` entries by priority; the pool stays as it is.
    fn get_batch(&self, max: usize) -> (batch: Vec<(TxId, Transaction)>)
        requires
            self.wf(),
        ensures
            entries_view(batch@) == priority_batch(self.pending(), max as nat),
    ;

    /// Drops the entries whose id is among `ids`.
    fn remove_committed(&mut self, ids: &[TxId])
        requires
            old(self).wf(),
        ensures
            final(self).wf(),
            final(self).capacity() == old(self).capacity(),
            final(self).pending() == without(old(self).pending(), ids@),
    ;

    /// The number of entries held.
    fn len(&self) -> (n: usize)
        requires
            self.wf(),
        ensures
            n == self.pending().len(),
    ;
}

/// A mempool that keeps its entries in insertion order, with a list of
/// their ids to find them by and an index of the ids by namespace.
#[derive(Debug)]
pub struct SimpleMempool {
    config: MempoolConfig,
    entries: Vec<(TxId, Transaction)>,
    ids: IdList,
    by_namespace: HashMap<u64, Vec<TxId>>,
}

impl SimpleMempool {
    /// An empty pool with the limits of `config`.
    pub fn new(config: MempoolConfig) -> (m: Self)
        ensures
            m.wf(),
            m.pending() == Seq::<(TxId, TransactionView)>::empty(),
            m.capacity() == config.max_tx,
    {
        let m = SimpleMempool {
            config,
            entries: Vec::new(),
            ids: IdList::new(),
            by_namespace: HashMap::new(),
        };
        proof {
            assert(m.pending() =~= Seq::<(TxId, TransactionView)>::empty());
            assert(m.ids@ =~= tx_keys(m.entries@));
        }
        m
    }
}

impl SimpleMempool {
    /// The ids that the namespace index holds for `ns`.
    pub closed spec fn namespace_bucket(&self, ns: NamespaceId) -> Seq<TxId> {
        bucket_at(self.by_namespace@, ns.0)
    }

    /// The namespace index agrees with the entries: the bucket of a
    /// namespace holds the ids of the entries in it, oldest first.
    pub proof fn lemma_namespace_index(&self, ns: NamespaceId)
        requires
            self.wf(),
        ensures
            self.namespace_bucket(ns) == bucket_of(self.pending(), ns.0),
    {
    }
}

impl Default for SimpleMempool {
    fn default() -> (m: Self)
        ensures
            m.wf(),
            m.pending() == Seq::<(TxId, TransactionView)>::empty(),
            m.capacity() == 10_000,
    {
        SimpleMempool::new(MempoolConfig::default())
    }
}

/// Records `id` at the end of the bucket of `ns`.
fn index_add(index: &mut HashMap<u64, Vec<TxId>>, ns: u64, id: TxId)
    ensures
        forall|n: u64|
            bucket_at(final(index)@, n) == (if n == ns {
                bucket_at(old(index)@, ns).push(id)
            } else {
                bucket_at(old(index)@, n)
            }),
{
    let ghost before = index@;
    let mut bucket = match index.remove(&ns) {
        Some(bucket) => bucket,
        None => Vec::new(),
    };
    proof {
        assert(bucket@ =~= bucket_at(before, ns));
    }
    bucket.push(id);
    index.insert(ns, bucket);
    proof {
        assert forall|n: u64|
            bucket_at(index@, n) == (if n == ns {
                bucket_at(before, ns).push(id)
            } else {
                bucket_at(before, n)
            }) by {
            if n != ns {
                assert(index@.contains_key(n) == before.contains_key(n));
            }
        }
    }
}

/// Whether `id` is among `ids`.
pub fn contains_id(ids: &[TxId], id: &TxId) -> (r: bool)
    ensures
        r == ids@.contains(*id),
{
    let mut i: usize = 0;
    while i < ids.len()
        invariant
            i <= ids.len(),
            forall|j: int| 0 <= j < i ==> ids@[j] != *id,
        decreases ids.len() - i,
    {
        if ids[i] == *id {
            return true;
        }
        i = i + 1;
    }
    false
}

/// The first `max` positions of `entries` by priority.
fn select_positions(entries: &Vec<(TxId, Transaction)>, max: usize) -> (sel: Vec<usize>)
    ensures
        sel@.len() == top(priority_order(entries_view(entries@), entries@.len()), max as nat).len(),
        forall|k: int|
            0 <= k < sel@.len() ==> sel@[k] as int == top(
                priority_order(entries_view(entries@), entries@.len()),
                max as nat,
            )[k],
        forall|k: int| 0 <= k < sel@.len() ==> (#[trigger] sel@[k]) < entries@.len(),
{
    let ghost pending = entries_view(entries@);
    let mut sel: Vec<usize> = Vec::new();
    if max == 0 {
        return sel;
    }
    let ghost mut order: Seq<int> = Seq::empty();
    let mut i: usize = 0;
    while i < entries.len()
        invariant
            i <= entries.len(),
            max > 0,
            pending == entries_view(entries@),
            order == top(priority_order(pending, i as nat), max as nat),
            sel@.len() == order.len(),
            sel@.len() <= max,
            forall|k: int| 0 <= k < sel@.len() ==> (#[trigger] sel@[k]) as int == order[k],
            forall|k: int| 0 <= k < sel@.len() ==> (#[trigger] sel@[k]) < i,
        decreases entries.len() - i,
    {
        let gas = entries[i].1.gas_price;
        let mut at: usize = sel.len();
        while at > 0 && entries[sel[at - 1]].1.gas_price < gas
            invariant
                at <= sel@.len(),
                i < entries.len(),
                pending == entries_view(entries@),
                gas == pending[i as int].1.gas_price,
                sel@.len() == order.len(),
                forall|k: int| 0 <= k < sel@.len() ==> (#[trigger] sel@[k]) as int == order[k],
                forall|k: int| 0 <= k < sel@.len() ==> (#[trigger] sel@[k]) < i,
                forall|k: int|
                    at <= k < order.len() ==> pending[#[trigger] order[k]].1.gas_price < gas,
            decreases at,
        {
            proof {
                assert(order[at - 1] == sel@[at - 1]);
            }
            at = at - 1;
        }
        proof {
            let full = priority_order(pending, i as nat);
            lemma_priority_order(pending, i as nat);
            lemma_top_of_place(pending, full, i as int, max as nat);
            assert(ordered(pending, order, i as int)) by {
                assert forall|j: int, k: int| 0 <= j < k < order.len() implies outranks(
                    pending,
                    #[trigger] order[j],
                    #[trigger] order[k],
                ) by {
                    assert(order[j] == full[j] && order[k] == full[k]);
                }
                assert forall|k: int| 0 <= k < order.len() implies 0 <= #[trigger] order[k] < i by {
                    assert(order[k] == full[k]);
                }
            }
            if at > 0 {
                assert(order[at - 1] == sel@[at - 1]);
            }
            lemma_place_at(pending, order, i as int, at as int);
            lemma_place_ordered(pending, order, i as int);
            assert(priority_order(pending, (i + 1) as nat) == place(pending, full, i as int));
        }
        let ghost placed = place(pending, order, i as int);
        if at < max {
            sel.insert(at, i);
            proof {
                assert forall|k: int| 0 <= k < placed.len() implies (#[trigger] sel@[k]) as int
                    == placed[k] by {
                    if k < at {
                        assert(placed[k] == order[k]);
                    } else if k > at {
                        assert(placed[k] == order[k - 1]);
                    }
                }
            }
            if sel.len() > max {
                sel.pop();
            }
        }
        proof {
            let cut = top(placed, max as nat);
            assert(sel@.len() == cut.len());
            assert forall|k: int| 0 <= k < sel@.len() implies (#[trigger] sel@[k]) as int
                == cut[k] by {
                assert(cut[k] == placed[k]);
                if at >= max {
                    assert(placed[k] == order[k]);
                }
            }
            order = cut;
        }
        i = i + 1;
    }
    sel
}

/// What is left has its ids among those that were there.
pub proof fn lemma_without_ids(pending: Seq<(TxId, TransactionView)>, ids: Seq<TxId>)
    ensures
        without(pending, ids).len() <= pending.len(),
        forall|k: int|
            0 <= k < without(pending, ids).len() ==> pending.contains(
                #[trigger] without(pending, ids)[k],
            ) && !ids.contains(without(pending, ids)[k].0),
        forall|i: int|
            0 <= i < pending.len() && !ids.contains(pending[i].0) ==> without(pending, ids).contains(
                #[trigger] pending[i],
            ),
    decreases pending.len(),
{
    if pending.len() > 0 {
        let front = pending.drop_last();
        let rest = without(front, ids);
        let out = without(pending, ids);
        lemma_without_ids(front, ids);
        assert forall|k: int| 0 <= k < out.len() implies pending.contains(#[trigger] out[k])
            && !ids.contains(out[k].0) by {
            if k < rest.len() {
                assert(out[k] == rest[k]);
                assert(front.contains(rest[k]));
                let j = choose|j: int| 0 <= j < front.len() && front[j] == rest[k];
                assert(pending[j] == rest[k]);
            } else {
                assert(out[k] == pending[pending.len() - 1]);
            }
        }
        assert forall|i: int| 0 <= i < pending.len() && !ids.contains(pending[i].0) implies out.contains(
            #[trigger] pending[i],
        ) by {
            if i < front.len() {
                assert(front[i] == pending[i]);
                assert(rest.contains(front[i]));
                let k = choose|k: int| 0 <= k < rest.len() && rest[k] == front[i];
                assert(out[k] == pending[i]);
            } else {
                assert(out[out.len() - 1] == pending[i]);
            }
        }
    }
}

/// Dropping entries keeps a pool in order: no id twice, each under the id
/// of its content.
pub proof fn lemma_without_ok(pending: Seq<(TxId, TransactionView)>, ids: Seq<TxId>)
    requires
        pending_ok(pending),
    ensures
        pending_ok(without(pending, ids)),
    decreases pending.len(),
{
    if pending.len() > 0 {
        let front = pending.drop_last();
        let rest = without(front, ids);
        let out = without(pending, ids);
        assert(pending_ok(front)) by {
            assert forall|i: int, j: int| 0 <= i < j < front.len() implies (#[trigger] front[i]).0 != (
            #[trigger] front[j]).0 by {
                assert(front[i] == pending[i] && front[j] == pending[j]);
            }
            assert forall|i: int| 0 <= i < front.len() implies (#[trigger] front[i]).0 == tx_id_of(
                front[i].1,
            ) by {
                assert(front[i] == pending[i]);
            }
        }
        lemma_without_ok(front, ids);
        lemma_without_ids(front, ids);
        if !ids.contains(pending.last().0) {
            assert forall|i: int, j: int| 0 <= i < j < out.len() implies (#[trigger] out[i]).0 != (
            #[trigger] out[j]).0 by {
                if j < rest.len() {
                    assert(out[i] == rest[i] && out[j] == rest[j]);
                } else {
                    assert(out[i] == rest[i]);
                    assert(front.contains(rest[i]));
                    let k = choose|k: int| 0 <= k < front.len() && front[k] == rest[i];
                    assert(pending[k] == rest[i]);
                    assert(out[j] == pending[pending.len() - 1]);
                }
            }
            assert forall|i: int| 0 <= i < out.len() implies (#[trigger] out[i]).0 == tx_id_of(
                out[i].1,
            ) by {
                if i < rest.len() {
                    assert(out[i] == rest[i]);
                } else {
                    assert(out[i] == pending[pending.len() - 1]);
                }
            }
        }
    }
}

impl Mempool for SimpleMempool {
    closed spec fn wf(&self) -> bool {
        &&& self.entries@.len() <= self.config.max_tx
        &&& pending_ok(entries_view(self.entries@))
        &&& self.ids.wf()
        &&& self.ids@ == tx_keys(self.entries@)
        &&& forall|ns: u64| #[trigger]
            bucket_at(self.by_namespace@, ns) == bucket_of(entries_view(self.entries@), ns)
    }

    closed spec fn pending(&self) -> Seq<(TxId, TransactionView)> {
        entries_view(self.entries@)
    }

    closed spec fn capacity(&self) -> nat {
        self.config.max_tx as nat
    }

    proof fn lemma_pending_ok(&self) {
    }

    fn insert(&mut self, tx: Transaction) -> (r: Result<TxId, MempoolError>) {
        if self.entries.len() >= self.config.max_tx {
            return Err(MempoolError::Full);
        }
        let id = tx.id();
        let ghost before = entries_view(self.entries@);
        match find_tx(&self.entries, &self.ids, &id) {
            Some(i) => {
                proof {
                    assert(before[i as int].0 == id);
                    assert(ids_of(before)[i as int] == id);
                }
                Ok(id)
            },
            None => {
                let ghost view = tx@;
                let ns = tx.namespace.0;
                self.entries.push((id, tx));
                self.ids.push(id.0);
                index_add(&mut self.by_namespace, ns, id);
                proof {
                    assert(self.ids@ =~= tx_keys(self.entries@));
                    assert forall|i: int| 0 <= i < before.len() implies before[i].0 != id by {
                        assert(self.entries@[i].0 != id);
                    }
                    assert(!ids_of(before).contains(id));
                    let after = entries_view(self.entries@);
                    assert(after =~= before.push((id, view)));
                    assert(after.drop_last() =~= before);
                }
                Ok(id)
            },
        }
    }

    fn get_batch(&self, max: usize) -> (batch: Vec<(TxId, Transaction)>) {
        let sel = select_positions(&self.entries, max);
        let mut batch: Vec<(TxId, Transaction)> = Vec::with_capacity(sel.len());
        let mut k: usize = 0;
        while k < sel.len()
            invariant
                k <= sel@.len(),
                batch@.len() == k,
                forall|j: int| 0 <= j < sel@.len() ==> (#[trigger] sel@[j]) < self.entries@.len(),
                forall|j: int|
                    0 <= j < k ==> (#[trigger] batch@[j]).0 == self.entries@[sel@[j] as int].0
                        && batch@[j].1@ == self.entries@[sel@[j] as int].1@,
            decreases sel@.len() - k,
        {
            let p = sel[k];
            batch.push((self.entries[p].0, self.entries[p].1.clone()));
            k = k + 1;
        }
        proof {
            assert(entries_view(batch@) =~= priority_batch(self.pending(), max as nat));
        }
        batch
    }

    fn remove_committed(&mut self, ids: &[TxId]) {
        let ghost before = entries_view(self.entries@);
        let mut kept: Vec<(TxId, Transaction)> = Vec::new();
        let mut kept_ids = IdList::new();
        let mut index: HashMap<u64, Vec<TxId>> = HashMap::new();
        let n = self.entries.len();
        let mut i: usize = 0;
        while i < n
            invariant
                i <= n,
                n == self.entries@.len(),
                before == entries_view(self.entries@),
                entries_view(kept@) == without(before.take(i as int), ids@),
                kept_ids.wf(),
                kept_ids@ == tx_keys(kept@),
                forall|ns: u64| #[trigger]
                    bucket_at(index@, ns) == bucket_of(entries_view(kept@), ns),
            decreases n - i,
        {
            let id = self.entries[i].0;
            let ghost done = entries_view(kept@);
            proof {
                assert(before.take(i + 1).drop_last() =~= before.take(i as int));
                assert(before.take(i + 1).last() == before[i as int]);
            }
            if !contains_id(ids, &id) {
                let tx = self.entries[i].1.clone();
                let ns = tx.namespace.0;
                kept.push((id, tx));
                kept_ids.push(id.0);
                index_add(&mut index, ns, id);
                proof {
                    assert(kept_ids@ =~= tx_keys(kept@));
                    let now = entries_view(kept@);
                    assert(now =~= done.push(before[i as int]));
                    assert(now.drop_last() =~= done);
                }
            }
            i = i + 1;
        }
        proof {
            assert(before.take(n as int) =~= before);
            lemma_without_ok(before, ids@);
            lemma_without_ids(before, ids@);
        }
        self.entries = kept;
        self.ids = kept_ids;
        self.by_namespace = index;
    }

    fn len(&self) -> (n: usize) {
        self.entries.len()
    }
}

/// Whether `pending` holds an entry with id `id` in namespace `ns`.
pub open spec fn holds_in_namespace(
    pending: Seq<(TxId, TransactionView)>,
    ns: u64,
    id: TxId,
) -> bool {
    exists|i: int|
        0 <= i < pending.len() && (#[trigger] pending[i]).0 == id && pending[i].1.namespace.0 == ns
}

/// Every id in the bucket of a namespace is the id of an entry in that
/// namespace, and every entry is in the bucket of its namespace.
pub proof fn lemma_bucket_resolves(pending: Seq<(TxId, TransactionView)>, ns: u64)
    ensures
        forall|j: int|
            0 <= j < bucket_of(pending, ns).len() ==> holds_in_namespace(
                pending,
                ns,
                #[trigger] bucket_of(pending, ns)[j],
            ),
        forall|i: int|
            0 <= i < pending.len() && (#[trigger] pending[i]).1.namespace.0 == ns ==> bucket_of(
                pending,
                ns,
            ).contains(pending[i].0),
    decreases pending.len(),
{
    if pending.len() > 0 {
        let front = pending.drop_last();
        let rest = bucket_of(front, ns);
        let all = bucket_of(pending, ns);
        lemma_bucket_resolves(front, ns);
        assert forall|j: int| 0 <= j < all.len() implies holds_in_namespace(
            pending,
            ns,
            #[trigger] all[j],
        ) by {
            if j < rest.len() {
                assert(all[j] == rest[j]);
                assert(holds_in_namespace(front, ns, rest[j]));
                let i = choose|i: int|
                    0 <= i < front.len() && (#[trigger] front[i]).0 == rest[j]
                        && front[i].1.namespace.0 == ns;
                assert(pending[i] == front[i]);
            } else {
                assert(pending[pending.len() - 1].0 == all[j]);
            }
        }
        assert forall|i: int|
            0 <= i < pending.len() && (#[trigger] pending[i]).1.namespace.0 == ns implies all.contains(
            pending[i].0,
        ) by {
            if i < front.len() {
                assert(front[i] == pending[i]);
                assert(rest.contains(front[i].0));
                let j = choose|j: int| 0 <= j < rest.len() && rest[j] == front[i].0;
                assert(all[j] == pending[i].0);
            } else {
                assert(all[all.len() - 1] == pending[i].0);
            }
        }
    }
}

/// A pool stays within its capacity and in order under insertion.
pub proof fn lemma_inserted_ok(
    pending: Seq<(TxId, TransactionView)>,
    capacity: nat,
    t: TransactionView,
)
    requires
        pending_ok(pending),
        pending.len() <= capacity,
    ensures
        pending_ok(inserted(pending, capacity, t)),
        inserted(pending, capacity, t).len() <= capacity,
{
    let after = inserted(pending, capacity, t);
    if after != pending {
        assert forall|i: int, j: int| 0 <= i < j < after.len() implies (#[trigger] after[i]).0 != (
        #[trigger] after[j]).0 by {
            if j == pending.len() {
                assert(ids_of(pending)[i] == pending[i].0);
            }
        }
    }
}

/// Handing in a transaction whose id is held changes nothing, whatever
/// the capacity: the entries, and so their number, stay.
pub proof fn lemma_reinsert_changes_nothing(
    pending: Seq<(TxId, TransactionView)>,
    capacity: nat,
    t: TransactionView,
)
    requires
        ids_of(pending).contains(tx_id_of(t)),
    ensures
        inserted(pending, capacity, t) == pending,
{
}

/// After transactions with pairwise different ids are handed to an empty
/// pool, no more of them than it may hold, the pool holds as many entries
/// as were handed in: each of them, in the order of arrival.
pub proof fn lemma_distinct_inserts(capacity: nat, txs: Seq<TransactionView>)
    requires
        txs.len() <= capacity,
        forall|i: int, j: int|
            0 <= i < j < txs.len() ==> tx_id_of(#[trigger] txs[i]) != tx_id_of(#[trigger] txs[j]),
    ensures
        inserted_all(Seq::empty(), capacity, txs).len() == txs.len(),
        forall|i: int|
            0 <= i < txs.len() ==> #[trigger] inserted_all(Seq::empty(), capacity, txs)[i] == (
                tx_id_of(txs[i]),
                txs[i],
            ),
    decreases txs.len(),
{
    if txs.len() > 0 {
        let front = txs.drop_last();
        assert forall|i: int, j: int| 0 <= i < j < front.len() implies tx_id_of(
            #[trigger] front[i],
        ) != tx_id_of(#[trigger] front[j]) by {
            assert(front[i] == txs[i] && front[j] == txs[j]);
        }
        lemma_distinct_inserts(capacity, front);
        let held = inserted_all(Seq::empty(), capacity, front);
        let id = tx_id_of(txs.last());
        assert(!ids_of(held).contains(id)) by {
            if ids_of(held).contains(id) {
                let i = choose|i: int| 0 <= i < held.len() && ids_of(held)[i] == id;
                assert(held[i] == (tx_id_of(txs[i]), txs[i]));
                assert(front[i] == txs[i]);
                assert(tx_id_of(txs[i]) != tx_id_of(txs[txs.len() - 1]));
            }
        }
        let all = inserted_all(Seq::empty(), capacity, txs);
        assert(all == held.push((id, txs.last())));
        assert forall|i: int| 0 <= i < txs.len() implies #[trigger] all[i] == (
            tx_id_of(txs[i]),
            txs[i],
        ) by {
            if i < front.len() {
                assert(all[i] == held[i]);
                assert(front[i] == txs[i]);
            }
        }
    }
}

/// A batch holds at most `max` entries, and all of them if the pool has
/// no more; it holds them by priority: each entry stands at a position of
/// its own in the pool, an entry comes before every other entry of the
/// batch that it outranks, and every entry left out is outranked by every
/// entry of the batch. So gas prices never rise along the batch, and
/// entries of one price keep the order in which they arrived.
pub proof fn lemma_priority_batch(pending: Seq<(TxId, TransactionView)>, max: nat)
    ensures
        ({
            let order = top(priority_order(pending, pending.len()), max);
            let batch = priority_batch(pending, max);
            &&& batch.len() == order.len()
            &&& batch.len() == (if max <= pending.len() { max } else { pending.len() })
            &&& ordered(pending, order, pending.len() as int)
            &&& forall|k: int| 0 <= k < batch.len() ==> #[trigger] batch[k] == pending[order[k]]
            &&& forall|j: int, k: int|
                0 <= j < k < batch.len() ==> (#[trigger] batch[j]).1.gas_price >= (
                #[trigger] batch[k]).1.gas_price
            &&& forall|p: int, k: int|
                0 <= p < pending.len() && !order.contains(p) && 0 <= k < order.len()
                    ==> #[trigger] outranks(pending, order[k], p)
        }),
{
    let full = priority_order(pending, pending.len());
    let order = top(full, max);
    let batch = priority_batch(pending, max);
    lemma_priority_order(pending, pending.len());
    assert forall|k: int| 0 <= k < order.len() implies order[k] == full[k] by {}
    assert forall|j: int, k: int| 0 <= j < k < batch.len() implies (#[trigger] batch[j]).1.gas_price
        >= (#[trigger] batch[k]).1.gas_price by {
        assert(outranks(pending, order[j], order[k]));
    }
    assert forall|p: int, k: int|
        0 <= p < pending.len() && !order.contains(p) && 0 <= k < order.len()
        implies #[trigger] outranks(pending, order[k], p) by {
        assert(full.contains(p));
        let at = choose|at: int| 0 <= at < full.len() && full[at] == p;
        if at < order.len() {
            assert(order[at] == p);
        }
        assert(outranks(pending, full[k], full[at]));
    }
}

} // verus!
