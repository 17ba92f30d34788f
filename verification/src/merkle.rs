//! The Merkle tree over the transaction ids of a block: a binary tree in
//! which a layer of odd length pairs its last node with itself.
use crate::codec::tx_hashes;
use crate::types;
use crate::types::{hash_bytes, hash_of, MerkleProof, TxId, TypesError};
use vstd::prelude::*;

verus! {

/// The hash of an inner node over its two children.
pub open spec fn node_hash(left: types::Hash, right: types::Hash) -> types::Hash {
    hash_of(left.0@ + right.0@)
}

/// The layer above `layer`: adjacent nodes are paired, and a last node
/// without a neighbour is paired with itself.
pub open spec fn next_layer(layer: Seq<types::Hash>) -> Seq<types::Hash> {
    Seq::new(
        ((layer.len() + 1) / 2) as nat,
        |i: int|
            node_hash(
                layer[2 * i],
                if 2 * i + 1 < layer.len() {
                    layer[2 * i + 1]
                } else {
                    layer[2 * i]
                },
            ),
    )
}

/// The root above a layer: the zero hash over no node, the node itself
/// over one, else the root above the next layer.
pub open spec fn layer_root(layer: Seq<types::Hash>) -> types::Hash
    decreases layer.len(),
{
    if layer.len() == 0 {
        types::Hash::zero()
    } else if layer.len() == 1 {
        layer[0]
    } else {
        layer_root(next_layer(layer))
    }
}

/// The Merkle root of a list of transaction ids.
pub open spec fn merkle_root_of(txs: Seq<TxId>) -> types::Hash {
    layer_root(tx_hashes(txs))
}

/// The node that is hashed together with node `idx` of `layer`.
pub open spec fn sibling_of(layer: Seq<types::Hash>, idx: int) -> types::Hash {
    if idx % 2 == 1 {
        layer[idx - 1]
    } else if idx + 1 < layer.len() {
        layer[idx + 1]
    } else {
        layer[idx]
    }
}

/// The siblings of node `idx` on the way from `layer` up to the root.
pub open spec fn siblings_from(layer: Seq<types::Hash>, idx: int) -> Seq<types::Hash>
    decreases layer.len(),
{
    if layer.len() <= 1 {
        Seq::empty()
    } else {
        seq![sibling_of(layer, idx)] + siblings_from(next_layer(layer), idx / 2)
    }
}

/// The hash reached from `h` at position `idx` by hashing in each sibling
/// in turn: on the right of an even position, on the left of an odd one.
pub open spec fn merkle_walk(h: types::Hash, idx: int, siblings: Seq<types::Hash>) -> types::Hash
    decreases siblings.len(),
{
    if siblings.len() == 0 {
        h
    } else {
        let s = siblings[0];
        let up = if idx % 2 == 0 {
            node_hash(h, s)
        } else {
            node_hash(s, h)
        };
        merkle_walk(up, idx / 2, siblings.drop_first())
    }
}

/// Whether the walk from `leaf` at position `index` along `siblings`
/// ends at `root`.
pub open spec fn walk_ends_at(
    root: types::Hash,
    leaf: TxId,
    index: u32,
    siblings: Seq<types::Hash>,
) -> bool {
    merkle_walk(leaf.0, index as int, siblings) == root
}

/// The number of leaves that a tree of the given depth can hold.
pub open spec fn capacity(depth: nat) -> nat
    decreases depth,
{
    if depth == 0 {
        1
    } else {
        2 * capacity((depth - 1) as nat)
    }
}

/// Whether some tree with as many levels as the proof has siblings holds
/// the proof's index.
pub open spec fn proof_well_formed(index: u32, siblings: Seq<types::Hash>) -> bool {
    index < capacity(siblings.len())
}

/// Whether a proof shows that `leaf` is in the tree with root `root`: it
/// is well formed, and its walk from the leaf ends at the root.
pub open spec fn proof_verifies(
    root: types::Hash,
    leaf: TxId,
    index: u32,
    siblings: Seq<types::Hash>,
) -> bool {
    proof_well_formed(index, siblings) && walk_ends_at(root, leaf, index, siblings)
}

/// The walk along the siblings of a leaf ends at the root.
pub proof fn lemma_walk_reaches_root(layer: Seq<types::Hash>, idx: int)
    requires
        0 <= idx < layer.len(),
    ensures
        merkle_walk(layer[idx], idx, siblings_from(layer, idx)) == layer_root(layer),
    decreases layer.len(),
{
    if layer.len() > 1 {
        let sibs = siblings_from(layer, idx);
        let up = next_layer(layer);
        assert(sibs.drop_first() =~= siblings_from(up, idx / 2));
        assert(sibs[0] == sibling_of(layer, idx));
        assert(up[idx / 2] == if idx % 2 == 0 {
            node_hash(layer[idx], sibs[0])
        } else {
            node_hash(sibs[0], layer[idx])
        });
        lemma_walk_reaches_root(up, idx / 2);
    }
}

/// A leaf of a tree has as many siblings as a tree needs levels to hold it.
pub proof fn lemma_siblings_hold_index(layer: Seq<types::Hash>, idx: int)
    requires
        0 <= idx < layer.len(),
    ensures
        layer.len() <= capacity(siblings_from(layer, idx).len()),
    decreases layer.len(),
{
    if layer.len() > 1 {
        let up = next_layer(layer);
        lemma_siblings_hold_index(up, idx / 2);
        assert(siblings_from(layer, idx).len() == siblings_from(up, idx / 2).len() + 1);
    }
}

/// Every leaf's proof verifies against the root: for a non-empty list of
/// transactions and a position in it that fits the proof's index, the walk
/// from the leaf along its siblings reaches the Merkle root.
pub proof fn lemma_merkle_proof_verifies(txs: Seq<TxId>, i: int)
    requires
        0 <= i < txs.len(),
        i <= u32::MAX,
    ensures
        proof_verifies(merkle_root_of(txs), txs[i], i as u32, siblings_from(tx_hashes(txs), i)),
{
    lemma_walk_reaches_root(tx_hashes(txs), i);
    lemma_siblings_hold_index(tx_hashes(txs), i);
}

/// Hashes two nodes into their parent.
pub fn hash_pair(left: &types::Hash, right: &types::Hash) -> (h: types::Hash)
    ensures
        h == node_hash(*left, *right),
{
    let mut data: Vec<u8> = Vec::with_capacity(64);
    crate::codec::put_array32(&mut data, &left.0);
    crate::codec::put_array32(&mut data, &right.0);
    proof {
        assert(data@ =~= left.0@ + right.0@);
    }
    hash_bytes(data.as_slice())
}

/// Computes the layer above `layer`.
pub fn hash_layer(layer: &Vec<types::Hash>) -> (next: Vec<types::Hash>)
    ensures
        next@ == next_layer(layer@),
{
    let len = layer.len();
    let half: usize = len / 2 + len % 2;
    let mut next: Vec<types::Hash> = Vec::with_capacity(half);
    let mut i: usize = 0;
    while i < half
        invariant
            i <= half,
            len == layer.len(),
            half == len / 2 + len % 2,
            next@.len() == i,
            forall|j: int| 0 <= j < i ==> next@[j] == next_layer(layer@)[j],
        decreases half - i,
    {
        let left = layer[2 * i];
        let right = if 2 * i + 1 < len {
            layer[2 * i + 1]
        } else {
            layer[2 * i]
        };
        let h = hash_pair(&left, &right);
        next.push(h);
        i = i + 1;
    }
    proof {
        assert(next@ =~= next_layer(layer@));
    }
    next
}

/// The hashes that the ids wrap, in order.
pub fn leaf_hashes(txs: &[TxId]) -> (layer: Vec<types::Hash>)
    ensures
        layer@ == tx_hashes(txs@),
{
    let mut layer: Vec<types::Hash> = Vec::with_capacity(txs.len());
    let mut i: usize = 0;
    while i < txs.len()
        invariant
            i <= txs.len(),
            layer@.len() == i,
            forall|j: int| 0 <= j < i ==> layer@[j] == txs@[j].0,
        decreases txs.len() - i,
    {
        layer.push(txs[i].0);
        i = i + 1;
    }
    proof {
        assert(layer@ =~= tx_hashes(txs@));
    }
    layer
}

/// The Merkle root of `txs`; the zero hash when there are none.
pub fn merkle_root(txs: &[TxId]) -> (root: types::Hash)
    ensures
        root == merkle_root_of(txs@),
        txs@.len() == 0 ==> root == types::Hash::zero(),
{
    if txs.len() == 0 {
        return types::Hash::zeroed();
    }
    let mut layer = leaf_hashes(txs);
    while layer.len() > 1
        invariant
            layer.len() >= 1,
            layer_root(layer@) == merkle_root_of(txs@),
        decreases layer.len(),
    {
        layer = hash_layer(&layer);
    }
    layer[0]
}

/// The inclusion proof of the leaf at `index`; `None` when `txs` has no
/// such leaf. The proof, checked against the root of `txs`, verifies
/// whenever the index fits its 32 bits.
pub fn merkle_proof(txs: &[TxId], index: usize) -> (r: Option<MerkleProof>)
    ensures
        index >= txs@.len() ==> r is None,
        index < txs@.len() ==> r is Some && r->Some_0.index == index as u32
            && r->Some_0.siblings@ == siblings_from(tx_hashes(txs@), index as int),
        index < txs@.len() && index <= u32::MAX ==> proof_verifies(
            merkle_root_of(txs@),
            txs@[index as int],
            r->Some_0.index,
            r->Some_0.siblings@,
        ),
{
    if index >= txs.len() {
        return None;
    }
    let mut idx: usize = index;
    let mut layer = leaf_hashes(txs);
    let mut siblings: Vec<types::Hash> = Vec::new();
    while layer.len() > 1
        invariant
            idx < layer.len(),
            siblings@ + siblings_from(layer@, idx as int) == siblings_from(
                tx_hashes(txs@),
                index as int,
            ),
        decreases layer.len(),
    {
        let sibling = if idx % 2 == 1 {
            layer[idx - 1]
        } else if idx + 1 < layer.len() {
            layer[idx + 1]
        } else {
            layer[idx]
        };
        let ghost before = siblings@;
        let ghost below = layer@;
        siblings.push(sibling);
        layer = hash_layer(&layer);
        proof {
            assert(siblings@ + siblings_from(layer@, idx as int / 2) =~= before + siblings_from(
                below,
                idx as int,
            ));
        }
        idx = idx / 2;
    }
    proof {
        assert(siblings@ =~= siblings@ + siblings_from(layer@, idx as int));
        if index <= u32::MAX {
            lemma_merkle_proof_verifies(txs@, index as int);
        }
    }
    Some(MerkleProof { index: #[verifier::truncate] (index as u32), siblings })
}

/// Whether some tree with as many levels as `proof` has siblings holds
/// the index of `proof`.
pub fn is_well_formed(proof: &MerkleProof) -> (ok: bool)
    ensures
        ok == proof_well_formed(proof.index, proof.siblings@),
{
    let n = proof.siblings.len();
    let mut idx: u32 = proof.index;
    let mut i: usize = 0;
    while i < n
        invariant
            i <= n,
            n == proof.siblings@.len(),
            idx < capacity((n - i) as nat) <==> proof.index < capacity(n as nat),
        decreases n - i,
    {
        proof {
            assert(capacity((n - i) as nat) == 2 * capacity((n - i - 1) as nat));
        }
        idx = idx / 2;
        i = i + 1;
    }
    idx == 0
}

/// Whether the walk from `leaf` along the siblings of `proof` ends at `root`.
fn walk_reaches(root: types::Hash, leaf: TxId, proof: &MerkleProof) -> (ok: bool)
    ensures
        ok == walk_ends_at(root, leaf, proof.index, proof.siblings@),
{
    let mut hash = leaf.0;
    let mut idx: usize = proof.index as usize;
    let mut i: usize = 0;
    proof {
        assert(proof.siblings@.skip(0) =~= proof.siblings@);
    }
    while i < proof.siblings.len()
        invariant
            i <= proof.siblings.len(),
            merkle_walk(hash, idx as int, proof.siblings@.skip(i as int)) == merkle_walk(
                leaf.0,
                proof.index as int,
                proof.siblings@,
            ),
        decreases proof.siblings.len() - i,
    {
        let sibling = proof.siblings[i];
        proof {
            let rest = proof.siblings@.skip(i as int);
            assert(rest[0] == sibling);
            assert(rest.drop_first() =~= proof.siblings@.skip(i + 1));
        }
        hash = if idx % 2 == 0 {
            hash_pair(&hash, &sibling)
        } else {
            hash_pair(&sibling, &hash)
        };
        idx = idx / 2;
        i = i + 1;
    }
    hash == root
}

/// Whether `proof` shows that `leaf` is in the tree with root `root`. A
/// proof with too few siblings for a tree that holds its index shows
/// nothing: the answer is `false`, wherever its walk ends.
pub fn verify_merkle_proof(root: types::Hash, leaf: TxId, proof: &MerkleProof) -> (ok: bool)
    ensures
        ok == proof_verifies(root, leaf, proof.index, proof.siblings@),
{
    if !is_well_formed(proof) {
        return false;
    }
    walk_reaches(root, leaf, proof)
}

/// The root over no transaction is the zero hash.
pub proof fn lemma_empty_root()
    ensures
        merkle_root_of(Seq::empty()) == types::Hash::zero(),
{
}

/// Like `verify_merkle_proof`, but tells a malformed proof from one that
/// fails: a proof with too few siblings for a tree that holds its index
/// is refused with `MalformedProof`.
pub fn check_merkle_proof(root: types::Hash, leaf: TxId, proof: &MerkleProof) -> (r: Result<
    bool,
    TypesError,
>)
    ensures
        proof_well_formed(proof.index, proof.siblings@) ==> r == Ok::<bool, TypesError>(
            proof_verifies(root, leaf, proof.index, proof.siblings@),
        ),
        !proof_well_formed(proof.index, proof.siblings@) ==> r == Err::<bool, TypesError>(
            TypesError::MalformedProof,
        ),
{
    if !is_well_formed(proof) {
        return Err(TypesError::MalformedProof);
    }
    Ok(walk_reaches(root, leaf, proof))
}

} // verus!
