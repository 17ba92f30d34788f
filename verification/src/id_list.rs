//! A list of hashes that finds a hash again without reading the whole
//! list: positions are filed under an integer taken from the hash.
use crate::types;
use std::collections::HashMap;
use vstd::bytes::{spec_u64_from_le_bytes, u64_from_le_bytes};
use vstd::prelude::*;
use vstd::slice::slice_subrange;

verus! {

broadcast use vstd::std_specs::hash::group_hash_axioms;

/// The integer under which a hash is filed: the one that its first eight
/// bytes spell.
pub open spec fn slot_of(h: types::Hash) -> u64 {
    spec_u64_from_le_bytes(h.0@.subrange(0, 8))
}

/// The integer under which `h` is filed.
pub fn slot(h: &types::Hash) -> (k: u64)
    ensures
        k == slot_of(*h),
{
    u64_from_le_bytes(slice_subrange(h.0.as_slice(), 0, 8))
}

/// A list of hashes with an index from slot to positions.
#[derive(Debug)]
pub struct IdList {
    ids: Vec<types::Hash>,
    slots: HashMap<u64, Vec<usize>>,
}

impl View for IdList {
    type V = Seq<types::Hash>;

    closed spec fn view(&self) -> Seq<types::Hash> {
        self.ids@
    }
}

impl IdList {
    /// The positions filed under `k`.
    pub closed spec fn filed(&self, k: u64) -> Seq<usize> {
        if self.slots@.contains_key(k) {
            self.slots@[k]@
        } else {
            Seq::empty()
        }
    }

    /// The invariant: each position is filed under the slot of its hash,
    /// and nothing else is filed.
    pub closed spec fn wf(&self) -> bool {
        &&& forall|k: u64, j: int|
            0 <= j < self.filed(k).len() ==> (#[trigger] self.filed(k)[j]) < self.ids@.len()
                && slot_of(self.ids@[self.filed(k)[j] as int]) == k
        &&& forall|i: int|
            0 <= i < self.ids@.len() ==> self.filed(slot_of(#[trigger] self.ids@[i])).contains(
                i as usize,
            )
    }

    /// An empty list.
    pub fn new() -> (l: Self)
        ensures
            l.wf(),
            l@ == Seq::<types::Hash>::empty(),
    {
        IdList { ids: Vec::new(), slots: HashMap::new() }
    }

    /// The number of hashes in the list.
    pub fn len(&self) -> (n: usize)
        ensures
            n == self@.len(),
    {
        self.ids.len()
    }

    /// Appends `id`.
    pub fn push(&mut self, id: types::Hash)
        requires
            old(self).wf(),
        ensures
            final(self).wf(),
            final(self)@ == old(self)@.push(id),
    {
        let k = slot(&id);
        let at = self.ids.len();
        let ghost before = self.ids@;
        let ghost slots_before = self.slots@;
        self.ids.push(id);
        let mut bucket = match self.slots.remove(&k) {
            Some(bucket) => bucket,
            None => Vec::new(),
        };
        let ghost bucket_before = bucket@;
        bucket.push(at);
        self.slots.insert(k, bucket);
        proof {
            assert(bucket_before =~= old(self).filed(k));
            assert forall|n: u64| self.filed(n) == (if n == k {
                old(self).filed(k).push(at)
            } else {
                old(self).filed(n)
            }) by {
                if n != k {
                    assert(self.slots@.contains_key(n) == slots_before.contains_key(n));
                }
            }
            assert forall|n: u64, j: int| 0 <= j < self.filed(n).len() implies (
            #[trigger] self.filed(n)[j]) < self.ids@.len() && slot_of(
                self.ids@[self.filed(n)[j] as int],
            ) == n by {
                if n == k && j == old(self).filed(k).len() {
                } else {
                    let p = old(self).filed(n)[j];
                    assert(self.filed(n)[j] == p);
                    assert(p < before.len());
                    assert(self.ids@[p as int] == before[p as int]);
                }
            }
            assert forall|i: int| 0 <= i < self.ids@.len() implies self.filed(
                slot_of(#[trigger] self.ids@[i]),
            ).contains(i as usize) by {
                if i < before.len() {
                    assert(self.ids@[i] == before[i]);
                    let n = slot_of(before[i]);
                    assert(old(self).filed(n).contains(i as usize));
                    let j = choose|j: int|
                        0 <= j < old(self).filed(n).len() && old(self).filed(n)[j] == i as usize;
                    assert(self.filed(n)[j] == i as usize);
                } else {
                    assert(self.filed(k)[old(self).filed(k).len() as int] == at);
                }
            }
        }
    }

    /// A position of `id` in the list; `None` exactly when `id` is not in it.
    pub fn position_of(&self, id: &types::Hash) -> (r: Option<usize>)
        requires
            self.wf(),
        ensures
            match r {
                Some(i) => i < self@.len() && self@[i as int] == *id,
                None => !self@.contains(*id),
            },
    {
        let k = slot(id);
        let n = self.ids.len();
        match self.slots.get(&k) {
            None => {
                proof {
                    if self.ids@.contains(*id) {
                        let i = choose|i: int| 0 <= i < self.ids@.len() && self.ids@[i] == *id;
                        assert(self.filed(slot_of(self.ids@[i])).contains(i as usize));
                    }
                }
                None
            },
            Some(bucket) => {
                proof {
                    assert(bucket@ == self.filed(k));
                }
                let mut j: usize = 0;
                while j < bucket.len()
                    invariant
                        j <= bucket.len(),
                        self.wf(),
                        n == self.ids@.len(),
                        k == slot_of(*id),
                        bucket@ == self.filed(k),
                        forall|m: int| 0 <= m < j ==> self.ids@[(#[trigger] bucket@[m]) as int] != *id,
                    decreases bucket.len() - j,
                {
                    let p = bucket[j];
                    proof {
                        assert(self.filed(k)[j as int] == p);
                    }
                    if self.ids[p] == *id {
                        return Some(p);
                    }
                    j = j + 1;
                }
                proof {
                    if self.ids@.contains(*id) {
                        let i = choose|i: int| 0 <= i < self.ids@.len() && self.ids@[i] == *id;
                        assert(self.filed(slot_of(self.ids@[i])).contains(i as usize));
                        let m = choose|m: int|
                            0 <= m < self.filed(k).len() && self.filed(k)[m] == i as usize;
                        assert(self.ids@[bucket@[m] as int] != *id);
                    }
                }
                None
            },
        }
    }
}

} // verus!
