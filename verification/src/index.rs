//! The in-memory offset index.
//!
//! The index maps a key to the file offset of the value-length field of
//! the most recently appended record for that key.  It is a pure cache:
//! it may be empty or incomplete, and the engine falls back to a full
//! scan of the log whenever a key is absent here.  The index never holds
//! authority over the data — the storage file does.

use vstd::prelude::*;
use vstd::slice::slice_to_vec;

use crate::codec::bytes_eq;

verus! {

/// A mutable key-to-offset map, consulted by the engine before it falls
/// back to scanning the log.  Every implementation behaves as the map
/// `offsets` says: `get` answers from it, `set` and `delete` update it.
pub trait OffsetIndexer: Sized {
    /// The implementation's internal invariant.
    spec fn wf(&self) -> bool;

    /// The offsets currently cached, by key.
    spec fn offsets(&self) -> Map<Seq<u8>, usize>;

    /// The cached offset for `key`, if the index holds one.
    fn get(&self, key: &[u8]) -> (r: Option<usize>)
        requires
            self.wf(),
        ensures
            match r {
                Some(offset) => self.offsets().contains_key(key@) && self.offsets()[key@]
                    == offset,
                None => !self.offsets().contains_key(key@),
            },
    ;

    /// Points `key` at `offset`, replacing any earlier entry for `key`.
    fn set(&mut self, key: &[u8], offset: usize)
        requires
            old(self).wf(),
        ensures
            final(self).wf(),
            final(self).offsets() == old(self).offsets().insert(key@, offset),
    ;

    /// Drops the entry for `key`, if the index holds one.
    fn delete(&mut self, key: &[u8])
        requires
            old(self).wf(),
        ensures
            final(self).wf(),
            final(self).offsets() == old(self).offsets().remove(key@),
    ;
}

/// The offset index of the binary engine: a list of entries with
/// pairwise distinct keys.
pub struct BinaryOffsetIndexer {
    entries: Vec<(Vec<u8>, usize)>,
}

impl BinaryOffsetIndexer {
    /// A fresh, empty index.
    pub fn new() -> (r: Self)
        ensures
            r.wf(),
            r.offsets() == Map::<Seq<u8>, usize>::empty(),
    {
        let r = BinaryOffsetIndexer { entries: Vec::new() };
        proof {
            assert(r.offsets() =~= Map::<Seq<u8>, usize>::empty());
        }
        r
    }

    /// Each stored entry is visible in the offset map, with its offset.
    proof fn lemma_entry_in_map(self, i: int)
        requires
            self.wf(),
            0 <= i < self.entries@.len(),
        ensures
            self.offsets().contains_key(self.entries@[i].0@),
            self.offsets()[self.entries@[i].0@] == self.entries@[i].1,
    {
        let k = self.entries@[i].0@;
        assert(self.offsets().contains_key(k));
        let j = choose|j: int|
            0 <= j < self.entries@.len() && (#[trigger] self.entries@[j]).0@ == k;
        if i != j {
            assert(false);
        }
    }

    /// After writing `(key, offset)` at position `i` of an entry list
    /// whose other positions are unchanged and hold no entry for `key`,
    /// the offset map is the old map with `key` bound to `offset`.
    proof fn lemma_map_after_replace(self, prev: Self, i: int, key: Seq<u8>, offset: usize)
        requires
            prev.wf(),
            0 <= i <= prev.entries@.len(),
            self.entries@.len() == (if i < prev.entries@.len() {
                prev.entries@.len()
            } else {
                prev.entries@.len() + 1
            }),
            forall|j: int|
                0 <= j < prev.entries@.len() && j != i ==> self.entries@[j] == prev.entries@[j],
            forall|j: int|
                0 <= j < prev.entries@.len() && j != i ==> (#[trigger] prev.entries@[j]).0@ != key,
            i < prev.entries@.len() ==> prev.entries@[i].0@ == key,
            self.entries@[i].0@ == key,
            self.entries@[i].1 == offset,
        ensures
            self.wf(),
            self.offsets() == prev.offsets().insert(key, offset),
    {
        assert forall|a: int, b: int| 0 <= a < b < self.entries@.len() implies (
        #[trigger] self.entries@[a]).0@ != (#[trigger] self.entries@[b]).0@ by {
            if a != i && b != i {
                assert(prev.entries@[a] == self.entries@[a]);
                assert(prev.entries@[b] == self.entries@[b]);
            }
        }
        assert forall|k: Seq<u8>| #[trigger]
            self.offsets().contains_key(k) == prev.offsets().insert(key, offset).contains_key(k)
            && (self.offsets().contains_key(k) ==> self.offsets()[k] == prev.offsets().insert(
            key,
            offset,
        )[k]) by {
            if k == key {
                self.lemma_entry_in_map(i);
            } else {
                if prev.offsets().contains_key(k) {
                    let j = choose|j: int|
                        0 <= j < prev.entries@.len() && (#[trigger] prev.entries@[j]).0@ == k;
                    assert(j != i);
                    prev.lemma_entry_in_map(j);
                    assert(self.entries@[j].0@ == k);
                    self.lemma_entry_in_map(j);
                }
                if self.offsets().contains_key(k) {
                    let j = choose|j: int|
                        0 <= j < self.entries@.len() && (#[trigger] self.entries@[j]).0@ == k;
                    assert(j != i);
                    assert(prev.entries@[j].0@ == k);
                    prev.lemma_entry_in_map(j);
                    self.lemma_entry_in_map(j);
                }
            }
        }
        assert(self.offsets() =~= prev.offsets().insert(key, offset));
    }

    /// After removing position `i`, the only entry for `key`, the offset
    /// map is the old map without `key`.
    proof fn lemma_map_after_remove(self, prev: Self, i: int, key: Seq<u8>)
        requires
            prev.wf(),
            0 <= i < prev.entries@.len(),
            prev.entries@[i].0@ == key,
            self.entries@ == prev.entries@.remove(i),
        ensures
            self.wf(),
            self.offsets() == prev.offsets().remove(key),
    {
        assert forall|a: int, b: int| 0 <= a < b < self.entries@.len() implies (
        #[trigger] self.entries@[a]).0@ != (#[trigger] self.entries@[b]).0@ by {
            let pa = if a < i {
                a
            } else {
                a + 1
            };
            let pb = if b < i {
                b
            } else {
                b + 1
            };
            assert(self.entries@[a] == prev.entries@[pa]);
            assert(self.entries@[b] == prev.entries@[pb]);
        }
        assert forall|k: Seq<u8>| #[trigger]
            self.offsets().contains_key(k) == prev.offsets().remove(key).contains_key(k) && (
            self.offsets().contains_key(k) ==> self.offsets()[k] == prev.offsets().remove(key)[k])
            by {
            if self.offsets().contains_key(k) {
                let j = choose|j: int|
                    0 <= j < self.entries@.len() && (#[trigger] self.entries@[j]).0@ == k;
                let pj = if j < i {
                    j
                } else {
                    j + 1
                };
                assert(self.entries@[j] == prev.entries@[pj]);
                prev.lemma_entry_in_map(pj);
                self.lemma_entry_in_map(j);
                assert(k != key);
            }
            if prev.offsets().contains_key(k) && k != key {
                let pj = choose|pj: int|
                    0 <= pj < prev.entries@.len() && (#[trigger] prev.entries@[pj]).0@ == k;
                assert(pj != i);
                let j = if pj < i {
                    pj
                } else {
                    pj - 1
                };
                assert(self.entries@[j] == prev.entries@[pj]);
                prev.lemma_entry_in_map(pj);
                self.lemma_entry_in_map(j);
            }
        }
        assert(self.offsets() =~= prev.offsets().remove(key));
    }
}

impl OffsetIndexer for BinaryOffsetIndexer {
    /// The entry list never holds two entries for one key.
    closed spec fn wf(&self) -> bool {
        forall|i: int, j: int|
            0 <= i < j < self.entries@.len() ==> (#[trigger] self.entries@[i]).0@ != (
            #[trigger] self.entries@[j]).0@
    }

    closed spec fn offsets(&self) -> Map<Seq<u8>, usize> {
        Map::new(
            |k: Seq<u8>|
                exists|i: int|
                    0 <= i < self.entries@.len() && (#[trigger] self.entries@[i]).0@ == k,
            |k: Seq<u8>|
                {
                    let i = choose|i: int|
                        0 <= i < self.entries@.len() && (#[trigger] self.entries@[i]).0@ == k;
                    self.entries@[i].1
                },
        )
    }

    fn get(&self, key: &[u8]) -> (r: Option<usize>) {
        let mut i: usize = 0;
        while i < self.entries.len()
            invariant
                self.wf(),
                i <= self.entries@.len(),
                forall|j: int| 0 <= j < i ==> (#[trigger] self.entries@[j]).0@ != key@,
            decreases self.entries@.len() - i,
        {
            if bytes_eq(self.entries[i].0.as_slice(), key) {
                proof {
                    self.lemma_entry_in_map(i as int);
                }
                return Some(self.entries[i].1);
            }
            i += 1;
        }
        None
    }

    fn set(&mut self, key: &[u8], offset: usize) {
        let mut i: usize = 0;
        while i < self.entries.len()
            invariant
                self.wf(),
                self == old(self),
                i <= self.entries@.len(),
                forall|j: int| 0 <= j < i ==> (#[trigger] self.entries@[j]).0@ != key@,
            decreases self.entries@.len() - i,
        {
            if bytes_eq(self.entries[i].0.as_slice(), key) {
                self.entries[i] = (slice_to_vec(key), offset);
                proof {
                    self.lemma_map_after_replace(*old(self), i as int, key@, offset);
                }
                return ;
            }
            i += 1;
        }
        self.entries.push((slice_to_vec(key), offset));
        proof {
            self.lemma_map_after_replace(*old(self), old(self).entries@.len() as int, key@, offset);
        }
    }

    fn delete(&mut self, key: &[u8]) {
        let mut i: usize = 0;
        while i < self.entries.len()
            invariant
                self.wf(),
                self == old(self),
                i <= self.entries@.len(),
                forall|j: int| 0 <= j < i ==> (#[trigger] self.entries@[j]).0@ != key@,
            decreases self.entries@.len() - i,
        {
            if bytes_eq(self.entries[i].0.as_slice(), key) {
                self.entries.remove(i);
                proof {
                    self.lemma_map_after_remove(*old(self), i as int, key@);
                }
                return ;
            }
            i += 1;
        }
        proof {
            assert(!self.offsets().contains_key(key@));
            assert(self.offsets() =~= old(self).offsets().remove(key@));
        }
    }
}

} // verus!
