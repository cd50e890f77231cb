//! The alias table: arbitrarily many string keys resolve onto one shared
//! storage slot. One key per slot is the *canonical key* (its reference count
//! is at least 1 and counts the canonical claims on the slot); every other
//! key is a pure *alias* (reference count 0) that resolves in one hop to the
//! slot of some canonical key. Slots are addressed by [`Index`], an opaque
//! handle issued by a monotone counter and never reused while the table
//! lives.
//!
//! The table is backed by two association vectors, read as maps through
//! [`crate::assoc::seq_to_map`]; every key operation scans linearly. Lookups
//! that miss return an absent value, never an error, as callers must treat an
//! unknown key as an ordinary, recoverable outcome.

use vstd::prelude::*;

use crate::assoc::{
    distinct_keys, has_key, lemma_assoc_map, lemma_assoc_push_fresh, lemma_assoc_remove_at,
    seq_to_map,
};

verus! {

/// The raw value inside an [`Index`].
pub type IndexType = usize;

/// An opaque handle for one storage slot: unique per live slot, compared by
/// raw value, not meaningful across table instances.
#[derive(Debug, Hash, PartialEq, Eq, Structural, Clone, Copy)]
pub struct Index(IndexType);

/// Many string keys over one storage slot. `keys` resolves a key to its slot
/// and carries the canonical-claim count; `data` owns the slot contents;
/// `unique_keys` is the monotone allocator for fresh [`Index`] values.
pub struct MultiMap<V> {
    keys: Vec<(String, (Index, usize))>,
    data: Vec<(Index, V)>,
    unique_keys: IndexType,
}

impl<V> MultiMap<V> {
    /// The key table as an association sequence over string views.
    pub closed spec fn kseq(self) -> Seq<(Seq<char>, (Index, usize))> {
        self.keys@.map_values(|p: (String, (Index, usize))| (p.0@, p.1))
    }

    /// The storage table as an association sequence.
    pub closed spec fn dseq(self) -> Seq<(Index, V)> {
        self.data@
    }

    /// What the table's key side means: a map from key to slot and count.
    pub open spec fn key_map(self) -> Map<Seq<char>, (Index, usize)> {
        seq_to_map(self.kseq())
    }

    /// What the table's storage side means: a map from slot to owned value.
    pub open spec fn data_map(self) -> Map<Index, V> {
        seq_to_map(self.dseq())
    }

    /// How many indices have been issued so far; also the raw value of the
    /// next index.
    pub closed spec fn counter_spec(self) -> IndexType {
        self.unique_keys
    }

    /// The index that the next allocation will issue.
    pub closed spec fn spec_next_index(self) -> Index {
        Index(self.unique_keys)
    }

    /// Structural well-formedness: both association vectors bind each key at
    /// most once, so they read unambiguously as maps.
    pub open spec fn wf(self) -> bool {
        distinct_keys(self.kseq()) && distinct_keys(self.dseq())
    }

    /// `k` is a canonical key: present, with at least one canonical claim.
    pub open spec fn spec_is_key(self, k: Seq<char>) -> bool {
        self.key_map().contains_key(k) && self.key_map()[k].1 != 0
    }

    /// `k` is a pure alias: present, with no canonical claim of its own.
    pub open spec fn spec_is_alias(self, k: Seq<char>) -> bool {
        self.key_map().contains_key(k) && self.key_map()[k].1 == 0
    }

    /// Position of `k` in the key vector, if bound.
    fn find_key(&self, k: &String) -> (r: Option<usize>)
        ensures
            match r {
                Some(i) => i < self.kseq().len() && self.kseq()[i as int].0 == k@,
                None => !has_key(self.kseq(), k@),
            },
    {
        let n = self.keys.len();
        let mut i: usize = 0;
        while i < n
            invariant
                i <= n,
                n == self.kseq().len(),
                forall|j: int| 0 <= j < i ==> (#[trigger] self.kseq()[j]).0 != k@,
            decreases n - i,
        {
            if self.keys[i].0 == *k {
                return Some(i);
            }
            i += 1;
        }
        None
    }

    /// Position of slot `ix` in the storage vector, if occupied.
    fn find_index(&self, ix: &Index) -> (r: Option<usize>)
        ensures
            match r {
                Some(i) => i < self.dseq().len() && self.dseq()[i as int].0 == *ix,
                None => !has_key(self.dseq(), *ix),
            },
    {
        let n = self.data.len();
        let mut i: usize = 0;
        while i < n
            invariant
                i <= n,
                n == self.dseq().len(),
                forall|j: int| 0 <= j < i ==> (#[trigger] self.dseq()[j]).0 != *ix,
            decreases n - i,
        {
            if self.data[i].0 == *ix {
                return Some(i);
            }
            i += 1;
        }
        None
    }

    /// An empty table. The capacity is an allocation hint only; it does not
    /// bound what the table can hold.
    pub fn with_capacity(capacity: usize) -> (r: Self)
        ensures
            r.wf(),
            r.key_map() == Map::<Seq<char>, (Index, usize)>::empty(),
            r.data_map() == Map::<Index, V>::empty(),
            r.counter_spec() == 0,
    {
        let r = Self {
            keys: Vec::with_capacity(capacity),
            data: Vec::with_capacity(capacity),
            unique_keys: 0,
        };
        proof {
            assert(r.kseq() =~= Seq::<(Seq<char>, (Index, usize))>::empty());
            assert(r.dseq() =~= Seq::<(Index, V)>::empty());
        }
        r
    }

    /// Drops every key and every slot and restarts index allocation.
    pub fn clear(&mut self)
        ensures
            final(self).wf(),
            final(self).key_map() == Map::<Seq<char>, (Index, usize)>::empty(),
            final(self).data_map() == Map::<Index, V>::empty(),
            final(self).counter_spec() == 0,
    {
        self.keys.clear();
        self.data.clear();
        self.unique_keys = 0;
        proof {
            assert(self.kseq() =~= Seq::<(Seq<char>, (Index, usize))>::empty());
        }
    }

    /// Whether `k` is bound at all, as a canonical key or as an alias.
    pub fn contains_key(&self, k: &String) -> (r: bool)
        requires
            self.wf(),
        ensures
            r == self.key_map().contains_key(k@),
    {
        proof {
            lemma_assoc_map(self.kseq());
        }
        self.find_key(k).is_some()
    }

    /// Whether slot `ix` is occupied.
    pub fn contains_index(&self, ix: &Index) -> (r: bool)
        requires
            self.wf(),
        ensures
            r == self.data_map().contains_key(*ix),
    {
        proof {
            lemma_assoc_map(self.dseq());
        }
        self.find_index(ix).is_some()
    }

    /// The index the next insertion will use. Allocation is monotone: this
    /// value only grows, so issued indices are never reused.
    pub fn next_index(&self) -> (r: Index)
        ensures
            r == self.spec_next_index(),
    {
        Index(self.unique_keys)
    }

    /// Resolves a key to the slot contents it names: one hop from the key to
    /// its index, one lookup of that index. Absent key or empty slot both
    /// yield nothing.
    pub fn get(&self, k: &String) -> (r: Option<&V>)
        requires
            self.wf(),
        ensures
            match r {
                Some(v) => self.key_map().contains_key(k@) && self.data_map().contains_key(
                    self.key_map()[k@].0,
                ) && *v == self.data_map()[self.key_map()[k@].0],
                None => !self.key_map().contains_key(k@) || !self.data_map().contains_key(
                    self.key_map()[k@].0,
                ),
            },
    {
        proof {
            lemma_assoc_map(self.kseq());
            lemma_assoc_map(self.dseq());
        }
        match self.find_key(k) {
            Some(i) => {
                let ix = self.keys[i].1.0;
                match self.find_index(&ix) {
                    Some(j) => Some(&self.data[j].1),
                    None => None,
                }
            },
            None => None,
        }
    }

    /// The index a key resolves to, canonical or alias alike.
    pub fn keys_get(&self, k: &String) -> (r: Option<&Index>)
        requires
            self.wf(),
        ensures
            match r {
                Some(ix) => self.key_map().contains_key(k@) && *ix == self.key_map()[k@].0,
                None => !self.key_map().contains_key(k@),
            },
    {
        proof {
            lemma_assoc_map(self.kseq());
        }
        match self.find_key(k) {
            Some(i) => Some(&self.keys[i].1.0),
            None => None,
        }
    }

    /// The contents of slot `ix`, borrowed.
    pub fn data_get(&self, ix: &Index) -> (r: Option<&V>)
        requires
            self.wf(),
        ensures
            match r {
                Some(v) => self.data_map().contains_key(*ix) && *v == self.data_map()[*ix],
                None => !self.data_map().contains_key(*ix),
            },
    {
        proof {
            lemma_assoc_map(self.dseq());
        }
        match self.find_index(ix) {
            Some(j) => Some(&self.data[j].1),
            None => None,
        }
    }

    /// How many indices have been issued over the table's lifetime.
    pub fn unique_keys_count(&self) -> (r: IndexType)
        ensures
            r == self.counter_spec(),
    {
        self.unique_keys
    }

    /// Whether `k` is currently a canonical key.
    pub fn is_key(&self, k: &String) -> (r: bool)
        requires
            self.wf(),
        ensures
            r == self.spec_is_key(k@),
    {
        proof {
            lemma_assoc_map(self.kseq());
        }
        match self.find_key(k) {
            Some(i) => self.keys[i].1.1 != 0,
            None => false,
        }
    }

    /// Whether `k` is currently a pure alias.
    pub fn is_alias(&self, k: &String) -> (r: bool)
        requires
            self.wf(),
        ensures
            r == self.spec_is_alias(k@),
    {
        proof {
            lemma_assoc_map(self.kseq());
        }
        match self.find_key(k) {
            Some(i) => self.keys[i].1.1 == 0,
            None => false,
        }
    }

    /// Whether `other` is an alias of the canonical key `base`: both known,
    /// `base` canonical, `other` a pure alias, and both resolving to the same
    /// slot. Unknown keys make this false, never a failure.
    pub fn is_alias_of(&self, base: &String, other: &String) -> (r: bool)
        requires
            self.wf(),
        ensures
            r == (self.spec_is_key(base@) && self.spec_is_alias(other@) && self.key_map().contains_key(base@)
                && self.key_map().contains_key(other@) && self.key_map()[base@].0
                == self.key_map()[other@].0),
    {
        proof {
            lemma_assoc_map(self.kseq());
        }
        match (self.find_key(base), self.find_key(other)) {
            (Some(i), Some(j)) => {
                let a = self.keys[i].1;
                let b = self.keys[j].1;
                a.1 != 0 && b.1 == 0 && a.0 == b.0
            },
            _ => false,
        }
    }

    /// Whether both sides of the table are empty.
    pub fn is_empty(&self) -> (r: bool)
        requires
            self.wf(),
        ensures
            r == (self.key_map().len() == 0 && self.data_map().len() == 0),
    {
        self.keys_is_empty() && self.data_is_empty()
    }

    /// Whether no key is bound.
    pub fn keys_is_empty(&self) -> (r: bool)
        requires
            self.wf(),
        ensures
            r == (self.key_map().len() == 0),
    {
        proof {
            lemma_assoc_map(self.kseq());
        }
        self.keys.is_empty()
    }

    /// Whether no slot is occupied.
    pub fn data_is_empty(&self) -> (r: bool)
        requires
            self.wf(),
        ensures
            r == (self.data_map().len() == 0),
    {
        proof {
            lemma_assoc_map(self.dseq());
        }
        self.data.is_empty()
    }

    /// Bound keys and occupied slots together.
    pub fn len(&self) -> (r: usize)
        requires
            self.wf(),
            self.key_map().len() + self.data_map().len() <= usize::MAX,
        ensures
            r == self.key_map().len() + self.data_map().len(),
    {
        self.keys_len() + self.data_len()
    }

    /// How many keys are bound, canonical keys and aliases together.
    pub fn keys_len(&self) -> (r: usize)
        requires
            self.wf(),
        ensures
            r == self.key_map().len(),
    {
        proof {
            lemma_assoc_map(self.kseq());
        }
        self.keys.len()
    }

    /// How many slots are occupied.
    pub fn data_len(&self) -> (r: usize)
        requires
            self.wf(),
        ensures
            r == self.data_map().len(),
    {
        proof {
            lemma_assoc_map(self.dseq());
        }
        self.data.len()
    }

    /// How many distinct slots are occupied. On a well-formed table every
    /// slot is listed once, so this equals [`Self::data_len`]; it is kept as
    /// the order of the stored collection.
    pub fn order(&self) -> (r: usize)
        requires
            self.wf(),
        ensures
            r == self.data_map().len(),
    {
        proof {
            lemma_assoc_map(self.dseq());
        }
        self.data.len()
    }

    /// Binds `k` to `val` in the key table, displacing any previous binding.
    fn upsert_key(&mut self, k: String, val: (Index, usize)) -> (r: Option<(Index, usize)>)
        requires
            old(self).wf(),
        ensures
            final(self).wf(),
            final(self).key_map() == old(self).key_map().insert(k@, val),
            final(self).dseq() == old(self).dseq(),
            final(self).counter_spec() == old(self).counter_spec(),
            r == if old(self).key_map().contains_key(k@) {
                Some(old(self).key_map()[k@])
            } else {
                None::<(Index, usize)>
            },
    {
        proof {
            lemma_assoc_map(old(self).kseq());
        }
        match self.find_key(&k) {
            Some(pos) => {
                let (_, prev) = self.keys.remove(pos);
                self.keys.push((k, val));
                proof {
                    let s0 = old(self).kseq();
                    lemma_assoc_remove_at(s0, pos as int);
                    lemma_assoc_push_fresh(s0.remove(pos as int), k@, val);
                    assert(self.kseq() =~= s0.remove(pos as int).push((k@, val)));
                    assert(self.key_map() =~= old(self).key_map().insert(k@, val));
                }
                Some(prev)
            },
            None => {
                self.keys.push((k, val));
                proof {
                    let s0 = old(self).kseq();
                    lemma_assoc_push_fresh(s0, k@, val);
                    assert(self.kseq() =~= s0.push((k@, val)));
                }
                None
            },
        }
    }

    /// Fills slot `ix` with `v`, displacing any previous contents.
    fn upsert_data(&mut self, ix: Index, v: V) -> (r: Option<V>)
        requires
            old(self).wf(),
        ensures
            final(self).wf(),
            final(self).data_map() == old(self).data_map().insert(ix, v),
            final(self).kseq() == old(self).kseq(),
            final(self).counter_spec() == old(self).counter_spec(),
            r == if old(self).data_map().contains_key(ix) {
                Some(old(self).data_map()[ix])
            } else {
                None::<V>
            },
    {
        proof {
            lemma_assoc_map(old(self).dseq());
        }
        match self.find_index(&ix) {
            Some(pos) => {
                let (_, prev) = self.data.remove(pos);
                self.data.push((ix, v));
                proof {
                    let s0 = old(self).dseq();
                    lemma_assoc_remove_at(s0, pos as int);
                    lemma_assoc_push_fresh(s0.remove(pos as int), ix, v);
                    assert(self.dseq() =~= s0.remove(pos as int).push((ix, v)));
                    assert(self.data_map() =~= old(self).data_map().insert(ix, v));
                }
                Some(prev)
            },
            None => {
                self.data.push((ix, v));
                proof {
                    lemma_assoc_push_fresh(old(self).dseq(), ix, v);
                    assert(self.dseq() =~= old(self).dseq().push((ix, v)));
                }
                None
            },
        }
    }

    /// Makes `k` a canonical key for slot `i`, displacing whatever binding
    /// `k` had before and returning it. Each call consumes one fresh index
    /// number from the allocator.
    pub fn insert_key(&mut self, k: String, i: Index) -> (r: Option<(Index, usize)>)
        requires
            old(self).wf(),
            old(self).counter_spec() < IndexType::MAX,
        ensures
            final(self).wf(),
            final(self).key_map() == old(self).key_map().insert(k@, (i, 1)),
            final(self).data_map() == old(self).data_map(),
            final(self).counter_spec() == old(self).counter_spec() + 1,
            r == if old(self).key_map().contains_key(k@) {
                Some(old(self).key_map()[k@])
            } else {
                None::<(Index, usize)>
            },
    {
        self.unique_keys = self.unique_keys + 1;
        self.upsert_key(k, (i, 1))
    }

    /// Stores `v` under a fresh index and makes `k` canonical for it; returns
    /// whatever the fresh slot held, which on a table driven only through
    /// this interface is nothing.
    pub fn insert(&mut self, k: String, v: V) -> (r: Option<V>)
        requires
            old(self).wf(),
            old(self).counter_spec() < IndexType::MAX,
        ensures
            final(self).wf(),
            final(self).key_map() == old(self).key_map().insert(
                k@,
                (old(self).spec_next_index(), 1),
            ),
            final(self).data_map() == old(self).data_map().insert(old(self).spec_next_index(), v),
            final(self).counter_spec() == old(self).counter_spec() + 1,
            r == if old(self).data_map().contains_key(old(self).spec_next_index()) {
                Some(old(self).data_map()[old(self).spec_next_index()])
            } else {
                None::<V>
            },
    {
        let i = self.next_index();
        let _ = self.insert_key(k, i);
        self.upsert_data(i, v)
    }

    /// Replaces the contents of the slot that `k` resolves to. An unknown key
    /// changes nothing and yields nothing.
    pub fn insert_data(&mut self, k: String, v: V) -> (r: Option<V>)
        requires
            old(self).wf(),
        ensures
            final(self).wf(),
            final(self).counter_spec() == old(self).counter_spec(),
            old(self).key_map().contains_key(k@) ==> {
                &&& final(self).key_map() == old(self).key_map()
                &&& final(self).data_map() == old(self).data_map().insert(
                    old(self).key_map()[k@].0,
                    v,
                )
                &&& r == if old(self).data_map().contains_key(old(self).key_map()[k@].0) {
                    Some(old(self).data_map()[old(self).key_map()[k@].0])
                } else {
                    None::<V>
                }
            },
            !old(self).key_map().contains_key(k@) ==> *final(self) == *old(self) && r is None,
    {
        proof {
            lemma_assoc_map(self.kseq());
        }
        match self.find_key(&k) {
            Some(pos) => {
                let ix = self.keys[pos].1.0;
                self.upsert_data(ix, v)
            },
            None => None,
        }
    }

    /// Removes a canonical key, returning its slot index and claim count.
    /// Aliases and unknown keys are left alone: a cascading delete may only
    /// start from the key that owns the slot.
    pub fn remove_key(&mut self, k: &String) -> (r: Option<(Index, usize)>)
        requires
            old(self).wf(),
        ensures
            final(self).wf(),
            final(self).data_map() == old(self).data_map(),
            final(self).counter_spec() == old(self).counter_spec(),
            old(self).spec_is_key(k@) ==> final(self).key_map() == old(self).key_map().remove(k@)
                && r == Some(old(self).key_map()[k@]),
            !old(self).spec_is_key(k@) ==> *final(self) == *old(self) && r is None,
    {
        proof {
            lemma_assoc_map(self.kseq());
        }
        match self.find_key(k) {
            Some(pos) => {
                if self.keys[pos].1.1 != 0 {
                    let (_, prev) = self.keys.remove(pos);
                    proof {
                        lemma_assoc_remove_at(old(self).kseq(), pos as int);
                        assert(self.kseq() =~= old(self).kseq().remove(pos as int));
                    }
                    Some(prev)
                } else {
                    None
                }
            },
            None => None,
        }
    }

    /// Removes a pure alias, leaving the slot and its canonical key intact.
    /// Canonical keys and unknown keys are left alone.
    pub fn remove_alias(&mut self, k: &String)
        requires
            old(self).wf(),
        ensures
            final(self).wf(),
            final(self).data_map() == old(self).data_map(),
            final(self).counter_spec() == old(self).counter_spec(),
            old(self).spec_is_alias(k@) ==> final(self).key_map() == old(self).key_map().remove(
                k@,
            ),
            !old(self).spec_is_alias(k@) ==> *final(self) == *old(self),
    {
        proof {
            lemma_assoc_map(self.kseq());
        }
        match self.find_key(k) {
            Some(pos) => {
                if self.keys[pos].1.1 == 0 {
                    let _ = self.keys.remove(pos);
                    proof {
                        lemma_assoc_remove_at(old(self).kseq(), pos as int);
                        assert(self.kseq() =~= old(self).kseq().remove(pos as int));
                    }
                }
            },
            None => {},
        }
    }

    /// Empties slot `ix`, returning its contents. Keys are not touched: a
    /// caller that empties a slot while keys still resolve to it has created
    /// the orphaned-slot state the deletion operations exist to avoid.
    pub fn remove_index(&mut self, ix: &Index) -> (r: Option<V>)
        requires
            old(self).wf(),
        ensures
            final(self).wf(),
            final(self).kseq() == old(self).kseq(),
            final(self).counter_spec() == old(self).counter_spec(),
            final(self).data_map() == old(self).data_map().remove(*ix),
            r == if old(self).data_map().contains_key(*ix) {
                Some(old(self).data_map()[*ix])
            } else {
                None::<V>
            },
    {
        proof {
            lemma_assoc_map(self.dseq());
        }
        match self.find_index(ix) {
            Some(pos) => {
                let (_, prev) = self.data.remove(pos);
                proof {
                    lemma_assoc_remove_at(old(self).dseq(), pos as int);
                    assert(self.dseq() =~= old(self).dseq().remove(pos as int));
                }
                Some(prev)
            },
            None => {
                proof {
                    assert(old(self).data_map().remove(*ix) =~= old(self).data_map());
                }
                None
            },
        }
    }

    /// Cascading delete: removes the canonical key `k` and the slot it owns,
    /// returning the slot contents. Aliases and unknown keys remove nothing.
    pub fn remove(&mut self, k: &String) -> (r: Option<V>)
        requires
            old(self).wf(),
        ensures
            final(self).wf(),
            final(self).counter_spec() == old(self).counter_spec(),
            old(self).spec_is_key(k@) ==> {
                &&& final(self).key_map() == old(self).key_map().remove(k@)
                &&& final(self).data_map() == old(self).data_map().remove(
                    old(self).key_map()[k@].0,
                )
                &&& r == if old(self).data_map().contains_key(old(self).key_map()[k@].0) {
                    Some(old(self).data_map()[old(self).key_map()[k@].0])
                } else {
                    None::<V>
                }
            },
            !old(self).spec_is_key(k@) ==> *final(self) == *old(self) && r is None,
    {
        match self.remove_key(k) {
            Some((ix, _)) => self.remove_index(&ix),
            None => None,
        }
    }

    /// Removes whatever binding `k` has, canonical or alias, returning it.
    /// The slot is never touched.
    pub fn drop_key(&mut self, k: &String) -> (r: Option<(Index, usize)>)
        requires
            old(self).wf(),
        ensures
            final(self).wf(),
            final(self).data_map() == old(self).data_map(),
            final(self).dseq() == old(self).dseq(),
            final(self).counter_spec() == old(self).counter_spec(),
            final(self).key_map() == old(self).key_map().remove(k@),
            r == if old(self).key_map().contains_key(k@) {
                Some(old(self).key_map()[k@])
            } else {
                None::<(Index, usize)>
            },
    {
        proof {
            lemma_assoc_map(self.kseq());
        }
        match self.find_key(k) {
            Some(pos) => {
                let (_, prev) = self.keys.remove(pos);
                proof {
                    lemma_assoc_remove_at(old(self).kseq(), pos as int);
                    assert(self.kseq() =~= old(self).kseq().remove(pos as int));
                }
                Some(prev)
            },
            None => {
                proof {
                    assert(old(self).key_map().remove(k@) =~= old(self).key_map());
                }
                None
            },
        }
    }

    /// Moves the binding of the canonical key `old_key` to `new_key`,
    /// returning whatever binding `new_key` had before. Aliases and unknown
    /// keys move nothing: renaming is an owner's operation.
    pub fn replace_key(&mut self, old_key: &String, new_key: String) -> (r: Option<(Index, usize)>)
        requires
            old(self).wf(),
        ensures
            final(self).wf(),
            final(self).data_map() == old(self).data_map(),
            final(self).counter_spec() == old(self).counter_spec(),
            old(self).spec_is_key(old_key@) ==> {
                &&& final(self).key_map() == old(self).key_map().remove(old_key@).insert(
                    new_key@,
                    old(self).key_map()[old_key@],
                )
                &&& r == if new_key@ != old_key@ && old(self).key_map().contains_key(new_key@) {
                    Some(old(self).key_map()[new_key@])
                } else {
                    None::<(Index, usize)>
                }
            },
            !old(self).spec_is_key(old_key@) ==> *final(self) == *old(self) && r is None,
    {
        proof {
            lemma_assoc_map(self.kseq());
        }
        match self.find_key(old_key) {
            Some(pos) => {
                if self.keys[pos].1.1 != 0 {
                    let (_, tmp) = self.keys.remove(pos);
                    proof {
                        lemma_assoc_remove_at(old(self).kseq(), pos as int);
                        assert(self.kseq() =~= old(self).kseq().remove(pos as int));
                        lemma_assoc_map(self.kseq());
                    }
                    self.upsert_key(new_key, tmp)
                } else {
                    None
                }
            },
            None => None,
        }
    }

    /// Binds `alias_key` as a pure alias of the canonical key `base`: the
    /// alias resolves, in one hop, to the slot `base` owns, and `base` gains
    /// one canonical claim. Fails, changing nothing, when `base` is itself an
    /// alias or unknown, so alias chains never form. Returns the index that
    /// `alias_key` resolved to before, if it was bound.
    pub fn alias(&mut self, base: &String, alias_key: String) -> (r: Option<Index>)
        requires
            old(self).wf(),
            old(self).spec_is_key(base@) ==> old(self).key_map()[base@].1 < usize::MAX,
        ensures
            final(self).wf(),
            old(self).spec_is_key(base@) ==> alias_added(
                *old(self),
                *final(self),
                base@,
                alias_key@,
            ) && r == if old(self).key_map().contains_key(alias_key@) {
                Some(old(self).key_map()[alias_key@].0)
            } else {
                None::<Index>
            },
            !old(self).spec_is_key(base@) ==> *final(self) == *old(self) && r is None,
    {
        proof {
            lemma_assoc_map(self.kseq());
        }
        match self.find_key(base) {
            Some(pos) => {
                let (ix, rc) = self.keys[pos].1;
                if rc != 0 {
                    let _ = self.upsert_key(base.clone(), (ix, rc + 1));
                    let prev = self.upsert_key(alias_key, (ix, 0));
                    match prev {
                        Some(p) => Some(p.0),
                        None => None,
                    }
                } else {
                    None
                }
            },
            None => None,
        }
    }

    /// Collects every key other than `base` that resolves to slot `ix`, each
    /// exactly once; the ghost component gives each collected key's position
    /// in the key table.
    #[verifier::rlimit(30)]
    fn co_keys(&self, ix: Index, base: &String) -> (r: (Vec<String>, Ghost<Seq<int>>))
        requires
            self.wf(),
        ensures
            r.0@.len() == r.1@.len(),
            forall|j: int| 0 <= j < r.1@.len() ==> 0 <= #[trigger] r.1@[j] < self.kseq().len(),
            forall|j: int|
                0 <= j < r.1@.len() ==> (#[trigger] r.0@[j])@ == self.kseq()[r.1@[j]].0
                    && self.kseq()[r.1@[j]].1.0 == ix && self.kseq()[r.1@[j]].0 != base@,
            forall|j1: int, j2: int| 0 <= j1 < j2 < r.1@.len() ==> r.1@[j1] < r.1@[j2],
            forall|l: int|
                0 <= l < self.kseq().len() && (#[trigger] self.kseq()[l]).1.0 == ix
                    && self.kseq()[l].0 != base@ ==> r.1@.contains(l),
    {
        let ghost s = self.kseq();
        let n = self.keys.len();
        let mut removed: Vec<String> = Vec::new();
        let ghost mut posns: Seq<int> = Seq::empty();
        let mut i: usize = 0;
        while i < n
            invariant
                i <= n,
                n == s.len(),
                s == self.kseq(),
                distinct_keys(s),
                removed@.len() == posns.len(),
                forall|j: int| 0 <= j < posns.len() ==> 0 <= #[trigger] posns[j] < i,
                forall|j: int|
                    0 <= j < posns.len() ==> (#[trigger] removed@[j])@ == s[posns[j]].0
                        && s[posns[j]].1.0 == ix && s[posns[j]].0 != base@,
                forall|j1: int, j2: int| 0 <= j1 < j2 < posns.len() ==> posns[j1] < posns[j2],
                forall|l: int|
                    0 <= l < i && (#[trigger] s[l]).1.0 == ix && s[l].0 != base@
                        ==> posns.contains(l),
            decreases n - i,
        {
            let ghost p0 = posns;
            let co = self.keys[i].1.0 == ix && !(self.keys[i].0 == *base);
            proof {
                assert(s[i as int] == (self.keys@[i as int].0@, self.keys@[i as int].1));
            }
            if co {
                removed.push(self.keys[i].0.clone());
                proof {
                    posns = posns.push(i as int);
                    assert(removed@[posns.len() - 1]@ == s[i as int].0);
                    assert forall|l: int|
                        0 <= l < i + 1 && (#[trigger] s[l]).1.0 == ix && s[l].0 != base@
                            implies posns.contains(l) by {
                        if l < i {
                            let j = choose|j: int| 0 <= j < p0.len() && p0[j] == l;
                            assert(posns[j] == l);
                        } else {
                            assert(posns[posns.len() - 1] == l);
                        }
                    }
                }
            } else {
                proof {
                    assert forall|l: int|
                        0 <= l < i + 1 && (#[trigger] s[l]).1.0 == ix && s[l].0 != base@
                            implies posns.contains(l) by {
                        assert(l < i);
                    }
                }
            }
            i += 1;
        }
        (removed, Ghost(posns))
    }

    /// Removes every other key that currently resolves to the same slot as
    /// the canonical key `base` — its aliases, and any duplicate canonical
    /// claims — returning the removed keys. `base` itself is retained. A
    /// non-canonical `base` removes nothing. This is the one key operation
    /// that scans all keys: a deliberate linear-scan tradeoff.
    #[verifier::rlimit(40)]
    pub fn unalias(&mut self, base: &String) -> (r: Vec<String>)
        requires
            old(self).wf(),
        ensures
            final(self).wf(),
            old(self).spec_is_key(base@) ==> unalias_removed(
                *old(self),
                *final(self),
                base@,
                r@.map_values(|s: String| s@),
            ),
            !old(self).spec_is_key(base@) ==> *final(self) == *old(self) && r@.len() == 0,
    {
        proof {
            lemma_assoc_map(self.kseq());
        }
        let found = self.find_key(base);
        let pos = match found {
            Some(p) => p,
            None => {
                return Vec::new();
            },
        };
        if self.keys[pos].1.1 == 0 {
            return Vec::new();
        }
        let ix = self.keys[pos].1.0;
        let ghost s = self.kseq();
        let (removed, gp) = self.co_keys(ix, base);
        // `removed` now names exactly the co-referencing keys; drop each one.
        proof {
            assert forall|j: int|
                0 <= j < removed@.len() implies old(self).key_map().contains_key(
                (#[trigger] removed@[j])@,
            ) && old(self).key_map()[removed@[j]@].0 == ix && removed@[j]@ != base@ by {
                let l = gp@[j];
                assert(old(self).key_map()[s[l].0] == s[l].1);
            }
            assert forall|x: Seq<char>|
                old(self).key_map().contains_key(x) && (#[trigger] old(self).key_map()[x]).0 == ix
                    && x != base@ implies in_views(removed@, removed@.len() as int, x) by {
                let l = choose|l: int| 0 <= l < s.len() && (#[trigger] s[l]).0 == x;
                assert(old(self).key_map()[s[l].0] == s[l].1);
                assert(gp@.contains(l));
                let j = choose|j: int| 0 <= j < gp@.len() && gp@[j] == l;
                assert(0 <= j < removed@.len() && (#[trigger] removed@[j])@ == x);
            }
            assert forall|j1: int, j2: int|
                0 <= j1 < j2 < removed@.len() implies removed@[j1]@ != removed@[j2]@ by {
                assert(gp@[j1] < gp@[j2]);
                assert(s[gp@[j1]].0 != s[gp@[j2]].0);
            }
        }
        let m = removed.len();
        let mut j: usize = 0;
        while j < m
            invariant
                j <= m,
                m == removed@.len(),
                self.wf(),
                self.dseq() == old(self).dseq(),
                self.counter_spec() == old(self).counter_spec(),
                forall|jj: int|
                    0 <= jj < removed@.len() ==> old(self).key_map().contains_key(
                        (#[trigger] removed@[jj])@,
                    ) && old(self).key_map()[removed@[jj]@].0 == ix && removed@[jj]@ != base@,
                forall|x: Seq<char>|
                    old(self).key_map().contains_key(x) && (#[trigger] old(self).key_map()[x]).0
                        == ix && x != base@ ==> in_views(removed@, removed@.len() as int, x),
                forall|j1: int, j2: int|
                    0 <= j1 < j2 < removed@.len() ==> removed@[j1]@ != removed@[j2]@,
                forall|x: Seq<char>| #[trigger]
                    self.key_map().contains_key(x) <==> (old(self).key_map().contains_key(x)
                        && !in_views(removed@, j as int, x)),
                forall|x: Seq<char>| #[trigger]
                    self.key_map().contains_key(x) ==> self.key_map()[x] == old(self).key_map()[x],
            decreases m - j,
        {
            let kname = &removed[j];
            let _ = self.drop_key(kname);
            proof {
                assert forall|x: Seq<char>| #[trigger]
                    self.key_map().contains_key(x) <==> (old(self).key_map().contains_key(x)
                        && !in_views(removed@, j + 1, x)) by {
                    assert(in_views(removed@, j + 1, x) <==> (in_views(removed@, j as int, x)
                        || removed@[j as int]@ == x)) by {
                        if in_views(removed@, j + 1, x) {
                            let l = choose|l: int|
                                0 <= l < j + 1 && (#[trigger] removed@[l])@ == x;
                            if l < j {
                                assert(in_views(removed@, j as int, x));
                            }
                        }
                        if in_views(removed@, j as int, x) {
                            let l = choose|l: int|
                                0 <= l < j && (#[trigger] removed@[l])@ == x;
                            assert(0 <= l < j + 1 && removed@[l]@ == x);
                        }
                        if removed@[j as int]@ == x {
                            assert(0 <= j < j + 1 && (#[trigger] removed@[j as int])@ == x);
                        }
                    }
                }
            }
            j += 1;
        }
        proof {
            let rviews = removed@.map_values(|st: String| st@);
            let pre = *old(self);
            assert forall|x: Seq<char>| #[trigger]
                final(self).key_map().contains_key(x) <==> (pre.key_map().contains_key(x) && (
            pre.key_map()[x].0 != ix || x == base@)) by {
                if in_views(removed@, m as int, x) {
                    let l = choose|l: int| 0 <= l < m && (#[trigger] removed@[l])@ == x;
                }
            }
            assert(pre.key_map()[base@] == s[pos as int].1);
            assert forall|jj: int|
                0 <= jj < rviews.len() implies pre.key_map().contains_key(#[trigger] rviews[jj])
                && pre.key_map()[rviews[jj]].0 == ix && rviews[jj] != base@ by {
                assert(rviews[jj] == removed@[jj]@);
            }
            assert forall|x: Seq<char>|
                pre.key_map().contains_key(x) && (#[trigger] pre.key_map()[x]).0 == ix && x
                    != base@ implies rviews.contains(x) by {
                assert(in_views(removed@, removed@.len() as int, x));
                let l = choose|l: int|
                    0 <= l < removed@.len() && (#[trigger] removed@[l])@ == x;
                assert(rviews[l] == x);
            }
        }
        removed
    }

    /// Every binding as a `(key, index)` pair, in table order.
    pub fn keys_values(&self) -> (r: Vec<(String, Index)>)
        ensures
            r@.len() == self.kseq().len(),
            forall|j: int|
                0 <= j < r@.len() ==> (#[trigger] r@[j]).0@ == self.kseq()[j].0 && r@[j].1
                    == self.kseq()[j].1.0,
    {
        let n = self.keys.len();
        let mut out: Vec<(String, Index)> = Vec::with_capacity(n);
        let mut i: usize = 0;
        while i < n
            invariant
                i <= n,
                n == self.kseq().len(),
                out@.len() == i,
                forall|j: int|
                    0 <= j < i ==> (#[trigger] out@[j]).0@ == self.kseq()[j].0 && out@[j].1
                        == self.kseq()[j].1.0,
            decreases n - i,
        {
            out.push((self.keys[i].0.clone(), self.keys[i].1.0));
            i += 1;
        }
        out
    }

    /// Every occupied slot's index, in table order: the storage-side
    /// counterpart of [`Self::keys`].
    pub fn data_indices(&self) -> (r: Vec<Index>)
        ensures
            r@.len() == self.dseq().len(),
            forall|j: int| 0 <= j < r@.len() ==> r@[j] == (#[trigger] self.dseq()[j]).0,
    {
        let n = self.data.len();
        let mut out: Vec<Index> = Vec::with_capacity(n);
        let mut i: usize = 0;
        while i < n
            invariant
                i <= n,
                n == self.dseq().len(),
                out@.len() == i,
                forall|j: int| 0 <= j < i ==> out@[j] == (#[trigger] self.dseq()[j]).0,
            decreases n - i,
        {
            out.push(self.data[i].0);
            i += 1;
        }
        out
    }

    /// Every bound key, canonical keys and aliases alike, in table order.
    pub fn keys(&self) -> (r: Vec<String>)
        ensures
            r@.len() == self.kseq().len(),
            forall|j: int| 0 <= j < r@.len() ==> r@[j]@ == (#[trigger] self.kseq()[j]).0,
    {
        let n = self.keys.len();
        let mut out: Vec<String> = Vec::with_capacity(n);
        let mut i: usize = 0;
        while i < n
            invariant
                i <= n,
                n == self.kseq().len(),
                out@.len() == i,
                forall|j: int| 0 <= j < i ==> out@[j]@ == (#[trigger] self.kseq()[j]).0,
            decreases n - i,
        {
            out.push(self.keys[i].0.clone());
            i += 1;
        }
        out
    }
}

impl<V> Default for MultiMap<V> {
    /// An empty table.
    fn default() -> (r: Self)
        ensures
            r.wf(),
            r.key_map() == Map::<Seq<char>, (Index, usize)>::empty(),
            r.data_map() == Map::<Index, V>::empty(),
            r.counter_spec() == 0,
    {
        Self::with_capacity(0)
    }
}

/// One of the strings among the first `upto` entries of `rs` reads as `x`.
spec fn in_views(rs: Seq<String>, upto: int, x: Seq<char>) -> bool {
    exists|l: int| 0 <= l < upto && (#[trigger] rs[l])@ == x
}

/// What a successful `alias` call does: `base` was canonical; it keeps its
/// slot and gains one canonical claim, and `al` is bound as a pure alias of
/// that slot. Nothing else — storage, allocator, other keys — moves.
pub open spec fn alias_added<V>(
    pre: MultiMap<V>,
    post: MultiMap<V>,
    base: Seq<char>,
    al: Seq<char>,
) -> bool {
    &&& pre.spec_is_key(base)
    &&& post.key_map() == pre.key_map().insert(
        base,
        (pre.key_map()[base].0, (pre.key_map()[base].1 + 1) as usize),
    ).insert(al, (pre.key_map()[base].0, 0))
    &&& post.data_map() == pre.data_map()
    &&& post.counter_spec() == pre.counter_spec()
}

/// What a successful `unalias` call does: exactly the other keys resolving to
/// `base`'s slot disappear, each reported once in `removed`; every surviving
/// key keeps its binding; storage and allocator do not move.
pub open spec fn unalias_removed<V>(
    pre: MultiMap<V>,
    post: MultiMap<V>,
    base: Seq<char>,
    removed: Seq<Seq<char>>,
) -> bool {
    let ix = pre.key_map()[base].0;
    &&& pre.spec_is_key(base)
    &&& forall|x: Seq<char>| #[trigger]
        post.key_map().contains_key(x) <==> (pre.key_map().contains_key(x) && (pre.key_map()[x].0
            != ix || x == base))
    &&& forall|x: Seq<char>| #[trigger]
        post.key_map().contains_key(x) ==> post.key_map()[x] == pre.key_map()[x]
    &&& forall|j: int|
        0 <= j < removed.len() ==> pre.key_map().contains_key(#[trigger] removed[j])
            && pre.key_map()[removed[j]].0 == ix && removed[j] != base
    &&& forall|x: Seq<char>|
        pre.key_map().contains_key(x) && (#[trigger] pre.key_map()[x]).0 == ix && x != base
            ==> removed.contains(x)
    &&& forall|j1: int, j2: int| 0 <= j1 < j2 < removed.len() ==> removed[j1] != removed[j2]
    &&& post.data_map() == pre.data_map()
    &&& post.counter_spec() == pre.counter_spec()
}

/// A key is never both canonical and an alias, and it is neither exactly
/// when it is unknown to the table.
pub proof fn lemma_key_alias_exclusive<V>(m: MultiMap<V>, k: Seq<char>)
    ensures
        !(m.spec_is_key(k) && m.spec_is_alias(k)),
        (!m.spec_is_key(k) && !m.spec_is_alias(k)) <==> !m.key_map().contains_key(k),
{
}

/// Aliasing `a` and then `b` onto a canonical key `base` whose slot no other
/// key shares, then unaliasing `base`, removes exactly `a` and `b` — each
/// reported once — and leaves `base` canonical for its original slot, with
/// the stored data untouched.
pub proof fn lemma_alias_alias_unalias<V>(
    m0: MultiMap<V>,
    m1: MultiMap<V>,
    m2: MultiMap<V>,
    m3: MultiMap<V>,
    base: Seq<char>,
    a: Seq<char>,
    b: Seq<char>,
    removed: Seq<Seq<char>>,
)
    requires
        m0.spec_is_key(base),
        m0.key_map()[base].1 + 2 <= usize::MAX,
        a != base,
        b != base,
        a != b,
        !m0.key_map().contains_key(a),
        !m0.key_map().contains_key(b),
        forall|x: Seq<char>|
            m0.key_map().contains_key(x) && (#[trigger] m0.key_map()[x]).0 == m0.key_map()[base].0
                ==> x == base,
        alias_added(m0, m1, base, a),
        alias_added(m1, m2, base, b),
        unalias_removed(m2, m3, base, removed),
    ensures
        removed.contains(a),
        removed.contains(b),
        forall|j: int| 0 <= j < removed.len() ==> removed[j] == a || removed[j] == b,
        removed.len() == 2,
        m3.spec_is_key(base),
        m3.key_map()[base].0 == m0.key_map()[base].0,
        m3.key_map()[base].1 == m0.key_map()[base].1 + 2,
        !m3.key_map().contains_key(a),
        !m3.key_map().contains_key(b),
        m3.data_map() == m0.data_map(),
{
    let ix = m0.key_map()[base].0;
    let rc = m0.key_map()[base].1;
    assert(m3.key_map().contains_key(base));
    assert(m3.key_map()[base] == m2.key_map()[base]);
    assert(m1.key_map()[base] == (ix, (rc + 1) as usize));
    assert(m1.key_map()[a] == (ix, 0usize));
    assert(m2.key_map()[base] == (ix, (rc + 2) as usize));
    assert(m2.key_map()[a] == (ix, 0usize));
    assert(m2.key_map()[b] == (ix, 0usize));
    // `a` and `b` qualify for removal, so `unalias` reports them.
    assert(removed.contains(a));
    assert(removed.contains(b));
    // Nothing else qualifies: any removed key co-references `ix` in the
    // pre-unalias table, and apart from `a`, `b` and `base` every such key
    // already co-referenced it in the original table.
    assert forall|j: int| 0 <= j < removed.len() implies removed[j] == a || removed[j] == b by {
        let x = removed[j];
        if x != a && x != b {
            assert(m2.key_map()[x] == m0.key_map()[x]);
        }
    }
    // Two members, pairwise-distinct entries, every entry one of the two:
    // the report has length exactly 2.
    let ja = choose|j: int| 0 <= j < removed.len() && removed[j] == a;
    let jb = choose|j: int| 0 <= j < removed.len() && removed[j] == b;
    assert(removed.len() >= 2);
    if removed.len() > 2 {
        assert(removed[0] != removed[1] && removed[0] != removed[2] && removed[1] != removed[2]);
        assert(false);
    }
}

} // verus!
