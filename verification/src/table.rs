//! Keyed tables.
//!
//! A `Table` keeps its values in the order in which their keys first came and
//! finds a value by its key through a [`SlotMap`]. A key is bound at most
//! once: inserting under a bound key replaces the value in place.

use crate::slot_map::SlotMap;
use vstd::prelude::*;

verus! {

/// A table from 64-bit keys to values of type `T`.
pub struct Table<T> {
    keys: Vec<u64>,
    values: Vec<T>,
    slot_of: SlotMap,
}

/// In a sequence without duplicates, an element is found where it stands.
pub proof fn lemma_index_of_unique<A>(s: Seq<A>, i: int)
    requires
        s.no_duplicates(),
        0 <= i < s.len(),
    ensures
        s.index_of(s[i]) == i,
{
    let j = s.index_of(s[i]);
    assert(s.contains(s[i]));
    assert(0 <= j < s.len() && s[j] == s[i]);
}

impl<T> Table<T> {
    /// The bound keys, in the order in which they were first bound.
    pub closed spec fn keys(&self) -> Seq<u64> {
        self.keys@
    }

    /// The values, each at the position of its key in `keys()`.
    pub closed spec fn values(&self) -> Seq<T> {
        self.values@
    }

    /// The table is consistent: every key stands once, beside its value, and
    /// the slot map knows where.
    pub closed spec fn wf(&self) -> bool {
        &&& self.keys@.len() == self.values@.len()
        &&& self.keys@.no_duplicates()
        &&& forall|k: u64| #[trigger]
            self.slot_of@.contains_key(k) ==> self.slot_of@[k] < self.keys@.len()
                && self.keys@[self.slot_of@[k] as int] == k
        &&& forall|i: int|
            0 <= i < self.keys@.len() ==> self.slot_of@.contains_key(#[trigger] self.keys@[i])
                && self.slot_of@[self.keys@[i]] == i
    }

    /// What a consistent table guarantees of its keys and values.
    pub proof fn lemma_wf(&self)
        requires
            self.wf(),
        ensures
            self.keys().len() == self.values().len(),
            self.keys().no_duplicates(),
    {
    }

    /// The binding of keys to values.
    pub open spec fn bindings(&self) -> Map<u64, T> {
        Map::new(
            |k: u64| self.keys().contains(k),
            |k: u64| self.values()[self.keys().index_of(k)],
        )
    }

    /// An empty table.
    pub fn new() -> (t: Table<T>)
        ensures
            t.wf(),
            t.keys() == Seq::<u64>::empty(),
            t.values() == Seq::<T>::empty(),
    {
        Table { keys: Vec::new(), values: Vec::new(), slot_of: SlotMap::new() }
    }

    /// The number of bound keys.
    pub fn len(&self) -> (n: usize)
        requires
            self.wf(),
        ensures
            n == self.keys().len(),
            n == self.values().len(),
    {
        self.keys.len()
    }

    /// The position of `key` among the keys, if it is bound.
    pub fn slot(&self, key: u64) -> (found: Option<usize>)
        requires
            self.wf(),
        ensures
            found is Some <==> self.keys().contains(key),
            found matches Some(i) ==> i < self.keys().len() && self.keys()[i as int] == key
                && self.keys().index_of(key) == i,
    {
        let found = self.slot_of.get(key);
        proof {
            match found {
                Some(i) => {
                    lemma_index_of_unique(self.keys@, i as int);
                },
                None => {
                    if self.keys@.contains(key) {
                        let i = self.keys@.index_of(key);
                        assert(self.keys@[i] == key);
                    }
                },
            }
        }
        found
    }

    /// The key at position `i`.
    pub fn key_at(&self, i: usize) -> (k: u64)
        requires
            self.wf(),
            i < self.keys().len(),
        ensures
            k == self.keys()[i as int],
    {
        self.keys[i]
    }

    /// The value at position `i`.
    pub fn value_at(&self, i: usize) -> (v: &T)
        requires
            self.wf(),
            i < self.values().len(),
        ensures
            *v == self.values()[i as int],
    {
        &self.values[i]
    }

    /// The value at position `i`, for the caller to change. The keys stay as
    /// they are, and so does every other value.
    pub fn value_at_mut(&mut self, i: usize) -> (v: &mut T)
        requires
            old(self).wf(),
            i < old(self).values().len(),
        ensures
            *v == old(self).values()[i as int],
            final(self).wf(),
            final(self).keys() == old(self).keys(),
            final(self).values() == old(self).values().update(i as int, *final(v)),
    {
        &mut self.values[i]
    }

    /// The value bound to `key`, if any.
    pub fn get(&self, key: u64) -> (v: Option<&T>)
        requires
            self.wf(),
        ensures
            v is Some <==> self.keys().contains(key),
            v matches Some(x) ==> *x == self.values()[self.keys().index_of(key)],
            v matches Some(x) ==> self.bindings().contains_key(key) && self.bindings()[key] == *x,
            v is None ==> !self.bindings().contains_key(key),
    {
        match self.slot(key) {
            Some(i) => Some(&self.values[i]),
            None => None,
        }
    }

    /// Binds `key` to `value`. A key that was bound keeps its position and
    /// gets the new value; a new key goes to the end.
    pub fn insert(&mut self, key: u64, value: T)
        requires
            old(self).wf(),
        ensures
            final(self).wf(),
            old(self).keys().contains(key) ==> final(self).keys() == old(self).keys()
                && final(self).values() == old(self).values().update(
                old(self).keys().index_of(key),
                value,
            ),
            !old(self).keys().contains(key) ==> final(self).keys() == old(self).keys().push(key)
                && final(self).values() == old(self).values().push(value),
            final(self).bindings() == old(self).bindings().insert(key, value),
    {
        let ghost before = *self;
        match self.slot(key) {
            Some(i) => {
                self.values[i] = value;
                proof {
                    assert(self.keys@ == before.keys@);
                    assert forall|k: u64|
                        self.bindings().contains_key(k) implies #[trigger] self.bindings()[k]
                        == before.bindings().insert(key, value)[k] by {
                        let j = self.keys@.index_of(k);
                        assert(self.keys@[j] == k);
                    }
                    assert(self.bindings() =~= before.bindings().insert(key, value));
                }
            },
            None => {
                let slot = self.keys.len();
                self.keys.push(key);
                self.values.push(value);
                self.slot_of.insert(key, slot);
                proof {
                    assert(self.keys@ == before.keys@.push(key));
                    assert forall|i: int, j: int|
                        0 <= i < self.keys@.len() && 0 <= j < self.keys@.len() && i != j implies self.keys@[i]
                        != self.keys@[j] by {
                        if i < slot && j < slot {
                            assert(before.keys@[i] != before.keys@[j]);
                        } else if i < slot {
                            assert(before.keys@.contains(before.keys@[i]));
                        } else {
                            assert(before.keys@.contains(before.keys@[j]));
                        }
                    }
                    assert forall|k: u64| #[trigger]
                        self.slot_of@.contains_key(k) implies self.slot_of@[k] < self.keys@.len()
                        && self.keys@[self.slot_of@[k] as int] == k by {
                        if k != key {
                            assert(before.slot_of@.contains_key(k));
                        }
                    }
                    assert forall|i: int| 0 <= i < self.keys@.len() implies self.slot_of@.contains_key(
                        #[trigger] self.keys@[i],
                    ) && self.slot_of@[self.keys@[i]] == i by {
                        if i < slot {
                            assert(before.slot_of@.contains_key(before.keys@[i]));
                            assert(before.keys@.contains(before.keys@[i]));
                        }
                    }
                    assert forall|k: u64| self.bindings().contains_key(k) == before.bindings().insert(
                        key,
                        value,
                    ).contains_key(k) by {
                        if before.keys@.contains(k) {
                            let j = before.keys@.index_of(k);
                            assert(self.keys@[j] == k);
                        }
                        if self.keys@.contains(k) && k != key {
                            let j = self.keys@.index_of(k);
                            assert(before.keys@[j] == k);
                        }
                        if k == key {
                            assert(self.keys@[slot as int] == key);
                        }
                    }
                    assert forall|k: u64|
                        self.bindings().contains_key(k) implies #[trigger] self.bindings()[k]
                        == before.bindings().insert(key, value)[k] by {
                        let j = self.keys@.index_of(k);
                        assert(self.keys@[j] == k);
                        if k == key {
                            lemma_index_of_unique(self.keys@, slot as int);
                        } else {
                            lemma_index_of_unique(before.keys@, j);
                        }
                    }
                    assert(self.bindings() =~= before.bindings().insert(key, value));
                }
            },
        }
    }
}

} // verus!
