//! A keyed table of slot numbers, backed by a sharded concurrent hash map.
//!
//! The tables of this crate keep their values in a `Vec` and find them again
//! through a `SlotMap`, which maps a 64-bit key to the position of its value.
//! A table is filled through `&mut` access and is only read once it is shared,
//! so the mapping a `SlotMap` holds is a plain mathematical map.

use dashmap::DashMap;
use std::collections::hash_map::RandomState;
use vstd::prelude::*;

verus! {

/// The sharded concurrent hash map of the `dashmap` crate. Opaque to the
/// verifier: what it holds is named by [`dash_entries`].
#[verifier::external_type_specification]
#[verifier::external_body]
#[verifier::reject_recursive_types(K)]
#[verifier::reject_recursive_types(V)]
#[verifier::reject_recursive_types(S)]
pub struct ExDashMap<K, V, S>(DashMap<K, V, S>);

/// The key-value pairs that a `DashMap<u64, usize>` holds.
pub uninterp spec fn dash_entries(m: DashMap<u64, usize, RandomState>) -> Map<u64, usize>;

/// `DashMap::new`: a map with the default hasher that holds no entry.
#[verifier::external_body]
fn dash_new() -> (fresh: DashMap<u64, usize, RandomState>)
    ensures
        dash_entries(fresh) == (Map::<u64, usize>::empty()),
{
    DashMap::new()
}

/// `DashMap::insert`: binds `key` to `value`, replacing an earlier binding of
/// `key`, leaves every other key as it was, and returns the value that `key`
/// was bound to before, if any.
#[verifier::external_body]
fn dash_insert(m: &mut DashMap<u64, usize, RandomState>, key: u64, value: usize) -> (prev: Option<
    usize,
>)
    ensures
        dash_entries(*final(m)) == dash_entries(*old(m)).insert(key, value),
        prev == (if dash_entries(*old(m)).contains_key(key) {
            Some(dash_entries(*old(m))[key])
        } else {
            None
        }),
{
    m.insert(key, value)
}

/// `DashMap::get`: the value bound to `key`, copied out of the guard that the
/// map hands back, or `None` where `key` is unbound.
#[verifier::external_body]
fn dash_get(m: &DashMap<u64, usize, RandomState>, key: u64) -> (found: Option<usize>)
    ensures
        found == (if dash_entries(*m).contains_key(key) {
            Some(dash_entries(*m)[key])
        } else {
            None
        }),
{
    match m.get(&key) {
        Some(entry) => Some(*entry.value()),
        None => None,
    }
}

/// A map from 64-bit keys to slot numbers.
pub struct SlotMap {
    inner: DashMap<u64, usize, RandomState>,
}

impl View for SlotMap {
    type V = Map<u64, usize>;

    closed spec fn view(&self) -> Map<u64, usize> {
        dash_entries(self.inner)
    }
}

impl SlotMap {
    /// An empty map.
    pub fn new() -> (m: SlotMap)
        ensures
            m@ == (Map::<u64, usize>::empty()),
    {
        SlotMap { inner: dash_new() }
    }

    /// Binds `key` to `slot` and returns the slot it was bound to before.
    pub fn insert(&mut self, key: u64, slot: usize) -> (prev: Option<usize>)
        ensures
            final(self)@ == old(self)@.insert(key, slot),
            prev == (if old(self)@.contains_key(key) {
                Some(old(self)@[key])
            } else {
                None
            }),
    {
        dash_insert(&mut self.inner, key, slot)
    }

    /// The slot bound to `key`, if any.
    pub fn get(&self, key: u64) -> (found: Option<usize>)
        ensures
            found == (if self@.contains_key(key) {
                Some(self@[key])
            } else {
                None
            }),
    {
        dash_get(&self.inner, key)
    }
}

} // verus!
