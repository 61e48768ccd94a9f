//! A slot store over the standard library's hash map.
//!
//! The same public contract as the hand-built slot table of `raw`, carried
//! by `std::collections::HashMap`: at most one value per key identity,
//! insert-if-absent, shared and exclusive lookup.

use crate::StoreError;
use std::collections::hash_map::Entry;
use std::collections::HashMap;
use vstd::prelude::*;
use vstd::std_specs::hash::OccupiedEntrySpecFns;

verus! {

broadcast use vstd::std_specs::hash::group_hash_axioms;

/// The backing map from key identities to values.
pub struct InnerContainer<V> {
    map: HashMap<u64, V>,
}

impl<V> View for InnerContainer<V> {
    type V = Map<u64, V>;

    /// What the container holds: each stored key identity and its value.
    closed spec fn view(&self) -> Map<u64, V> {
        self.map@
    }
}

impl<V> InnerContainer<V> {
    /// A fresh container: nothing stored.
    pub fn new() -> (r: InnerContainer<V>)
        ensures
            r@ == Map::<u64, V>::empty(),
    {
        InnerContainer { map: HashMap::new() }
    }

    /// Looks `key` up: a shared reference to its value when present,
    /// absence otherwise.
    pub fn get(&self, key: u64) -> (r: Option<&V>)
        ensures
            match r {
                Some(v) => self@.contains_key(key) && *v == self@[key],
                None => !self@.contains_key(key),
            },
    {
        self.map.get(&key)
    }

    /// Looks `key` up for writing: an exclusive reference to its value when
    /// present.  Only that key's value can change through the reference.
    pub fn get_mut(&mut self, key: u64) -> (r: Option<&mut V>)
        ensures
            r.is_some() == old(self)@.contains_key(key),
            r.is_some() ==> *r.unwrap() == old(self)@[key] && final(self)@ == old(self)@.insert(
                key,
                *final(r.unwrap()),
            ),
            r.is_none() ==> final(self)@ == old(self)@,
    {
        let ghost pre = self.map@;
        match self.map.entry(key) {
            Entry::Occupied(occupied) => Some(occupied.into_mut()),
            Entry::Vacant(_) => {
                proof {
                    assert(pre.remove(key) =~= pre);
                }
                None
            },
        }
    }

    /// The set of stored keys is finite.
    pub proof fn lemma_dom_finite(&self)
        ensures
            self@.dom().finite(),
    {
        vstd::std_specs::hash::axiom_hashmap_view_finite_dom(self.map);
    }

    /// Inserts `value` under `key` if the key is absent; a second insertion
    /// for the same key fails with `KeyAlreadyPresent` and the stored value
    /// stays the one from the first successful insert.
    pub fn try_insert(&mut self, key: u64, value: V) -> (r: Result<(), StoreError>)
        ensures
            match r {
                Ok(_) => {
                    &&& !old(self)@.contains_key(key)
                    &&& final(self)@ == old(self)@.insert(key, value)
                },
                Err(e) => {
                    &&& e == StoreError::KeyAlreadyPresent
                    &&& old(self)@.contains_key(key)
                    &&& final(self)@ == old(self)@
                },
            },
    {
        let ghost pre = self.map@;
        match self.map.entry(key) {
            Entry::Occupied(occupied) => {
                proof {
                    assert(pre.insert(key, occupied.value()) =~= pre);
                }
                Err(StoreError::KeyAlreadyPresent)
            },
            Entry::Vacant(vacant) => {
                vacant.insert(value);
                Ok(())
            },
        }
    }
}

/// The hash-map-backed store behind its public handle.
pub struct TypeContainer<V> {
    container: InnerContainer<V>,
}

impl<V> View for TypeContainer<V> {
    type V = Map<u64, V>;

    /// What the container holds: each stored key identity and its value.
    closed spec fn view(&self) -> Map<u64, V> {
        self.container@
    }
}

impl<V> TypeContainer<V> {
    /// A fresh container: every key reads as absent until its first
    /// insertion.
    pub fn new() -> (r: TypeContainer<V>)
        ensures
            r@ == Map::<u64, V>::empty(),
    {
        TypeContainer { container: InnerContainer::new() }
    }

    /// Inserts `value` under `key` if the key is absent; a second insertion
    /// for the same key fails with `KeyAlreadyPresent` and the stored value
    /// stays the one from the first successful insert.
    pub fn try_insert(&mut self, key: u64, value: V) -> (r: Result<(), StoreError>)
        ensures
            match r {
                Ok(_) => {
                    &&& !old(self)@.contains_key(key)
                    &&& final(self)@ == old(self)@.insert(key, value)
                },
                Err(e) => {
                    &&& e == StoreError::KeyAlreadyPresent
                    &&& old(self)@.contains_key(key)
                    &&& final(self)@ == old(self)@
                },
            },
    {
        self.container.try_insert(key, value)
    }

    /// Looks `key` up: a shared reference to its value when present,
    /// absence otherwise.
    pub fn get(&self, key: u64) -> (r: Option<&V>)
        ensures
            match r {
                Some(v) => self@.contains_key(key) && *v == self@[key],
                None => !self@.contains_key(key),
            },
    {
        self.container.get(key)
    }

    /// The set of stored keys is finite.
    pub proof fn lemma_dom_finite(&self)
        ensures
            self@.dom().finite(),
    {
        self.container.lemma_dom_finite();
    }

    /// Looks `key` up for writing: an exclusive reference to its value when
    /// present.  Only that key's value can change through the reference;
    /// unrelated keys are unaffected.
    pub fn get_mut(&mut self, key: u64) -> (r: Option<&mut V>)
        ensures
            r.is_some() == old(self)@.contains_key(key),
            r.is_some() ==> *r.unwrap() == old(self)@[key] && final(self)@ == old(self)@.insert(
                key,
                *final(r.unwrap()),
            ),
            r.is_none() ==> final(self)@ == old(self)@,
    {
        self.container.get_mut(key)
    }
}

} // verus!
