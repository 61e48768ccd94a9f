//! A type-keyed heterogeneous store.
//!
//! The core is a slot table: an open-addressing hash table that maps a key
//! identity (a caller-chosen `u64` token, one per key) to a payload held in a
//! payload arena that only ever grows.  Directory growth rehashes the slots
//! but never moves a payload, so a payload position handed out by a lookup
//! stays valid across later insertions of other keys.
//!
//! On top of the slot table sits a lazy store: each key may carry an
//! initializer, described by a registered dependency list and a user-supplied
//! program, and the store memoizes the first computed value and detects
//! initialization cycles.

pub mod context;
pub mod entities;
pub mod hashmap;
pub mod plugins;
pub mod probe;
pub mod properties;
pub mod raw;
pub mod setting_ids;
pub mod setting_kinds;
pub mod vec_cell;

use vstd::prelude::*;

verus! {

/// A key type of the store.  One implementation stands for one key: its
/// identity token selects the slot, and `Value` records which payload variant
/// the key owns.  The store itself is addressed by the token, so two key
/// types must not share one.
pub trait Key {
    type Value;

    /// The identity token of this key type.
    fn identity(&self) -> u64;
}

/// The one recoverable failure of the slot table: the key already has a slot.
#[derive(Clone, Copy, Debug, PartialEq, Eq, Structural)]
pub enum StoreError {
    KeyAlreadyPresent,
}

} // verus!
