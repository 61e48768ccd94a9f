//! Default-on-first-write plugins over the slot store: each plugin names a
//! key identity and a starting value, and the context hands out that
//! plugin's data, creating it from the default on the first exclusive
//! access.

use crate::hashmap::TypeContainer;
use vstd::prelude::*;

verus! {

/// A plugin: a key identity together with the value its data container
/// starts from.
pub trait Plugin {
    type DataContainer;

    /// The plugin's key identity.
    spec fn spec_identity() -> u64;

    /// The data the plugin starts with.
    spec fn spec_default() -> Self::DataContainer;

    /// Reports the plugin's key identity.
    fn identity() -> (r: u64)
        ensures
            r == Self::spec_identity(),
    ;

    /// Builds the plugin's starting data.
    fn default() -> (r: Self::DataContainer)
        ensures
            r == Self::spec_default(),
    ;
}

/// A plugin whose data is one boolean, off at first.
pub struct BoolPlugin;

impl Plugin for BoolPlugin {
    type DataContainer = bool;

    open spec fn spec_identity() -> u64 {
        1
    }

    open spec fn spec_default() -> bool {
        false
    }

    fn identity() -> (r: u64) {
        1
    }

    fn default() -> (r: bool) {
        false
    }
}

/// A plugin whose data is one number, zero at first.
pub struct NumberPlugin;

impl Plugin for NumberPlugin {
    type DataContainer = u32;

    open spec fn spec_identity() -> u64 {
        2
    }

    open spec fn spec_default() -> u32 {
        0
    }

    fn identity() -> (r: u64) {
        2
    }

    fn default() -> (r: u32) {
        0
    }
}

/// Plugin data, one value per key identity.
pub struct BaseContext<V> {
    data_containers: TypeContainer<V>,
}

impl<V> View for BaseContext<V> {
    type V = Map<u64, V>;

    /// Each plugin's stored data, by key identity.
    closed spec fn view(&self) -> Map<u64, V> {
        self.data_containers@
    }
}

impl<V> BaseContext<V> {
    /// A fresh context: no plugin has data yet.
    pub fn new() -> (r: BaseContext<V>)
        ensures
            r@ == Map::<u64, V>::empty(),
    {
        BaseContext { data_containers: TypeContainer::new() }
    }

    /// A shared reference to a plugin's data, which must exist already.
    pub fn plugin_data(&self, key: u64) -> (r: &V)
        requires
            self@.contains_key(key),
        ensures
            *r == self@[key],
    {
        match self.data_containers.get(key) {
            Some(v) => v,
            None => vstd::pervasive::unreached(),
        }
    }

    /// An exclusive reference to a plugin's data, created from
    /// `default_value` on the first access: look up, and only if absent,
    /// insert once and look up again.
    pub fn plugin_data_mut(&mut self, key: u64, default_value: V) -> (r: &mut V)
        ensures
            *r == if old(self)@.contains_key(key) {
                old(self)@[key]
            } else {
                default_value
            },
            final(self)@ == old(self)@.insert(key, *final(r)),
    {
        if self.data_containers.get(key).is_none() {
            let inserted = self.data_containers.try_insert(key, default_value);
            proof {
                assert(inserted is Ok);
            }
        }
        match self.data_containers.get_mut(key) {
            Some(m) => m,
            None => vstd::pervasive::unreached(),
        }
    }
}

} // verus!
