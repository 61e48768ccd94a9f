//! Entities and their registered properties.
//!
//! An entity kind and a property each carry a key identity; the property
//! store keeps, for every registered (entity kind, property) pair, a
//! per-entity value vector together with the property's default.  An
//! entity whose value was never written reads as the default.

use std::collections::hash_map::Entry;
use std::collections::HashMap;
use vstd::arithmetic::div_mod::{
    lemma_fundamental_div_mod_converse_div, lemma_fundamental_div_mod_converse_mod,
};
use vstd::prelude::*;

verus! {

broadcast use vstd::std_specs::hash::group_hash_axioms;

/// Relies on `core::marker::PhantomData`'s `Clone`, which hands back the
/// phantom token itself; `PhantomData<T>` has exactly one value.
pub assume_specification<T: core::marker::PointeeSized>[ <core::marker::PhantomData<
    T,
> as Clone>::clone ](v: &core::marker::PhantomData<T>) -> (r: core::marker::PhantomData<T>)
    ensures
        r == *v,
;

/// A kind of entity.  Each implementation carries a key identity that
/// tells entity kinds apart at run time.
pub trait Entity {
    /// The identity token of this entity kind.
    spec fn spec_identity() -> u64;

    /// Reports the kind's identity token.
    fn identity() -> (r: u64)
        ensures
            r == Self::spec_identity(),
    ;
}

/// A reference to one entity of kind `T`, by numeric id.
#[derive(Debug, Clone, Copy, PartialEq, Eq)]
pub struct EntityId<T: Entity> {
    id: usize,
    _marker: core::marker::PhantomData<T>,
}

impl<T: Entity> EntityId<T> {
    /// The numeric id.
    pub closed spec fn spec_id(&self) -> usize {
        self.id
    }

    /// Wraps a numeric id.
    pub fn new(id: usize) -> (r: EntityId<T>)
        ensures
            r.spec_id() == id,
    {
        EntityId { id, _marker: core::marker::PhantomData }
    }

    /// Reports the numeric id.
    pub fn id(&self) -> (r: usize)
        ensures
            r == self.spec_id(),
    {
        self.id
    }
}

/// A property that entities of some kind carry.  Each implementation names
/// the value type, its own key identity, and the default an unwritten
/// entity reads as.
pub trait EntityProperty {
    type Value: Copy;

    /// The identity token of this property.
    spec fn spec_identity() -> u64;

    /// The value an entity holds before anything is written for it.
    spec fn spec_default() -> Self::Value;

    /// Reports the property's identity token.
    fn identity() -> (r: u64)
        ensures
            r == Self::spec_identity(),
    ;

    /// Builds the property's default value.
    fn default() -> (r: Self::Value)
        ensures
            r == Self::spec_default(),
    ;
}

/// One property's values across the entities of a kind: position `i` holds
/// entity `i`'s value, and entities beyond the end read the default.
pub struct PropertyVec<V> {
    values: Vec<V>,
    default_value: V,
}

impl<V: Copy> PropertyVec<V> {
    /// The explicitly written values.
    pub closed spec fn spec_values(&self) -> Seq<V> {
        self.values@
    }

    /// The value unwritten entities read as.
    pub closed spec fn spec_default(&self) -> V {
        self.default_value
    }

    /// The value entity `id` reads: written if it was, the default
    /// otherwise.
    pub open spec fn value_at(&self, id: int) -> V {
        if 0 <= id < self.spec_values().len() {
            self.spec_values()[id]
        } else {
            self.spec_default()
        }
    }

    /// A fresh property vector: every entity reads `default_value`.
    pub fn new(default_value: V) -> (r: PropertyVec<V>)
        ensures
            r.spec_values() == Seq::<V>::empty(),
            r.spec_default() == default_value,
    {
        PropertyVec { values: Vec::new(), default_value }
    }

    /// Reads entity `id`'s value.
    pub fn get(&self, id: usize) -> (r: V)
        ensures
            r == self.value_at(id as int),
    {
        if id < self.values.len() {
            self.values[id]
        } else {
            self.default_value
        }
    }

    /// Writes entity `id`'s value, leaving every other entity's reading as
    /// it was; the vector is padded with defaults up to `id` if needed.
    pub fn set(&mut self, id: usize, value: V)
        requires
            id < usize::MAX,
        ensures
            final(self).spec_default() == old(self).spec_default(),
            final(self).value_at(id as int) == value,
            forall|j: int| j != id ==> final(self).value_at(j) == old(self).value_at(j),
    {
        while self.values.len() <= id
            invariant
                id < usize::MAX,
                self.default_value == old(self).default_value,
                old(self).values@.len() <= self.values@.len(),
                self.values@.len() <= if old(self).values@.len() < id + 1 {
                    (id + 1) as int
                } else {
                    old(self).values@.len() as int
                },
                old(self).values@ == self.values@.take(old(self).values@.len() as int),
                forall|j: int|
                    old(self).values@.len() <= j < self.values@.len() ==> self.values@[j]
                        == self.default_value,
            decreases id + 1 - self.values.len(),
        {
            let d = self.default_value;
            self.values.push(d);
            proof {
                assert(old(self).values@ =~= self.values@.take(old(self).values@.len() as int));
            }
        }
        self.values[id] = value;
        proof {
            assert forall|j: int| j != id implies final(self).value_at(j) == old(self).value_at(
                j,
            ) by {
                if 0 <= j < old(self).values@.len() {
                    assert(old(self).values@[j] == self.values@.take(
                        old(self).values@.len() as int,
                    )[j]);
                }
            }
        }
    }
}

/// The packed store key of an (entity kind, property) pair.
pub open spec fn pair_key(entity_type: u64, property: u64) -> u128 {
    (entity_type * 0x1_0000_0000_0000_0000 + property) as u128
}

/// Packing is injective: distinct pairs get distinct store keys.
proof fn lemma_pair_key_injective(e1: u64, p1: u64, e2: u64, p2: u64)
    requires
        pair_key(e1, p1) == pair_key(e2, p2),
    ensures
        e1 == e2,
        p1 == p2,
{
    let m: int = 0x1_0000_0000_0000_0000;
    let k: int = pair_key(e1, p1) as int;
    assert(e1 * m + p1 == m * e1 + p1) by (nonlinear_arith);
    assert(e2 * m + p2 == m * e2 + p2) by (nonlinear_arith);
    lemma_fundamental_div_mod_converse_div(k, m, e1 as int, p1 as int);
    lemma_fundamental_div_mod_converse_mod(k, m, e1 as int, p1 as int);
    lemma_fundamental_div_mod_converse_div(k, m, e2 as int, p2 as int);
    lemma_fundamental_div_mod_converse_mod(k, m, e2 as int, p2 as int);
}

/// Packs an (entity kind, property) pair into its store key.
fn pair_key_exec(entity_type: u64, property: u64) -> (r: u128)
    ensures
        r == pair_key(entity_type, property),
{
    proof {
        assert((entity_type as int) * 0x1_0000_0000_0000_0000 + (property as int)
            < 0x1_0000_0000_0000_0000_0000_0000_0000_0000int) by (nonlinear_arith)
            requires
                entity_type <= 0xFFFF_FFFF_FFFF_FFFFu64,
                property <= 0xFFFF_FFFF_FFFF_FFFFu64,
        ;
    }
    (entity_type as u128) * 0x1_0000_0000_0000_0000 + (property as u128)
}

/// The property store: per-entity values for every registered
/// (entity kind, property) pair.
pub struct Context<V> {
    entity_property_store: HashMap<u128, PropertyVec<V>>,
}

impl<V: Copy> Context<V> {
    /// Whether the (entity kind, property) pair has been registered.
    pub closed spec fn registered(&self, entity_type: u64, property: u64) -> bool {
        self.entity_property_store@.contains_key(pair_key(entity_type, property))
    }

    /// The written values of a registered pair.
    pub closed spec fn property_values(&self, entity_type: u64, property: u64) -> Seq<V> {
        self.entity_property_store@[pair_key(entity_type, property)].spec_values()
    }

    /// The default of a registered pair.
    pub closed spec fn property_default(&self, entity_type: u64, property: u64) -> V {
        self.entity_property_store@[pair_key(entity_type, property)].spec_default()
    }

    /// What entity `id` reads for a registered pair.
    pub open spec fn property_value(&self, entity_type: u64, property: u64, id: int) -> V {
        if 0 <= id < self.property_values(entity_type, property).len() {
            self.property_values(entity_type, property)[id]
        } else {
            self.property_default(entity_type, property)
        }
    }

    /// A fresh store with no property registered.
    pub fn new() -> (r: Context<V>)
        ensures
            forall|e: u64, p: u64| !(#[trigger] r.registered(e, p)),
    {
        Context { entity_property_store: HashMap::new() }
    }

    /// Registers property `P` for entities of kind `E`, with `P`'s default;
    /// registering an already-registered pair changes nothing.
    pub fn register_property<E: Entity, P: EntityProperty<Value = V>>(&mut self)
        ensures
            final(self).registered(E::spec_identity(), P::spec_identity()),
            !old(self).registered(E::spec_identity(), P::spec_identity()) ==> final(self).property_values(E::spec_identity(), P::spec_identity()) == Seq::<V>::empty()
                && final(self).property_default(E::spec_identity(), P::spec_identity())
                == P::spec_default(),
            old(self).registered(E::spec_identity(), P::spec_identity()) ==> final(self).property_values(E::spec_identity(), P::spec_identity()) == old(self).property_values(E::spec_identity(), P::spec_identity()) && final(self).property_default(E::spec_identity(), P::spec_identity()) == old(self).property_default(E::spec_identity(), P::spec_identity()),
            forall|e2: u64, p2: u64|
                !(e2 == E::spec_identity() && p2 == P::spec_identity()) ==> (#[trigger] final(self).registered(e2, p2)) == old(self).registered(e2, p2) && (old(self).registered(
                    e2,
                    p2,
                ) ==> final(self).property_values(e2, p2) == old(self).property_values(e2, p2)
                    && final(self).property_default(e2, p2) == old(self).property_default(
                    e2,
                    p2,
                )),
    {
        let e = E::identity();
        let p = P::identity();
        let k = pair_key_exec(e, p);
        if !self.entity_property_store.contains_key(&k) {
            let d = P::default();
            self.entity_property_store.insert(k, PropertyVec::new(d));
        }
        proof {
            assert forall|e2: u64, p2: u64| !(e2 == E::spec_identity() && p2
                == P::spec_identity()) implies #[trigger] pair_key(e2, p2) != pair_key(
                E::spec_identity(),
                P::spec_identity(),
            ) by {
                if pair_key(e2, p2) == pair_key(E::spec_identity(), P::spec_identity()) {
                    lemma_pair_key_injective(e2, p2, E::spec_identity(), P::spec_identity());
                }
            }
        }
    }

    /// Whether property `P` is registered for the entity kind given by its
    /// identity token.
    pub fn has_property<P: EntityProperty<Value = V>>(&self, entity_type_id: u64) -> (r: bool)
        ensures
            r == self.registered(entity_type_id, P::spec_identity()),
    {
        let k = pair_key_exec(entity_type_id, P::identity());
        self.entity_property_store.contains_key(&k)
    }

    /// Reads entity `id`'s value of property `P` for a registered entity
    /// kind given by its identity token.
    pub fn get_property_by_type_id<P: EntityProperty<Value = V>>(
        &self,
        entity_type_id: u64,
        id: usize,
    ) -> (r: V)
        requires
            self.registered(entity_type_id, P::spec_identity()),
        ensures
            r == self.property_value(entity_type_id, P::spec_identity(), id as int),
    {
        let k = pair_key_exec(entity_type_id, P::identity());
        match self.entity_property_store.get(&k) {
            Some(pv) => pv.get(id),
            None => vstd::pervasive::unreached(),
        }
    }

    /// Reads entity `id`'s value of property `P`.
    pub fn get_property<E: Entity, P: EntityProperty<Value = V>>(&self, id: EntityId<E>) -> (r: V)
        requires
            self.registered(E::spec_identity(), P::spec_identity()),
        ensures
            r == self.property_value(E::spec_identity(), P::spec_identity(), id.spec_id() as int),
    {
        let entity_type_id = E::identity();
        self.get_property_by_type_id::<P>(entity_type_id, id.id())
    }

    /// Writes entity `id`'s value of property `P` for an entity kind given
    /// by its identity token, registering the pair with `P`'s default if it
    /// was absent.  Other entities' readings, and other pairs, stay as they
    /// were.
    pub fn set_property_by_type_id<P: EntityProperty<Value = V>>(
        &mut self,
        entity_type_id: u64,
        id: usize,
        value: V,
    )
        requires
            id < usize::MAX,
        ensures
            final(self).registered(entity_type_id, P::spec_identity()),
            final(self).property_value(entity_type_id, P::spec_identity(), id as int) == value,
            forall|j: int|
                j != id ==> final(self).property_value(entity_type_id, P::spec_identity(), j)
                    == if old(self).registered(entity_type_id, P::spec_identity()) {
                    old(self).property_value(entity_type_id, P::spec_identity(), j)
                } else {
                    P::spec_default()
                },
            final(self).property_default(entity_type_id, P::spec_identity()) == if old(self).registered(entity_type_id, P::spec_identity()) {
                old(self).property_default(entity_type_id, P::spec_identity())
            } else {
                P::spec_default()
            },
            forall|e2: u64, p2: u64|
                !(e2 == entity_type_id && p2 == P::spec_identity()) ==> (#[trigger] final(self).registered(e2, p2)) == old(self).registered(e2, p2) && (old(self).registered(
                    e2,
                    p2,
                ) ==> final(self).property_values(e2, p2) == old(self).property_values(e2, p2)
                    && final(self).property_default(e2, p2) == old(self).property_default(
                    e2,
                    p2,
                )),
    {
        let p = P::identity();
        let k = pair_key_exec(entity_type_id, p);
        let ghost kk = pair_key(entity_type_id, P::spec_identity());
        if !self.entity_property_store.contains_key(&k) {
            let d = P::default();
            self.entity_property_store.insert(k, PropertyVec::new(d));
        }
        let ghost mid = self.entity_property_store@;
        match self.entity_property_store.entry(k) {
            Entry::Occupied(occupied) => {
                let pv = occupied.into_mut();
                pv.set(id, value);
            },
            Entry::Vacant(_) => {
                proof {
                    assert(false);
                }
            },
        }
        proof {
            assert forall|j: int|
                j != id implies self.property_value(entity_type_id, P::spec_identity(), j) == (
            if old(self).registered(entity_type_id, P::spec_identity()) {
                old(self).property_value(entity_type_id, P::spec_identity(), j)
            } else {
                P::spec_default()
            }) by {
                assert(self.entity_property_store@[kk].value_at(j) == mid[kk].value_at(j));
            }
        }
        proof {
            assert forall|e2: u64, p2: u64| !(e2 == entity_type_id && p2
                == P::spec_identity()) implies #[trigger] pair_key(e2, p2) != pair_key(
                entity_type_id,
                P::spec_identity(),
            ) by {
                if pair_key(e2, p2) == pair_key(entity_type_id, P::spec_identity()) {
                    lemma_pair_key_injective(e2, p2, entity_type_id, P::spec_identity());
                }
            }
        }
    }

    /// Writes entity `id`'s value of property `P`.
    pub fn set_property<E: Entity, P: EntityProperty<Value = V>>(
        &mut self,
        id: EntityId<E>,
        value: V,
    )
        requires
            id.spec_id() < usize::MAX,
        ensures
            final(self).registered(E::spec_identity(), P::spec_identity()),
            final(self).property_value(
                E::spec_identity(),
                P::spec_identity(),
                id.spec_id() as int,
            ) == value,
    {
        let entity_type_id = E::identity();
        self.set_property_by_type_id::<P>(entity_type_id, id.id(), value);
    }
}

/// A person entity.
pub struct Person;

impl Entity for Person {
    open spec fn spec_identity() -> u64 {
        101
    }

    fn identity() -> (r: u64) {
        101
    }
}

/// A person's id.
pub type PersonId = EntityId<Person>;

/// The entity kind that stands for settings.
#[derive(Debug, Clone, Copy)]
pub struct SettingEntity;

impl Entity for SettingEntity {
    open spec fn spec_identity() -> u64 {
        100
    }

    fn identity() -> (r: u64) {
        100
    }
}

/// A kind of setting, with a printable name.
pub trait SettingType {
    /// The kind's name.
    fn name(&self) -> &'static str;
}

impl SettingType for crate::setting_kinds::SettingEnum {
    fn name(&self) -> &'static str {
        match self {
            crate::setting_kinds::SettingEnum::Home(_) => "Home",
            crate::setting_kinds::SettingEnum::Work(_) => "Work",
        }
    }
}

/// A setting of kind `T`: the kind value itself and the setting entity's
/// id.
pub struct SettingId<T: SettingType> {
    setting_type: T,
    entity_id: EntityId<SettingEntity>,
}

impl<T: SettingType> SettingId<T> {
    /// The underlying setting entity's id.
    pub closed spec fn spec_entity_id(&self) -> EntityId<SettingEntity> {
        self.entity_id
    }

    /// Pairs a setting kind with a setting entity id.
    pub fn new(setting_type: T, id: usize) -> (r: SettingId<T>)
        ensures
            r.spec_entity_id().spec_id() == id,
    {
        SettingId { setting_type, entity_id: EntityId::new(id) }
    }

    /// The setting's entity id.
    pub fn entity_id(&self) -> (r: EntityId<SettingEntity>)
        ensures
            r == self.spec_entity_id(),
    {
        self.entity_id
    }

    /// The setting's numeric id.
    pub fn get_id(&self) -> (r: usize)
        ensures
            r == self.spec_entity_id().spec_id(),
    {
        self.entity_id.id()
    }
}

/// A property that setting entities carry.
pub trait SettingProperty: EntityProperty {}

/// The transmission scaling property of a setting, as a plain count.
pub struct Alpha;

impl EntityProperty for Alpha {
    type Value = u64;

    open spec fn spec_identity() -> u64 {
        200
    }

    open spec fn spec_default() -> u64 {
        1
    }

    fn identity() -> (r: u64) {
        200
    }

    fn default() -> (r: u64) {
        1
    }
}

impl SettingProperty for Alpha {}

/// Registers the setting-level properties the settings layer reads.
pub fn init_settings(context: &mut Context<u64>)
    ensures
        final(context).registered(SettingEntity::spec_identity(), Alpha::spec_identity()),
{
    context.register_property::<SettingEntity, Alpha>()
}

} // verus!
