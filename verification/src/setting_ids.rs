//! Identifier types for people and settings: a numeric id per person, and a
//! per-kind setting id whose kind is carried in the type and recoverable as
//! a key identity.

use vstd::prelude::*;

verus! {

/// A person in the population.
pub struct Person;

/// A person's numeric identifier.
#[derive(Debug, Clone, Copy, PartialEq, Eq)]
pub struct PersonId {
    pub id: usize,
}

impl PersonId {
    /// Wraps a numeric id.
    pub fn new(id: usize) -> (r: PersonId)
        ensures
            r.id == id,
    {
        PersonId { id }
    }
}

/// A kind of setting.  Each implementation carries a key identity that
/// tells the kinds apart at run time.
pub trait SettingType {
    /// The identity token of this setting kind.
    spec fn spec_identity() -> u64;

    /// Reports the kind's identity token.
    fn identity() -> (r: u64)
        ensures
            r == Self::spec_identity(),
    ;
}

/// A setting of kind `T`, addressed by a numeric id.
pub struct SettingId<T: SettingType> {
    pub id: usize,
    _phantom: core::marker::PhantomData<T>,
}

impl<T: SettingType> SettingId<T> {
    /// The numeric id.
    pub closed spec fn spec_numeric_id(&self) -> usize {
        self.id
    }

    /// Wraps a numeric id for a setting of kind `T`.
    pub fn new(id: usize) -> (r: SettingId<T>)
        ensures
            r.spec_numeric_id() == id,
    {
        SettingId { id, _phantom: core::marker::PhantomData }
    }

    /// Reports the numeric id.
    pub fn id(&self) -> (r: usize)
        ensures
            r == self.spec_numeric_id(),
    {
        self.id
    }
}

/// The household setting kind.
pub struct Home;

impl SettingType for Home {
    open spec fn spec_identity() -> u64 {
        301
    }

    fn identity() -> (r: u64) {
        301
    }
}

/// A household's setting id.
pub type HomeId = SettingId<Home>;

/// The workplace setting kind.
pub struct Work;

impl SettingType for Work {
    open spec fn spec_identity() -> u64 {
        302
    }

    fn identity() -> (r: u64) {
        302
    }
}

/// A workplace's setting id.
pub type WorkId = SettingId<Work>;

/// A setting id of any kind: its numeric id and its kind's identity token.
pub trait AnySettingId {
    /// The numeric id.
    spec fn spec_id(&self) -> usize;

    /// The kind's identity token.
    spec fn spec_type_id(&self) -> u64;

    /// Reports the numeric id.
    fn id(&self) -> (r: usize)
        ensures
            r == self.spec_id(),
    ;

    /// Reports the kind's identity token.
    fn type_id(&self) -> (r: u64)
        ensures
            r == self.spec_type_id(),
    ;
}

impl<T: SettingType> AnySettingId for SettingId<T> {
    open spec fn spec_id(&self) -> usize {
        self.spec_numeric_id()
    }

    open spec fn spec_type_id(&self) -> u64 {
        T::spec_identity()
    }

    fn id(&self) -> (r: usize) {
        self.id
    }

    fn type_id(&self) -> (r: u64) {
        T::identity()
    }
}

} // verus!
