//! Setting kinds: a closed enumeration of the places a contact can happen,
//! with one wrapper variant per kind and conversions in both directions.

use vstd::prelude::*;

verus! {

/// A place where contacts happen.
pub trait Setting {
    /// How many contacts the setting yields.
    spec fn spec_contact(&self) -> usize;

    /// Reports the setting's contact count.
    fn get_contact(&self) -> (r: usize)
        ensures
            r == self.spec_contact(),
    ;
}

/// The household setting.
#[derive(Debug, Clone, Copy, PartialEq, Eq)]
pub struct Home;

/// The workplace setting.
#[derive(Debug, Clone, Copy, PartialEq, Eq)]
pub struct Work;

/// One value per setting kind.
#[derive(Debug, Clone, Copy, PartialEq, Eq)]
pub enum SettingEnum {
    Home(Home),
    Work(Work),
}

impl Home {
    /// How many rooms a household has.
    pub fn get_rooms(&self) -> (r: usize)
        ensures
            r == 2,
    {
        2
    }
}

impl Work {
    /// How many floors a workplace has.
    pub fn get_floors(&self) -> (r: usize)
        ensures
            r == 3,
    {
        3
    }
}

impl Setting for Home {
    open spec fn spec_contact(&self) -> usize {
        1
    }

    fn get_contact(&self) -> (r: usize) {
        1
    }
}

impl Setting for Work {
    open spec fn spec_contact(&self) -> usize {
        1
    }

    fn get_contact(&self) -> (r: usize) {
        1
    }
}

impl Setting for SettingEnum {
    open spec fn spec_contact(&self) -> usize {
        match self {
            SettingEnum::Home(home) => home.spec_contact(),
            SettingEnum::Work(work) => work.spec_contact(),
        }
    }

    fn get_contact(&self) -> (r: usize) {
        match self {
            SettingEnum::Home(home) => home.get_contact(),
            SettingEnum::Work(work) => work.get_contact(),
        }
    }
}

impl From<Home> for SettingEnum {
    /// Wraps a household in its enum variant.
    fn from(value: Home) -> (r: SettingEnum) {
        SettingEnum::Home(value)
    }
}

impl vstd::std_specs::convert::FromSpecImpl<Home> for SettingEnum {
    open spec fn obeys_from_spec() -> bool {
        true
    }

    open spec fn from_spec(v: Home) -> SettingEnum {
        SettingEnum::Home(v)
    }
}

impl From<Work> for SettingEnum {
    /// Wraps a workplace in its enum variant.
    fn from(value: Work) -> (r: SettingEnum) {
        SettingEnum::Work(value)
    }
}

impl vstd::std_specs::convert::FromSpecImpl<Work> for SettingEnum {
    open spec fn obeys_from_spec() -> bool {
        true
    }

    open spec fn from_spec(v: Work) -> SettingEnum {
        SettingEnum::Work(v)
    }
}

impl From<SettingEnum> for Home {
    /// Every setting value collapses to the one household token; the
    /// conversion is total.
    fn from(value: SettingEnum) -> (r: Home) {
        Home
    }
}

impl vstd::std_specs::convert::FromSpecImpl<SettingEnum> for Home {
    open spec fn obeys_from_spec() -> bool {
        true
    }

    open spec fn from_spec(v: SettingEnum) -> Home {
        Home
    }
}

impl From<SettingEnum> for Work {
    /// Every setting value collapses to the one workplace token; the
    /// conversion is total.
    fn from(value: SettingEnum) -> (r: Work) {
        Work
    }
}

impl vstd::std_specs::convert::FromSpecImpl<SettingEnum> for Work {
    open spec fn obeys_from_spec() -> bool {
        true
    }

    open spec fn from_spec(v: SettingEnum) -> Work {
        Work
    }
}

} // verus!
