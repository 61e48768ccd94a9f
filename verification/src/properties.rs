//! Typed properties: a property names the type of value it carries, so a
//! caller can only hand a store the kind of value the property expects.

use vstd::prelude::*;

verus! {

/// A property of a person or place; `Value` is what the property stores.
pub trait Property {
    type Value: Copy;
}

} // verus!
