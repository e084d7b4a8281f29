//! The plain snapshot of a running entity that event conditions compare
//! against: its name, its tag and its remaining health.

use vstd::prelude::*;

verus! {

/// A point-in-time copy of a live entity's identity and health.
#[derive(Debug, Clone)]
pub struct SimpleEntity {
    pub name: String,
    pub tag: String,
    pub health: i32,
}

impl SimpleEntity {
    /// A snapshot built from its parts.
    pub fn new(name: String, tag: String, health: i32) -> (r: Self)
        ensures
            r.name@ == name@,
            r.tag@ == tag@,
            r.health == health,
    {
        Self { name, tag, health }
    }
}

} // verus!
