//! Identifier newtypes. Each is a plain `u64` with value semantics.

use vstd::prelude::*;

verus! {

/// Identifies a simulated person.
#[derive(Debug, Clone, Copy, PartialEq, Eq, Structural, Hash, PartialOrd, Ord)]
pub struct PersonId(pub u64);

/// Identifies a location.
#[derive(Debug, Clone, Copy, PartialEq, Eq, Structural, Hash, PartialOrd, Ord)]
pub struct LocationId(pub u64);

/// Identifies a physical object.
#[derive(Debug, Clone, Copy, PartialEq, Eq, Structural, Hash, PartialOrd, Ord)]
pub struct ObjectId(pub u64);

/// Identifies a world event; assigned consecutively by `WorldState`.
#[derive(Debug, Clone, Copy, PartialEq, Eq, Structural, Hash, PartialOrd, Ord)]
pub struct EventId(pub u64);

/// Identifies a snapshot.
#[derive(Debug, Clone, Copy, PartialEq, Eq, Structural, Hash, PartialOrd, Ord)]
pub struct SnapshotId(pub u64);

} // verus!
