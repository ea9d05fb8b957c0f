//! Error types.
use vstd::prelude::*;

/// The name under which [`Arena::insert_with_index`](super::Arena::insert_with_index)
/// reports a refused index.
pub use self::KeyNotReserved as IndexNotReserved;

verus! {

/// Returned when trying to reserve an index on a full [`Arena`](super::Arena).
#[derive(Debug, Clone, Copy, PartialEq, Eq, Hash, Structural)]
pub struct ArenaFull;

impl ArenaFull {
    /// A human-readable description of the error.
    pub fn description(&self) -> (r: &'static str)
        ensures
            r@ == "Cannot reserve an index because the arena is full"@,
    {
        "Cannot reserve an index because the arena is full"
    }
}

/// Returned when trying to insert into an [`Arena`](super::Arena) with an
/// index that is not reserved: its slot is occupied, or its generation
/// is not the slot's current one.
#[derive(Debug, Clone, Copy, PartialEq, Eq, Hash, Structural)]
pub struct KeyNotReserved;

impl KeyNotReserved {
    /// A human-readable description of the error.
    pub fn description(&self) -> (r: &'static str)
        ensures
            r@ == "Cannot insert with this index because it is not reserved"@,
    {
        "Cannot insert with this index because it is not reserved"
    }
}

} // verus!
