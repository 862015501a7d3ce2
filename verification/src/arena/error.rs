//! The ways in which an arena operation can fail.

use vstd::prelude::*;

verus! {

/// Why an arena operation did not succeed.
#[derive(Debug, Clone, Copy, PartialEq, Eq, Structural)]
pub enum ArenaError {
    /// The index names a position that was never allocated.
    IndexOutOfBounds,
    /// No further position can be allocated.
    LimitReached,
    /// The slot was expected to be empty, and is occupied.
    ExpectedFreeSlot,
    /// The slot was expected to be occupied, and is empty.
    ExpectedFullSlot,
}

pub type ArenaResult<T> = Result<T, ArenaError>;

impl ArenaError {
    /// The text shown for each kind of failure.
    pub open spec fn spec_message(self) -> &'static str {
        match self {
            ArenaError::IndexOutOfBounds => "[Arena]: Index out of bounds",
            ArenaError::LimitReached => "[Arena::alloc]: Arena limit reached",
            ArenaError::ExpectedFreeSlot =>
                "[Arena::alloc]: Arena slot should have been empty at the given index",
            ArenaError::ExpectedFullSlot =>
                "[Arena::take]: Arena slot should have been full at the given index",
        }
    }

    /// A human-readable description of the failure.
    pub fn message(&self) -> (text: &'static str)
        ensures
            text == self.spec_message(),
    {
        match self {
            ArenaError::IndexOutOfBounds => "[Arena]: Index out of bounds",
            ArenaError::LimitReached => "[Arena::alloc]: Arena limit reached",
            ArenaError::ExpectedFreeSlot =>
                "[Arena::alloc]: Arena slot should have been empty at the given index",
            ArenaError::ExpectedFullSlot =>
                "[Arena::take]: Arena slot should have been full at the given index",
        }
    }
}

} // verus!
