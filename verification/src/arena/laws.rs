//! What holds of every arena, stated over the slot table that the contracts
//! of [`Arena`](crate::arena::Arena) speak of.

use crate::arena::after_allocate;
use crate::arena::after_insert;
use crate::arena::after_take;
use crate::arena::error::ArenaError;
use crate::arena::has_slot_outcome;
use crate::arena::insert_outcome;
use crate::arena::take_outcome;
use vstd::prelude::*;

verus! {

/// Taking at the index that an allocation has just returned yields exactly
/// the value that was allocated.
pub proof fn law_allocate_then_take<T>(slots: Seq<Option<T>>, value: T)
    ensures
        take_outcome(after_allocate(slots, value), slots.len() as int) == Ok::<T, ArenaError>(
            value,
        ),
{
}

/// Taking at an index that was never allocated fails with
/// `IndexOutOfBounds`.
pub proof fn law_take_unallocated<T>(slots: Seq<Option<T>>, i: int)
    requires
        i >= slots.len(),
    ensures
        take_outcome(slots, i) == Err::<T, ArenaError>(ArenaError::IndexOutOfBounds),
{
}

/// Taking a second time at an index whose value has been taken fails with
/// `ExpectedFullSlot`.
pub proof fn law_take_twice<T>(slots: Seq<Option<T>>, i: int)
    requires
        take_outcome(slots, i) is Ok,
    ensures
        take_outcome(after_take(slots, i), i) == Err::<T, ArenaError>(
            ArenaError::ExpectedFullSlot,
        ),
{
}

/// Inserting into a slot that has just been freed succeeds, and the slot is
/// occupied afterwards by the value inserted.
pub proof fn law_insert_after_take<T>(slots: Seq<Option<T>>, i: int, value: T)
    requires
        take_outcome(slots, i) is Ok,
    ensures
        insert_outcome(after_take(slots, i), i) == Ok::<(), ArenaError>(()),
        has_slot_outcome(after_insert(after_take(slots, i), i, value), i) == Ok::<
            bool,
            ArenaError,
        >(true),
        take_outcome(after_insert(after_take(slots, i), i, value), i) == Ok::<T, ArenaError>(
            value,
        ),
{
}

/// Inserting into an occupied slot fails with `ExpectedFreeSlot`.
pub proof fn law_insert_occupied<T>(slots: Seq<Option<T>>, i: int)
    requires
        take_outcome(slots, i) is Ok,
    ensures
        insert_outcome(slots, i) == Err::<(), ArenaError>(ArenaError::ExpectedFreeSlot),
{
}

/// No index is issued twice: an allocation returns the length of the table,
/// and no operation makes the table shorter, so every later allocation
/// returns a greater index. `later` stands for the table after any number
/// of further operations.
pub proof fn law_indices_never_repeat<T>(slots: Seq<Option<T>>, value: T, later: Seq<Option<T>>)
    requires
        after_allocate(slots, value).len() <= later.len(),
    ensures
        later.len() > slots.len(),
        forall|i: int| 0 <= i < later.len() ==> after_take(later, i).len() == later.len(),
        forall|i: int, other: T|
            0 <= i < later.len() ==> #[trigger] after_insert(later, i, other).len() == later.len(),
        forall|other: T| #[trigger] after_allocate(later, other).len() == later.len() + 1,
{
}

} // verus!
