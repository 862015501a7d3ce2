//! Arenas: owning slot tables addressed by typed indices.

pub mod arena_impl;
pub mod chain;
pub mod chain_iter;
pub mod equality;
pub mod error;
pub mod extension;
pub mod graph;
pub mod handler;
pub mod index;
pub mod laws;
pub mod tuple;

use crate::arena::error::ArenaError;
use crate::arena::error::ArenaResult;
use crate::arena::index::Index;
use vstd::prelude::*;

verus! {

/// What a value must offer to be stored in an arena.
pub trait ArenaItem: Ord + 'static {

}

impl<T: Ord + 'static> ArenaItem for T {

}

/// What `take` answers on a slot table, for the position `i`.
pub open spec fn take_outcome<T>(slots: Seq<Option<T>>, i: int) -> ArenaResult<T> {
    if !(0 <= i < slots.len()) {
        Err(ArenaError::IndexOutOfBounds)
    } else {
        match slots[i] {
            Some(value) => Ok(value),
            None => Err(ArenaError::ExpectedFullSlot),
        }
    }
}

/// The value that the position `i` of a slot table holds, if the position
/// exists and is occupied.
pub open spec fn occupant<T>(slots: Seq<Option<T>>, i: int) -> Option<T> {
    if 0 <= i < slots.len() {
        slots[i]
    } else {
        None
    }
}

/// What `insert` answers on a slot table, for the position `i`.
pub open spec fn insert_outcome<T>(slots: Seq<Option<T>>, i: int) -> ArenaResult<()> {
    if !(0 <= i < slots.len()) {
        Err(ArenaError::IndexOutOfBounds)
    } else if slots[i] is Some {
        Err(ArenaError::ExpectedFreeSlot)
    } else {
        Ok(())
    }
}

/// What `has_slot` answers on a slot table, for the position `i`.
pub open spec fn has_slot_outcome<T>(slots: Seq<Option<T>>, i: int) -> ArenaResult<bool> {
    if !(0 <= i < slots.len()) {
        Err(ArenaError::IndexOutOfBounds)
    } else {
        Ok(slots[i] is Some)
    }
}

/// The table after a successful `allocate` of `value`: one more position at
/// the end, which holds `value`.
pub open spec fn after_allocate<T>(slots: Seq<Option<T>>, value: T) -> Seq<Option<T>> {
    slots.push(Some(value))
}

/// The table after a successful `take` at `i`: the slot is empty.
pub open spec fn after_take<T>(slots: Seq<Option<T>>, i: int) -> Seq<Option<T>> {
    slots.update(i, None)
}

/// The table after a successful `insert` of `value` at `i`: the slot holds
/// `value`.
pub open spec fn after_insert<T>(slots: Seq<Option<T>>, i: int, value: T) -> Seq<Option<T>> {
    slots.update(i, Some(value))
}

/// A slot table of values of one type, addressed by [`Index`].
///
/// The table is modelled by `slots()`: position `i` exists exactly when
/// `i < slots().len()`, and holds `Some(value)` when occupied and `None` when
/// empty. Positions are only ever added at the end, one per successful
/// `allocate`, so the number of positions is also the next index to be issued.
pub trait Arena<T: ArenaItem> {
    /// The representation is consistent. Constructors establish this and every
    /// operation keeps it.
    spec fn wf(&self) -> bool;

    /// The slot table.
    spec fn slots(&self) -> Seq<Option<T>>;

    /// The greatest number of positions that the table can come to hold.
    spec fn capacity(&self) -> nat;

    /// The table never outgrows its capacity nor the width of an index.
    proof fn lemma_within_capacity(&self)
        requires
            self.wf(),
        ensures
            self.slots().len() <= self.capacity() <= u16::MAX,
    ;

    /// Stores `value` in a new position at the end of the table and returns
    /// the handle to it. Freed positions are never reused here.
    fn allocate(&mut self, value: T) -> (r: ArenaResult<Index<T>>)
        requires
            old(self).wf(),
        ensures
            final(self).wf(),
            final(self).capacity() == old(self).capacity(),
            old(self).slots().len() < old(self).capacity() ==> {
                &&& r is Ok
                &&& r->Ok_0@ == old(self).slots().len()
                &&& final(self).slots() == after_allocate(old(self).slots(), value)
            },
            old(self).slots().len() >= old(self).capacity() ==> {
                &&& r == Err::<Index<T>, ArenaError>(ArenaError::LimitReached)
                &&& final(self).slots() == old(self).slots()
            },
    ;

    /// Moves the value out of the slot at `index`, leaving the slot empty.
    fn take(&mut self, index: Index<T>) -> (r: ArenaResult<T>)
        requires
            old(self).wf(),
        ensures
            final(self).wf(),
            final(self).capacity() == old(self).capacity(),
            r == take_outcome(old(self).slots(), index@),
            r is Ok ==> final(self).slots() == after_take(old(self).slots(), index@),
            r is Err ==> final(self).slots() == old(self).slots(),
    ;

    /// Whether the slot at `index` is occupied.
    fn has_slot(&self, index: Index<T>) -> (r: ArenaResult<bool>)
        requires
            self.wf(),
        ensures
            r == has_slot_outcome(self.slots(), index@),
    ;

    /// Fills the empty slot at `index` with `value`.
    fn insert(&mut self, index: Index<T>, value: T) -> (r: ArenaResult<()>)
        requires
            old(self).wf(),
        ensures
            final(self).wf(),
            final(self).capacity() == old(self).capacity(),
            r == insert_outcome(old(self).slots(), index@),
            r is Ok ==> final(self).slots() == after_insert(old(self).slots(), index@, value),
            r is Err ==> final(self).slots() == old(self).slots(),
    ;

    /// Borrows the value in the slot at `index`, leaving the arena untouched.
    fn peek(&self, index: &Index<T>) -> (r: ArenaResult<&T>)
        requires
            self.wf(),
        ensures
            match take_outcome(self.slots(), index@) {
                Ok(value) => r is Ok && *r->Ok_0 == value,
                Err(e) => r == Err::<&T, ArenaError>(e),
            },
    ;
}

} // verus!
