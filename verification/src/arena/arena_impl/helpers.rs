//! The slot-table engine shared by the arena backends.

use crate::arena::error::ArenaError;
use crate::arena::error::ArenaResult;
use crate::arena::index::Index;
use core::marker::PhantomData;
use vstd::prelude::*;

verus! {

/// A table of slots keyed by [`Index`].
///
/// The table is modelled by `slots()`, a map from the positions that exist to
/// what each holds: `Some(value)` when occupied, `None` when empty.
pub trait IndexableMap<T> {
    /// The positions that exist, each with what it holds.
    spec fn slots(&self) -> Map<int, Option<T>>;

    /// The slot at `index`, for reading and writing; `None` where the
    /// position does not exist. Whatever the caller leaves in the slot is
    /// what the table holds afterwards, and nothing else changes.
    fn get_slot(&mut self, index: Index<T>) -> (slot: Option<&mut Option<T>>)
        ensures
            match slot {
                None => {
                    &&& !old(self).slots().contains_key(index@)
                    &&& final(self).slots() == old(self).slots()
                },
                Some(s) => {
                    &&& old(self).slots().contains_key(index@)
                    &&& *s == old(self).slots()[index@]
                    &&& final(self).slots() == old(self).slots().insert(index@, *final(s))
                },
            },
    ;

    /// The slot at `index`, for reading; `None` where the position does not
    /// exist.
    fn slot(&self, index: &Index<T>) -> (slot: Option<&Option<T>>)
        ensures
            match slot {
                None => !self.slots().contains_key(index@),
                Some(s) => self.slots().contains_key(index@) && *s == self.slots()[index@],
            },
    ;

    /// Removes every position from the table, dropping what they hold.
    fn clear(&mut self)
        ensures
            final(self).slots() == Map::<int, Option<T>>::empty(),
    ;
}

/// A counter of issued indices over an [`IndexableMap`]: the arena operations
/// on a table that something else makes room in.
///
/// The adapter never creates a position itself. `allocate` fills the slot at
/// the counter and advances it, so a backend first makes sure that this slot
/// exists.
#[derive(Debug)]
pub struct IndexableMapArena<T, M> {
    next_index: u16,
    map: M,
    phantom: PhantomData<T>,
}

impl<T, M: IndexableMap<T>> IndexableMapArena<T, M> {
    /// The index that the next allocation issues.
    pub closed spec fn next_index(&self) -> u16 {
        self.next_index
    }

    /// The table behind the adapter.
    pub closed spec fn map(&self) -> M {
        self.map
    }

    /// The positions of the table, each with what it holds.
    pub open spec fn slots(&self) -> Map<int, Option<T>> {
        self.map().slots()
    }

    /// An arena over `map`, with no index issued yet.
    pub fn new(map: M) -> (arena: Self)
        ensures
            arena.next_index() == 0,
            arena.map() == map,
    {
        IndexableMapArena { next_index: 0, map, phantom: PhantomData }
    }

    /// Runs `f` on the counter and the table, and returns what it returns.
    /// Whatever `f` leaves in the two is the arena's new state.
    pub fn with_inner<U, F: FnOnce(&mut u16, &mut M) -> U>(&mut self, f: F) -> (r: U)
        requires
            forall|next_index: &mut u16, map: &mut M|
                *next_index == old(self).next_index() && *map == old(self).map()
                    ==> call_requires(f, (next_index, map)),
        ensures
            exists|next_index: &mut u16, map: &mut M|
                {
                    &&& *next_index == old(self).next_index()
                    &&& *map == old(self).map()
                    &&& *final(next_index) == final(self).next_index()
                    &&& *final(map) == final(self).map()
                    &&& call_ensures(f, (next_index, map), r)
                },
    {
        f(&mut self.next_index, &mut self.map)
    }

    /// Looks up the slot at `index`, runs `action` on it and then
    /// `update_index` on the counter, and returns what `action` returned.
    /// Where the position does not exist neither runs, nothing changes and
    /// the answer is `IndexOutOfBounds`.
    pub fn with_slot<U, FI: FnOnce(&mut u16), FA: FnOnce(&mut Option<T>) -> ArenaResult<U>>(
        &mut self,
        index: Index<T>,
        update_index: FI,
        action: FA,
    ) -> (r: ArenaResult<U>)
        requires
            old(self).slots().contains_key(index@) ==> {
                &&& forall|entry: &mut Option<T>|
                    *entry == old(self).slots()[index@] ==> call_requires(action, (entry,))
                &&& forall|next_index: &mut u16|
                    *next_index == old(self).next_index() ==> call_requires(
                        update_index,
                        (next_index,),
                    )
            },
        ensures
            !old(self).slots().contains_key(index@) ==> {
                &&& r == Err::<U, ArenaError>(ArenaError::IndexOutOfBounds)
                &&& final(self).slots() == old(self).slots()
                &&& final(self).next_index() == old(self).next_index()
            },
            old(self).slots().contains_key(index@) ==> exists|
                entry: &mut Option<T>,
                next_index: &mut u16,
            |
                {
                    &&& *entry == old(self).slots()[index@]
                    &&& final(self).slots() == old(self).slots().insert(index@, *final(entry))
                    &&& call_ensures(action, (entry,), r)
                    &&& *next_index == old(self).next_index()
                    &&& *final(next_index) == final(self).next_index()
                    &&& call_ensures(update_index, (next_index,), ())
                },
    {
        with_entry(self.map.get_slot(index), &mut self.next_index, update_index, action)
    }

    /// Fills the slot at the counter with `value` and advances the counter.
    ///
    /// Fails with `LimitReached` when the counter is at its greatest value,
    /// and with `IndexOutOfBounds` when the table has no slot at the counter;
    /// neither changes anything. Where that slot is occupied the answer is
    /// `ExpectedFreeSlot`, and the counter still moves past it.
    pub fn allocate(&mut self, value: T) -> (r: ArenaResult<Index<T>>)
        ensures
            old(self).next_index() == u16::MAX ==> {
                &&& r == Err::<Index<T>, ArenaError>(ArenaError::LimitReached)
                &&& final(self).slots() == old(self).slots()
                &&& final(self).next_index() == old(self).next_index()
            },
            old(self).next_index() < u16::MAX && !old(self).slots().contains_key(
                old(self).next_index() as int,
            ) ==> {
                &&& r == Err::<Index<T>, ArenaError>(ArenaError::IndexOutOfBounds)
                &&& final(self).slots() == old(self).slots()
                &&& final(self).next_index() == old(self).next_index()
            },
            old(self).next_index() < u16::MAX && old(self).slots().contains_key(
                old(self).next_index() as int,
            ) ==> {
                &&& final(self).next_index() == old(self).next_index() + 1
                &&& match old(self).slots()[old(self).next_index() as int] {
                    Some(_) => {
                        &&& r == Err::<Index<T>, ArenaError>(ArenaError::ExpectedFreeSlot)
                        &&& final(self).slots() == old(self).slots()
                    },
                    None => {
                        &&& r is Ok
                        &&& r->Ok_0@ == old(self).next_index()
                        &&& final(self).slots() == old(self).slots().insert(
                            old(self).next_index() as int,
                            Some(value),
                        )
                    },
                }
            },
    {
        let inner_next_index = self.next_index;
        if inner_next_index == u16::MAX {
            return Err(ArenaError::LimitReached);
        }
        let index = Index::new(inner_next_index);
        let target = index.clone();
        let ghost before = self.slots();
        let advance = |counter: &mut u16|
            requires
                *counter < u16::MAX,
            ensures
                *final(counter) == *old(counter) + 1,
            {
                *counter = *counter + 1;
            };
        let fill = |entry: &mut Option<T>| -> (filled: ArenaResult<Index<T>>)
            ensures
                match *old(entry) {
                    Some(_) => {
                        &&& filled == Err::<Index<T>, ArenaError>(ArenaError::ExpectedFreeSlot)
                        &&& *final(entry) == *old(entry)
                    },
                    None => filled == Ok::<Index<T>, ArenaError>(index) && *final(entry) == Some(
                        value,
                    ),
                },
            {
                match insert_entry(entry, value) {
                    Ok(_) => Ok(index),
                    Err(e) => Err(e),
                }
            };
        let r = self.with_slot(target, advance, fill);
        proof {
            if before.contains_key(inner_next_index as int) && before[inner_next_index as int]
                is Some {
                assert(self.slots() =~= before);
            }
        }
        r
    }

    /// Moves the value out of the slot at `index`, leaving the slot empty.
    pub fn take(&mut self, index: Index<T>) -> (r: ArenaResult<T>)
        ensures
            final(self).next_index() == old(self).next_index(),
            r == slot_take_outcome(old(self).slots(), index@),
            r is Ok ==> final(self).slots() == old(self).slots().insert(index@, None),
            r is Err ==> final(self).slots() == old(self).slots(),
    {
        let ghost before = self.slots();
        let keep = |counter: &mut u16|
            ensures
                *final(counter) == *old(counter),
            {
            };
        let r = self.with_slot(index, keep, take_entry::<T>);
        proof {
            if r is Err {
                assert(self.slots() =~= before);
            }
        }
        r
    }

    /// Whether the slot at `index` is occupied.
    pub fn has_slot(&self, index: Index<T>) -> (r: ArenaResult<bool>)
        ensures
            r == slot_has_outcome(self.slots(), index@),
    {
        entry_is_full(self.map.slot(&index))
    }

    /// Fills the empty slot at `index` with `value`.
    pub fn insert(&mut self, index: Index<T>, value: T) -> (r: ArenaResult<()>)
        ensures
            final(self).next_index() == old(self).next_index(),
            r == slot_insert_outcome(old(self).slots(), index@),
            r is Ok ==> final(self).slots() == old(self).slots().insert(index@, Some(value)),
            r is Err ==> final(self).slots() == old(self).slots(),
    {
        let ghost before = self.slots();
        let keep = |counter: &mut u16|
            ensures
                *final(counter) == *old(counter),
            {
            };
        let insert_entry = |entry: &mut Option<T>| -> (inserted: ArenaResult<()>)
            ensures
                match *old(entry) {
                    Some(_) => {
                        &&& inserted == Err::<(), ArenaError>(ArenaError::ExpectedFreeSlot)
                        &&& *final(entry) == *old(entry)
                    },
                    None => inserted == Ok::<(), ArenaError>(()) && *final(entry) == Some(value),
                },
            {
                insert_entry(entry, value)
            };
        let r = self.with_slot(index, keep, insert_entry);
        proof {
            if r is Err {
                assert(self.slots() =~= before);
            }
        }
        r
    }

    /// Borrows the value in the slot at `index`, leaving the arena untouched.
    pub fn peek(&self, index: &Index<T>) -> (r: ArenaResult<&T>)
        ensures
            match slot_take_outcome(self.slots(), index@) {
                Ok(value) => r is Ok && *r->Ok_0 == value,
                Err(e) => r == Err::<&T, ArenaError>(e),
            },
    {
        entry_value(self.map.slot(index))
    }
}

/// Moves the value out of a slot, leaving the slot empty; `ExpectedFullSlot`
/// where the slot is empty already.
pub fn take_entry<T>(entry: &mut Option<T>) -> (taken: ArenaResult<T>)
    ensures
        *final(entry) is None,
        taken == (match *old(entry) {
            Some(value) => Ok::<T, ArenaError>(value),
            None => Err::<T, ArenaError>(ArenaError::ExpectedFullSlot),
        }),
{
    entry.take().ok_or(ArenaError::ExpectedFullSlot)
}

/// Fills an empty slot with `value`; `ExpectedFreeSlot` where the slot is
/// occupied, which is then left as it is.
pub fn insert_entry<T>(entry: &mut Option<T>, value: T) -> (inserted: ArenaResult<()>)
    ensures
        match *old(entry) {
            Some(_) => {
                &&& inserted == Err::<(), ArenaError>(ArenaError::ExpectedFreeSlot)
                &&& *final(entry) == *old(entry)
            },
            None => inserted == Ok::<(), ArenaError>(()) && *final(entry) == Some(value),
        },
{
    match entry {
        Some(_) => Err(ArenaError::ExpectedFreeSlot),
        None => {
            let _ = entry.insert(value);
            Ok(())
        },
    }
}

/// Whether a slot that was looked up is occupied; `IndexOutOfBounds` where
/// the lookup found no slot.
pub fn entry_is_full<T>(slot: Option<&Option<T>>) -> (r: ArenaResult<bool>)
    ensures
        r == (match slot {
            None => Err::<bool, ArenaError>(ArenaError::IndexOutOfBounds),
            Some(entry) => Ok::<bool, ArenaError>(entry is Some),
        }),
{
    match slot {
        None => Err(ArenaError::IndexOutOfBounds),
        Some(entry) => Ok(entry.is_some()),
    }
}

/// The value in a slot that was looked up; `IndexOutOfBounds` where the
/// lookup found no slot, `ExpectedFullSlot` where the slot is empty.
pub fn entry_value<T>(slot: Option<&Option<T>>) -> (r: ArenaResult<&T>)
    ensures
        match slot {
            None => r == Err::<&T, ArenaError>(ArenaError::IndexOutOfBounds),
            Some(None) => r == Err::<&T, ArenaError>(ArenaError::ExpectedFullSlot),
            Some(Some(value)) => r is Ok && *r->Ok_0 == value,
        },
{
    match slot {
        None => Err(ArenaError::IndexOutOfBounds),
        Some(entry) => match entry {
            Some(value) => Ok(value),
            None => Err(ArenaError::ExpectedFullSlot),
        },
    }
}

/// Runs `action` on a slot that was looked up and then `update_index` on
/// the counter, and returns what `action` returned. Where the lookup found
/// no slot neither runs, and the answer is `IndexOutOfBounds`.
pub fn with_entry<T, U, FI: FnOnce(&mut u16), FA: FnOnce(&mut Option<T>) -> ArenaResult<U>>(
    slot: Option<&mut Option<T>>,
    next_index: &mut u16,
    update_index: FI,
    action: FA,
) -> (r: ArenaResult<U>)
    requires
        slot matches Some(found) ==> {
            &&& forall|entry: &mut Option<T>| *entry == *found ==> call_requires(action, (entry,))
            &&& forall|counter: &mut u16|
                *counter == *old(next_index) ==> call_requires(update_index, (counter,))
        },
    ensures
        slot is None ==> {
            &&& r == Err::<U, ArenaError>(ArenaError::IndexOutOfBounds)
            &&& *final(next_index) == *old(next_index)
        },
        slot matches Some(found) ==> exists|entry: &mut Option<T>, counter: &mut u16|
            {
                &&& *entry == *found
                &&& *final(entry) == *final(found)
                &&& call_ensures(action, (entry,), r)
                &&& *counter == *old(next_index)
                &&& *final(counter) == *final(next_index)
                &&& call_ensures(update_index, (counter,), ())
            },
{
    match slot {
        None => Err(ArenaError::IndexOutOfBounds),
        Some(entry) => {
            let result = action(entry);
            update_index(next_index);
            result
        },
    }
}

/// What `take` answers on a table, for the position `i`.
pub open spec fn slot_take_outcome<T>(slots: Map<int, Option<T>>, i: int) -> ArenaResult<T> {
    if !slots.contains_key(i) {
        Err(ArenaError::IndexOutOfBounds)
    } else {
        match slots[i] {
            Some(value) => Ok(value),
            None => Err(ArenaError::ExpectedFullSlot),
        }
    }
}

/// What `insert` answers on a table, for the position `i`.
pub open spec fn slot_insert_outcome<T>(slots: Map<int, Option<T>>, i: int) -> ArenaResult<()> {
    if !slots.contains_key(i) {
        Err(ArenaError::IndexOutOfBounds)
    } else if slots[i] is Some {
        Err(ArenaError::ExpectedFreeSlot)
    } else {
        Ok(())
    }
}

/// What `has_slot` answers on a table, for the position `i`.
pub open spec fn slot_has_outcome<T>(slots: Map<int, Option<T>>, i: int) -> ArenaResult<bool> {
    if !slots.contains_key(i) {
        Err(ArenaError::IndexOutOfBounds)
    } else {
        Ok(slots[i] is Some)
    }
}

/// The table whose positions are those of `cells`, in order from zero.
pub open spec fn table_of<T>(cells: Seq<Option<T>>) -> Map<int, Option<T>> {
    Map::new(|i: int| 0 <= i < cells.len(), |i: int| cells[i])
}

/// Two sequences with the same table are the same sequence.
pub proof fn lemma_table_of_injective<T>(a: Seq<Option<T>>, b: Seq<Option<T>>)
    requires
        table_of(a) == table_of(b),
    ensures
        a == b,
{
    if a.len() < b.len() {
        assert(table_of(b).contains_key(a.len() as int));
        assert(!table_of(a).contains_key(a.len() as int));
    }
    if b.len() < a.len() {
        assert(table_of(a).contains_key(b.len() as int));
        assert(!table_of(b).contains_key(b.len() as int));
    }
    assert forall|i: int| 0 <= i < a.len() implies a[i] == b[i] by {
        assert(table_of(a)[i] == a[i]);
        assert(table_of(b)[i] == b[i]);
    }
    assert(a =~= b);
}

/// Writing to a position of the table writes to that position of the
/// sequence.
pub proof fn lemma_table_of_update<T>(cells: Seq<Option<T>>, i: int, slot: Option<T>)
    requires
        0 <= i < cells.len(),
    ensures
        table_of(cells).insert(i, slot) == table_of(cells.update(i, slot)),
{
    assert(table_of(cells).insert(i, slot) =~= table_of(cells.update(i, slot)));
}

} // verus!
