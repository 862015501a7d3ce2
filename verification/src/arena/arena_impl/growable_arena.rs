//! An arena whose table grows by one position with each allocation.

use crate::arena::arena_impl::helpers::lemma_table_of_injective;
use crate::arena::arena_impl::helpers::lemma_table_of_update;
use crate::arena::arena_impl::helpers::table_of;
use crate::arena::arena_impl::helpers::IndexableMap;
use crate::arena::arena_impl::helpers::IndexableMapArena;
use crate::arena::error::ArenaError;
use crate::arena::error::ArenaResult;
use crate::arena::index::Index;
use crate::arena::Arena;
use crate::arena::ArenaItem;
use vstd::prelude::*;

verus! {

/// An arena without a bound of its own: it holds as many positions as an
/// index can name.
#[derive(Debug)]
pub struct GrowableArena<T: ArenaItem>(IndexableMapArena<T, GAMap<T>>);

/// A table that grows at its end: a vector of slots, position `i` at
/// element `i`.
#[derive(Debug)]
pub struct GAMap<T>(Vec<Option<T>>);

impl<T> GAMap<T> {
    /// The slots of the table, in order of position.
    pub closed spec fn cells(&self) -> Seq<Option<T>> {
        self.0@
    }

    /// A table without positions.
    pub fn new() -> (map: Self)
        ensures
            map.cells() == Seq::<Option<T>>::empty(),
    {
        GAMap(Vec::new())
    }

    /// How many positions the table has.
    pub fn len(&self) -> (len: usize)
        ensures
            len == self.cells().len(),
    {
        self.0.len()
    }

    /// Adds one empty slot at the end of the table.
    pub fn grow(&mut self)
        ensures
            final(self).cells() == old(self).cells().push(None),
    {
        self.0.push(None);
    }
}

impl<T> IndexableMap<T> for GAMap<T> {
    open spec fn slots(&self) -> Map<int, Option<T>> {
        table_of(self.cells())
    }

    fn get_slot(&mut self, index: Index<T>) -> (slot: Option<&mut Option<T>>) {
        let position: usize = index.position();
        if position < self.0.len() {
            Some(&mut self.0[position])
        } else {
            None
        }
    }

    fn slot(&self, index: &Index<T>) -> (slot: Option<&Option<T>>) {
        let position: usize = index.position();
        if position < self.0.len() {
            Some(&self.0[position])
        } else {
            None
        }
    }

    fn clear(&mut self) {
        self.0.clear();
        assert(self.slots() =~= Map::<int, Option<T>>::empty());
    }
}

impl<T: ArenaItem> GrowableArena<T> {
    /// An arena with no position yet.
    pub fn new() -> (arena: Self)
        ensures
            arena.wf(),
            arena.slots() == Seq::<Option<T>>::empty(),
    {
        GrowableArena(IndexableMapArena::new(GAMap::new()))
    }

    /// Forgets every position and starts issuing indices from zero again.
    /// Every handle issued before is invalid afterwards.
    pub fn reset(&mut self)
        ensures
            final(self).wf(),
            final(self).slots() == Seq::<Option<T>>::empty(),
    {
        let clear = |next_index: &mut u16, map: &mut GAMap<T>|
            ensures
                *final(next_index) == 0,
                final(map).cells() == Seq::<Option<T>>::empty(),
            {
                *next_index = 0;
                map.clear();
                proof {
                    assert(table_of(Seq::<Option<T>>::empty()) =~= Map::<int, Option<T>>::empty());
                    lemma_table_of_injective(map.cells(), Seq::<Option<T>>::empty());
                }
            };
        self.0.with_inner(clear)
    }
}

impl<T: ArenaItem> Arena<T> for GrowableArena<T> {
    closed spec fn wf(&self) -> bool {
        self.0.next_index() == self.0.map().cells().len()
    }

    closed spec fn slots(&self) -> Seq<Option<T>> {
        self.0.map().cells()
    }

    open spec fn capacity(&self) -> nat {
        u16::MAX as nat
    }

    proof fn lemma_within_capacity(&self) {
    }

    fn allocate(&mut self, value: T) -> (r: ArenaResult<Index<T>>) {
        let ghost before = self.slots();
        let grow = |next_index: &mut u16, map: &mut GAMap<T>| -> (grown: ArenaResult<()>)
            ensures
                *final(next_index) == *old(next_index),
                *old(next_index) == u16::MAX ==> grown is Err && final(map).cells() == old(map).cells(),
                *old(next_index) < u16::MAX ==> grown is Ok && final(map).cells() == old(map).cells().push(
                    None,
                ),
            {
                if *next_index == u16::MAX {
                    Err(ArenaError::LimitReached)
                } else {
                    map.grow();
                    Ok(())
                }
            };
        match self.0.with_inner(grow) {
            Err(_) => Err(ArenaError::LimitReached),
            Ok(_) => {
                let ghost grown = self.0.map().cells();
                let r = self.0.allocate(value);
                proof {
                    lemma_table_of_update(grown, before.len() as int, Some(value));
                    lemma_table_of_injective(
                        self.0.map().cells(),
                        grown.update(before.len() as int, Some(value)),
                    );
                    assert(grown.update(before.len() as int, Some(value)) =~= before.push(
                        Some(value),
                    ));
                }
                r
            },
        }
    }

    fn take(&mut self, index: Index<T>) -> (r: ArenaResult<T>) {
        let ghost before = self.slots();
        let r = self.0.take(index);
        proof {
            if r is Ok {
                lemma_table_of_update(before, index@, None);
                lemma_table_of_injective(self.0.map().cells(), before.update(index@, None));
            } else {
                lemma_table_of_injective(self.0.map().cells(), before);
            }
        }
        r
    }

    fn has_slot(&self, index: Index<T>) -> (r: ArenaResult<bool>) {
        self.0.has_slot(index)
    }

    fn insert(&mut self, index: Index<T>, value: T) -> (r: ArenaResult<()>) {
        let ghost before = self.slots();
        let r = self.0.insert(index, value);
        proof {
            if r is Ok {
                lemma_table_of_update(before, index@, Some(value));
                lemma_table_of_injective(self.0.map().cells(), before.update(index@, Some(value)));
            } else {
                lemma_table_of_injective(self.0.map().cells(), before);
            }
        }
        r
    }

    fn peek(&self, index: &Index<T>) -> (r: ArenaResult<&T>) {
        self.0.peek(index)
    }
}

} // verus!
