//! An arena whose table is a scapegoat tree of bounded size, for targets
//! without a heap.
//!
//! The tree is not verified. What it holds is kept beside it as a model,
//! and the five operations that reach the tree say, each for itself, what
//! the tree's own source shows of it. Everything above them is proved.

use crate::arena::after_allocate;
use crate::arena::after_insert;
use crate::arena::after_take;
use crate::arena::arena_impl::helpers::IndexableMap;
use crate::arena::arena_impl::helpers::IndexableMapArena;
use crate::arena::error::ArenaError;
use crate::arena::error::ArenaResult;
use crate::arena::index::Index;
use crate::arena::Arena;
use crate::arena::ArenaItem;
use scapegoat::SgMap;
use vstd::prelude::*;

verus! {

#[verifier::external_type_specification]
#[verifier::external_body]
#[verifier::reject_recursive_types(K)]
#[verifier::reject_recursive_types(V)]
pub struct ExSgMap<K: Ord + Default, V: Default, const N: usize>(SgMap<K, V, N>);

/// The table of the arena: a scapegoat tree from positions to slots,
/// together with what the tree holds.
///
/// The model is written in one place only, `new`, which pairs a new tree
/// with the empty model. Every later change is made by an operation on the
/// tree, which says what it does to the model. No other code may write the
/// model, or the two would part.
#[verifier::reject_recursive_types(T)]
pub struct SgInnerMap<T, const N: usize> {
    map: SgMap<u16, Option<T>, N>,
    model: Ghost<Map<int, Option<T>>>,
}

/// `SgMap::new`: a new tree. The tree refuses, by a panic, a capacity that
/// its sixteen-bit node indices cannot count; such a capacity is left out.
#[verifier::external_body]
fn sg_new<T, const N: usize>() -> (map: SgMap<u16, Option<T>, N>)
    requires
        N <= u16::MAX,
{
    SgMap::new()
}

/// `SgMap::clear`: removes every entry, so that the tree holds no key.
#[verifier::external_body]
fn sg_clear<T, const N: usize>(tree: &mut SgInnerMap<T, N>)
    ensures
        final(tree).table().dom() == Set::<int>::empty(),
{
    tree.map.clear()
}

/// `SgMap::try_insert`: puts `slot` under `key`. The tree takes it when the
/// key is there already, whose slot is then replaced, or when the tree has
/// fewer than `N` entries. Otherwise the tree is left as it is. The answer
/// tells whether the tree took it.
#[verifier::external_body]
fn sg_try_insert<T, const N: usize>(tree: &mut SgInnerMap<T, N>, key: u16, slot: Option<T>) -> (taken:
    bool)
    ensures
        taken == (old(tree).table().contains_key(key as int) || old(tree).count() < N),
        taken ==> final(tree).table() == old(tree).table().insert(key as int, slot),
        !taken ==> final(tree).table() == old(tree).table(),
{
    tree.map.try_insert(key, slot).is_ok()
}

/// `SgMap::get_mut`: the slot under `key`, for reading and writing, or
/// `None` where the tree has no such key. What the caller leaves in the slot
/// is what the tree holds under the key afterwards; nothing else changes.
#[verifier::external_body]
fn sg_get_mut<T, const N: usize>(tree: &mut SgInnerMap<T, N>, key: u16) -> (slot: Option<
    &mut Option<T>,
>)
    ensures
        match slot {
            None => {
                &&& !old(tree).table().contains_key(key as int)
                &&& final(tree).table() == old(tree).table()
            },
            Some(s) => {
                &&& old(tree).table().contains_key(key as int)
                &&& *s == old(tree).table()[key as int]
                &&& final(tree).table() == old(tree).table().insert(key as int, *final(s))
            },
        },
{
    tree.map.get_mut(&key)
}

/// `SgMap::get`: the slot under `key`, for reading, or `None` where the
/// tree has no such key.
#[verifier::external_body]
fn sg_get<T, const N: usize>(tree: &SgInnerMap<T, N>, key: u16) -> (slot: Option<&Option<T>>)
    ensures
        match slot {
            None => !tree.table().contains_key(key as int),
            Some(s) => tree.table().contains_key(key as int) && *s == tree.table()[key as int],
        },
{
    tree.map.get(&key)
}

impl<T, const N: usize> SgInnerMap<T, N> {
    /// What the tree holds: the keys that are there, each with its slot.
    pub closed spec fn table(&self) -> Map<int, Option<T>> {
        self.model@
    }

    /// How many entries the tree has: one for each key.
    pub open spec fn count(&self) -> nat {
        self.table().dom().len()
    }

    /// A table that holds nothing.
    pub fn new() -> (table: Self)
        requires
            N <= u16::MAX,
        ensures
            table.table() == Map::<int, Option<T>>::empty(),
    {
        SgInnerMap { map: sg_new(), model: Ghost(Map::empty()) }
    }

    /// Makes the position `key` with an empty slot, unless the tree is full.
    /// The answer tells whether the position was made. A position that is
    /// there already is emptied.
    pub fn add_empty(&mut self, key: u16) -> (added: bool)
        ensures
            added == (old(self).table().contains_key(key as int) || old(self).count() < N),
            added ==> final(self).table() == old(self).table().insert(key as int, None),
            !added ==> final(self).table() == old(self).table(),
    {
        sg_try_insert(self, key, None)
    }
}

impl<T, const N: usize> IndexableMap<T> for SgInnerMap<T, N> {
    open spec fn slots(&self) -> Map<int, Option<T>> {
        self.table()
    }

    fn get_slot(&mut self, index: Index<T>) -> (slot: Option<&mut Option<T>>) {
        sg_get_mut(self, index.number())
    }

    fn slot(&self, index: &Index<T>) -> (slot: Option<&Option<T>>) {
        sg_get(self, index.number())
    }

    fn clear(&mut self) {
        sg_clear(self);
        assert(self.table() =~= Map::<int, Option<T>>::empty());
    }
}

/// An arena of at most `N` positions, held in a scapegoat tree and not on
/// the heap.
///
/// A full tree is a checked failure: `allocate` answers `LimitReached` and
/// makes no position.
#[verifier::reject_recursive_types(T)]
pub struct ScapegoatArena<T: ArenaItem, const N: usize>(IndexableMapArena<T, SgInnerMap<T, N>>);

/// A table whose keys are the positions below `len` has `len` entries.
proof fn lemma_keys_counted<T>(table: Map<int, Option<T>>, len: nat)
    requires
        forall|i: int| table.contains_key(i) <==> 0 <= i < len,
    ensures
        table.dom().finite(),
        table.dom().len() == len,
{
    vstd::set_lib::lemma_int_range(0, len as int);
    assert(table.dom() =~= vstd::set_lib::set_int_range(0, len as int));
}

/// The slots of a table whose positions are `0` up to `len`, in order.
pub open spec fn slots_of<T>(table: Map<int, Option<T>>, len: nat) -> Seq<Option<T>> {
    Seq::new(len, |i: int| table[i])
}

impl<T: ArenaItem, const N: usize> ScapegoatArena<T, N> {
    /// An arena with no position yet.
    pub fn new() -> (arena: Self)
        requires
            N <= u16::MAX,
        ensures
            arena.wf(),
            arena.slots() == Seq::<Option<T>>::empty(),
    {
        let arena = ScapegoatArena(IndexableMapArena::new(SgInnerMap::new()));
        assert(arena.slots() =~= Seq::<Option<T>>::empty());
        arena
    }

    /// Forgets every position and starts issuing indices from zero again.
    /// Every handle issued before is invalid afterwards.
    pub fn reset(&mut self)
        ensures
            final(self).wf(),
            final(self).slots() == Seq::<Option<T>>::empty(),
    {
        let clear = |next_index: &mut u16, map: &mut SgInnerMap<T, N>|
            ensures
                *final(next_index) == 0,
                final(map).table() == Map::<int, Option<T>>::empty(),
            {
                *next_index = 0;
                map.clear();
            };
        self.0.with_inner(clear);
        assert(self.slots() =~= Seq::<Option<T>>::empty());
    }
}

impl<T: ArenaItem, const N: usize> Arena<T> for ScapegoatArena<T, N> {
    /// The tree holds exactly the positions below the counter, which are no
    /// more than `N`.
    closed spec fn wf(&self) -> bool {
        &&& self.0.next_index() <= N
        &&& forall|i: int|
            self.0.map().table().contains_key(i) <==> 0 <= i < self.0.next_index()
    }

    closed spec fn slots(&self) -> Seq<Option<T>> {
        slots_of(self.0.map().table(), self.0.next_index() as nat)
    }

    open spec fn capacity(&self) -> nat {
        if N < u16::MAX {
            N as nat
        } else {
            u16::MAX as nat
        }
    }

    proof fn lemma_within_capacity(&self) {
    }

    fn allocate(&mut self, value: T) -> (r: ArenaResult<Index<T>>) {
        let ghost before = self.slots();
        proof {
            lemma_keys_counted(self.0.map().table(), self.0.next_index() as nat);
        }
        let grow = |next_index: &mut u16, map: &mut SgInnerMap<T, N>| -> (grown: ArenaResult<()>)
            ensures
                *final(next_index) == *old(next_index),
                grown is Ok == (*old(next_index) < u16::MAX && (old(map).table().contains_key(
                    *old(next_index) as int,
                ) || old(map).count() < N)),
                grown is Ok ==> final(map).table() == old(map).table().insert(
                    *old(next_index) as int,
                    None,
                ),
                grown is Err ==> final(map).table() == old(map).table(),
            {
                if *next_index == u16::MAX {
                    Err(ArenaError::LimitReached)
                } else if map.add_empty(*next_index) {
                    Ok(())
                } else {
                    Err(ArenaError::LimitReached)
                }
            };
        match self.0.with_inner(grow) {
            Err(_) => Err(ArenaError::LimitReached),
            Ok(_) => {
                let r = self.0.allocate(value);
                proof {
                    assert(self.slots() =~= after_allocate(before, value));
                }
                r
            },
        }
    }

    fn take(&mut self, index: Index<T>) -> (r: ArenaResult<T>) {
        let ghost before = self.slots();
        let r = self.0.take(index);
        proof {
            if r is Ok {
                assert(self.slots() =~= after_take(before, index@));
            } else {
                assert(self.slots() =~= before);
            }
        }
        r
    }

    fn has_slot(&self, index: Index<T>) -> (r: ArenaResult<bool>) {
        self.0.has_slot(index)
    }

    fn insert(&mut self, index: Index<T>, value: T) -> (r: ArenaResult<()>) {
        let ghost before = self.slots();
        let r = self.0.insert(index, value);
        proof {
            if r is Ok {
                assert(self.slots() =~= after_insert(before, index@, value));
            } else {
                assert(self.slots() =~= before);
            }
        }
        r
    }

    fn peek(&self, index: &Index<T>) -> (r: ArenaResult<&T>) {
        self.0.peek(index)
    }
}

} // verus!
