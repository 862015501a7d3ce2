//! Singly linked lists whose cells live in an arena.

use crate::arena::index::Index;
use vstd::prelude::*;

verus! {

/// One cell of a list of `T`: either the end of the list, or the handle of an
/// element together with the handle of the cell that continues the list.
///
/// The two handles belong to different arenas: `head` to the arena of the
/// elements, `tail` to the arena of the cells.
#[derive(Debug, PartialEq, Eq, PartialOrd, Ord)]
pub enum Chain<T> {
    Cons { head: Index<T>, tail: Index<Chain<T>> },
    Nil,
}

impl<T> Clone for Chain<T> {
    /// A copy of the cell with copies of its handles. What the handles name
    /// is not duplicated.
    fn clone(&self) -> (copy: Self)
        ensures
            copy == *self,
    {
        match self {
            Chain::Cons { head, tail } => Chain::Cons { head: head.clone(), tail: tail.clone() },
            Chain::Nil => Chain::Nil,
        }
    }
}

/// Where a walk along a list stands: at a cell held in hand, or at the handle
/// of a cell still in its arena.
#[derive(Debug)]
pub enum ChainOrIndex<T> {
    Chain(Chain<T>),
    Index(Index<Chain<T>>),
}

} // verus!
