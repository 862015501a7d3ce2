//! Right-nested tuples: lists of types, and lists of arenas to match them.

pub mod arena_tuple;
pub mod right_tuple;

use crate::arena::handler::ArenaHandler;
use crate::arena::Arena;
use crate::arena::ArenaItem;
use vstd::prelude::*;

verus! {

/// A list of types, written as nested pairs that end in `()`: the list of
/// `A`, `B` and `C` is `(A, (B, (C, ())))`.
pub trait RightTuple: right_tuple::Sealed {

}

impl<T: right_tuple::Sealed> RightTuple for T {

}

/// A list of arenas, one for each type of the list `T`, in the same order
/// and nested in the same way: for `(A, (B, ()))` an arena of `A`, then an
/// arena of `B`, then `()`.
pub trait ArenaTuple<T: RightTuple>: arena_tuple::Sealed {
    /// Every arena of the list is well formed.
    spec fn all_wf(&self) -> bool;
}

impl ArenaTuple<()> for () {
    open spec fn all_wf(&self) -> bool {
        true
    }
}

impl<T: ArenaItem, A: Arena<T>, TS: RightTuple, AS: ArenaTuple<TS>> ArenaTuple<(T, TS)> for (
    A,
    AS,
) {
    open spec fn all_wf(&self) -> bool {
        self.0.wf() && self.1.all_wf()
    }
}

/// A list of arenas that matches the types that the values of `H` reach.
pub trait ArenaHandlerTuple<H: ArenaHandler<Self>>: ArenaTuple<H::Indices> + Sized {

}

impl<H: ArenaHandler<AT>, AT: ArenaTuple<H::Indices>> ArenaHandlerTuple<H> for AT {

}

} // verus!
