//! Values that know how to copy and drop themselves across arenas.

use crate::arena::tuple::RightTuple;
use vstd::prelude::*;

verus! {

/// A value that may hold handles into the arenas of `Arenas`, and that can
/// be copied and dropped together with everything that its handles reach.
///
/// A value is copied and dropped in the arenas in which it was made. Handed
/// other arenas, its handles name slots that have nothing to do with it.
pub trait ArenaHandler<Arenas>: Sized {
    /// The types that the handles reached from a value may name, as a
    /// right-nested tuple. `Arenas` holds one arena for each, in this order.
    type Indices: RightTuple;

    /// The arenas are well formed, and every handle reached from the value
    /// resolves in them.
    spec fn resolves_in(&self, arenas: &Arenas) -> bool;

    /// The value resolves in the arenas and reaches no slot along two
    /// different ways: its slots form a tree that it holds alone.
    spec fn owned_in(&self, arenas: &Arenas) -> bool;

    /// Every arena has room for the slots that a deep copy of the value
    /// takes in it.
    spec fn fits_in(&self, arenas: &Arenas) -> bool;

    /// `copy`, in the arenas `after`, is a deep copy of the value as it was
    /// in the arenas `before`.
    spec fn copied_in(&self, before: &Arenas, copy: &Self, after: &Arenas) -> bool;

    /// The slots that the value reached in the arenas `before` are empty in
    /// `after`, and nothing else has changed.
    spec fn dropped_in(&self, before: &Arenas, after: &Arenas) -> bool;

    /// Takes out of the arenas everything that the value reaches, and drops
    /// it together with the value.
    fn drop_in(self, arenas: &mut Arenas)
        requires
            self.owned_in(old(arenas)),
        ensures
            self.dropped_in(old(arenas), final(arenas)),
    ;

    /// A deep copy of the value: a new slot for every slot that the value
    /// reaches, holding a copy of what that slot holds.
    fn clone_in(&self, arenas: &mut Arenas) -> (copy: Self)
        requires
            self.resolves_in(old(arenas)),
            self.fits_in(old(arenas)),
        ensures
            self.copied_in(old(arenas), &copy, final(arenas)),
    ;
}

} // verus!
