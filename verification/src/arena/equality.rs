//! Equality of values that live in arenas.

use crate::arena::handler::ArenaHandler;
use vstd::prelude::*;

verus! {

/// Equality of what two values denote, each read in its own arenas.
///
/// Handles are never compared: two values with equal handles may denote
/// different things in different arenas, and two values that denote the same
/// hold different handles when they live side by side.
pub trait ArenaEq<Arenas>: ArenaHandler<Arenas> {
    /// What a value denotes once every handle is followed.
    type Value;

    /// What the value denotes in the arenas.
    spec fn value_in(&self, arenas: &Arenas) -> Self::Value;

    /// Whether `this`, read in `this_arenas`, denotes what `other` denotes,
    /// read in `other_arenas`.
    fn eq_in(this: &Self, other: &Self, this_arenas: &Arenas, other_arenas: &Arenas) -> (equal:
        bool)
        requires
            this.resolves_in(this_arenas),
            other.resolves_in(other_arenas),
        ensures
            equal == (this.value_in(this_arenas) == other.value_in(other_arenas)),
    ;
}

} // verus!
