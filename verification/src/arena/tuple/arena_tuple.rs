//! The seal of tuples of arenas.

use vstd::prelude::*;

verus! {

/// Implemented by `()` and by pairs, and by nothing else.
pub trait Sealed {

}

impl Sealed for () {

}

impl<A, AS> Sealed for (A, AS) {

}

} // verus!
