//! The seal of right-nested tuples.

use vstd::prelude::*;

verus! {

/// Implemented by `()` and by every pair whose second part is a right-nested
/// tuple, and by nothing else.
pub trait Sealed {

}

impl Sealed for () {

}

impl<T, TS: crate::arena::tuple::RightTuple> Sealed for (T, TS) {

}

} // verus!
