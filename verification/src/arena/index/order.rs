//! The order of handles: that of the positions that they name.

use crate::arena::index::Index;
use core::cmp::Ordering;
use vstd::prelude::*;
use vstd::std_specs::cmp::PartialOrdSpecImpl;

verus! {

impl<T: PartialEq> PartialOrd for Index<T> {
    /// Handles compare as their positions do.
    fn partial_cmp(&self, other: &Self) -> (order: Option<Ordering>) {
        let here = self.number();
        let there = other.number();
        if here < there {
            Some(Ordering::Less)
        } else if here == there {
            Some(Ordering::Equal)
        } else {
            Some(Ordering::Greater)
        }
    }
}

impl<T: PartialEq> PartialOrdSpecImpl for Index<T> {
    open spec fn obeys_partial_cmp_spec() -> bool {
        true
    }

    open spec fn partial_cmp_spec(&self, other: &Self) -> Option<Ordering> {
        if self@ < other@ {
            Some(Ordering::Less)
        } else if self@ == other@ {
            Some(Ordering::Equal)
        } else {
            Some(Ordering::Greater)
        }
    }
}

} // verus!
