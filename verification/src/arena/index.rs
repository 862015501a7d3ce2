//! Typed numeric handles into an arena.

pub mod order;

use core::marker::PhantomData;
use vstd::prelude::*;
use vstd::std_specs::convert::FromSpecImpl;

verus! {

/// A handle to one slot of an arena of `T`.
///
/// A handle owns nothing. It is deliberately not `Copy`: duplicating one is
/// always an explicit `clone`, so that sharing of a slot never goes unnoticed.
#[derive(PartialEq, Eq, Ord, Debug)]
pub struct Index<T>(u16, PhantomData<T>);

impl<T> View for Index<T> {
    type V = int;

    /// The position that the handle names.
    closed spec fn view(&self) -> int {
        self.0 as int
    }
}

impl<T> Clone for Index<T> {
    fn clone(&self) -> (copy: Self)
        ensures
            copy == *self,
    {
        Index(self.0, PhantomData)
    }
}

impl Index<()> {
    /// Gives an untyped handle the payload type `T`, keeping its position.
    pub fn transmute<T>(self) -> (typed: Index<T>)
        ensures
            typed@ == self@,
    {
        Index(self.0, PhantomData)
    }
}

impl<T> Index<T> {
    /// The handle of type `T` at the given position.
    pub open spec fn at(position: int) -> Self
        recommends
            0 <= position <= u16::MAX,
    {
        choose|index: Self| index@ == position
    }

    /// The handle to position `index`.
    pub fn new(index: u16) -> (handle: Self)
        ensures
            handle@ == index,
            handle == Self::at(index as int),
    {
        let handle = Index(index, PhantomData);
        proof {
            Self::lemma_view_injective(handle, Self::at(index as int));
        }
        handle
    }

    /// The position that the handle names, as a number of sixteen bits.
    pub fn number(&self) -> (number: u16)
        ensures
            number == self@,
    {
        self.0
    }

    /// The position that the handle names, as an offset into a table.
    pub fn position(&self) -> (position: usize)
        ensures
            position == self@,
    {
        self.0 as usize
    }

    /// Forgets the payload type, keeping the position.
    pub fn erase(self) -> (untyped: Index<()>)
        ensures
            untyped@ == self@,
    {
        Index(self.0, PhantomData)
    }

    /// Moves the handle `inc` positions forward.
    pub fn increment_by(&mut self, inc: u16)
        requires
            old(self)@ + inc <= u16::MAX,
        ensures
            final(self)@ == old(self)@ + inc,
    {
        self.0 = self.0 + inc;
    }

    /// Every handle names a position that fits in sixteen bits.
    pub proof fn lemma_view_range(self)
        ensures
            0 <= self@ <= u16::MAX,
    {
    }

    /// Handles of one type are equal exactly when they name the same position.
    pub proof fn lemma_view_injective(a: Self, b: Self)
        ensures
            a@ == b@ <==> a == b,
    {
    }
}

impl<T> From<Index<T>> for u16 {
    fn from(value: Index<T>) -> (position: u16) {
        value.0
    }
}

impl<T> FromSpecImpl<Index<T>> for u16 {
    open spec fn obeys_from_spec() -> bool {
        true
    }

    open spec fn from_spec(value: Index<T>) -> u16 {
        value@ as u16
    }
}

impl<T> From<Index<T>> for usize {
    fn from(value: Index<T>) -> (position: usize) {
        usize::from(value.0)
    }
}

impl<T> FromSpecImpl<Index<T>> for usize {
    open spec fn obeys_from_spec() -> bool {
        true
    }

    open spec fn from_spec(value: Index<T>) -> usize {
        value@ as usize
    }
}

} // verus!
