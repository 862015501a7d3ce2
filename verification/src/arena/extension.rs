//! Operations that every arena has, built on those of [`Arena`].

use crate::arena::error::ArenaError;
use crate::arena::error::ArenaResult;
use crate::arena::index::Index;
use crate::arena::take_outcome;
use crate::arena::Arena;
use crate::arena::ArenaItem;
use vstd::prelude::*;

verus! {

/// The slots that hold the values of `values`, in order.
pub open spec fn filled<T>(values: Seq<T>) -> Seq<Option<T>> {
    Seq::new(values.len(), |i: int| Some(values[i]))
}

/// `indices` are the handles to `count` positions in a row, from `start` on.
pub open spec fn in_a_row<T>(indices: Seq<Index<T>>, start: int, count: int) -> bool {
    &&& indices.len() == count
    &&& forall|i: int| 0 <= i < count ==> (#[trigger] indices[i])@ == start + i
}

/// Allocating several values at once, and building something from their
/// handles.
pub trait AllocMany<T: ArenaItem>: Arena<T> {
    /// Allocates the values of `values` in order and returns what
    /// `constructor` makes of their handles.
    ///
    /// Where the arena has no room for all of them, those that it has room
    /// for are allocated all the same, the others are dropped, and the
    /// answer is `LimitReached`.
    fn alloc_many<U, F: FnOnce(Vec<Index<T>>) -> U>(&mut self, values: Vec<T>, constructor: F) -> (r:
        ArenaResult<U>)
        requires
            old(self).wf(),
            forall|indices: Vec<Index<T>>|
                in_a_row(indices@, old(self).slots().len() as int, values@.len() as int)
                    ==> call_requires(constructor, (indices,)),
        ensures
            final(self).wf(),
            final(self).capacity() == old(self).capacity(),
            old(self).slots().len() + values@.len() <= old(self).capacity() ==> {
                &&& final(self).slots() == old(self).slots() + filled(values@)
                &&& exists|indices: Vec<Index<T>>, made: U|
                    {
                        &&& r == Ok::<U, ArenaError>(made)
                        &&& in_a_row(
                            indices@,
                            old(self).slots().len() as int,
                            values@.len() as int,
                        )
                        &&& #[trigger] call_ensures(constructor, (indices,), made)
                    }
            },
            old(self).slots().len() + values@.len() > old(self).capacity() ==> {
                &&& r == Err::<U, ArenaError>(ArenaError::LimitReached)
                &&& final(self).slots() == old(self).slots() + filled(
                    values@.take(old(self).capacity() - old(self).slots().len()),
                )
            },
    {
        let ghost before = self.slots();
        let ghost all = values@;
        let mut indices: Vec<Index<T>> = Vec::new();
        proof {
            self.lemma_within_capacity();
            assert(before + filled(all.take(0)) =~= before);
        }
        for value in iter: values.into_iter()
            invariant
                self.wf(),
                self.capacity() == old(self).capacity(),
                before == old(self).slots(),
                all == iter.seq(),
                before.len() + iter.index() <= self.capacity(),
                self.slots() == before + filled(all.take(iter.index() as int)),
                in_a_row(indices@, before.len() as int, iter.index() as int),
        {
            let ghost done = iter.index() as int;
            match self.allocate(value) {
                Ok(index) => {
                    indices.push(index);
                    proof {
                        assert(all.take(done + 1) =~= all.take(done).push(value));
                        assert(self.slots() =~= before + filled(all.take(done + 1)));
                    }
                },
                Err(_) => {
                    return Err(ArenaError::LimitReached);
                },
            }
        }
        proof {
            assert(all.take(all.len() as int) =~= all);
        }
        Ok(constructor(indices))
    }
}

impl<T: ArenaItem, A: Arena<T>> AllocMany<T> for A {

}

/// Looking at a value where it is stored.
pub trait Inspect<T: ArenaItem>: Arena<T> {
    /// What `func` makes of the value in the slot at `index`. The arena is
    /// left as it is.
    fn inspect<U, F: FnOnce(&T) -> U>(&self, index: Index<T>, func: F) -> (r: ArenaResult<U>)
        requires
            self.wf(),
            take_outcome(self.slots(), index@) matches Ok(value) ==> call_requires(func, (&value,)),
        ensures
            match take_outcome(self.slots(), index@) {
                Ok(value) => r is Ok && call_ensures(func, (&value,), r->Ok_0),
                Err(e) => r == Err::<U, ArenaError>(e),
            },
    {
        match self.peek(&index) {
            Ok(value) => Ok(func(value)),
            Err(e) => Err(e),
        }
    }

    /// What `func` makes of the value in the slot at `index`, which it may
    /// change: the value is taken out of the slot, handed to `func`, and put
    /// back as `func` left it.
    fn inspect_mut<U, F: FnOnce(&mut T) -> U>(&mut self, index: Index<T>, func: F) -> (r:
        ArenaResult<U>)
        requires
            old(self).wf(),
            take_outcome(old(self).slots(), index@) matches Ok(value) ==> forall|element: &mut T|
                *element == value ==> call_requires(func, (element,)),
        ensures
            final(self).wf(),
            final(self).capacity() == old(self).capacity(),
            match take_outcome(old(self).slots(), index@) {
                Ok(value) => exists|element: &mut T, made: U|
                    {
                        &&& r == Ok::<U, ArenaError>(made)
                        &&& *element == value
                        &&& #[trigger] call_ensures(func, (element,), made)
                        &&& final(self).slots() == old(self).slots().update(
                            index@,
                            Some(*final(element)),
                        )
                    },
                Err(e) => r == Err::<U, ArenaError>(e) && final(self).slots() == old(self).slots(),
            },
    {
        let ghost before = self.slots();
        match self.take(index.clone()) {
            Ok(value) => {
                let mut element = value;
                let made = func(&mut element);
                let _ = self.insert(index, element);
                proof {
                    assert(self.slots() =~= before.update(index@, Some(element)));
                }
                Ok(made)
            },
            Err(e) => Err(e),
        }
    }
}

impl<T: ArenaItem, A: Arena<T>> Inspect<T> for A {

}

} // verus!
