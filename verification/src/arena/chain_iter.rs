//! Walking a chain across the arena of its elements and the arena of its
//! cells.

use crate::arena::chain::Chain;
use crate::arena::chain::ChainOrIndex;
use crate::arena::index::Index;
use crate::arena::occupant;
use crate::arena::Arena;
use crate::arena::ArenaItem;
use vstd::prelude::*;

verus! {

/// The handles of the next element and of the cell after it, seen from
/// `state`; `None` at the end of the list or where the cell does not resolve.
pub open spec fn next_link<T>(state: ChainOrIndex<T>, cells: Seq<Option<Chain<T>>>) -> Option<
    (Index<T>, Index<Chain<T>>),
> {
    match state {
        ChainOrIndex::Chain(Chain::Nil) => None,
        ChainOrIndex::Chain(Chain::Cons { head, tail }) => Some((head, tail)),
        ChainOrIndex::Index(index) => match occupant(cells, index@) {
            Some(Chain::Cons { head, tail }) => Some((head, tail)),
            _ => None,
        },
    }
}

/// The next element and the handle of the cell after it, seen from `state`;
/// `None` at the end of the list or where a handle does not resolve.
pub open spec fn next_item<T>(
    state: ChainOrIndex<T>,
    heads: Seq<Option<T>>,
    cells: Seq<Option<Chain<T>>>,
) -> Option<(T, Index<Chain<T>>)> {
    match next_link(state, cells) {
        None => None,
        Some((head, tail)) => match occupant(heads, head@) {
            Some(value) => Some((value, tail)),
            None => None,
        },
    }
}

/// The walk from `state` comes to its end after at most `steps` elements.
pub open spec fn ends_within<T>(
    state: ChainOrIndex<T>,
    heads: Seq<Option<T>>,
    cells: Seq<Option<Chain<T>>>,
    steps: nat,
) -> bool
    decreases steps,
{
    match next_item(state, heads, cells) {
        None => true,
        Some((_, tail)) => steps > 0 && ends_within(
            ChainOrIndex::Index(tail),
            heads,
            cells,
            (steps - 1) as nat,
        ),
    }
}

/// The elements that the walk from `state` meets, in order, up to `steps` of
/// them.
pub open spec fn items_within<T>(
    state: ChainOrIndex<T>,
    heads: Seq<Option<T>>,
    cells: Seq<Option<Chain<T>>>,
    steps: nat,
) -> Seq<T>
    decreases steps,
{
    match next_item(state, heads, cells) {
        None => Seq::empty(),
        Some((value, tail)) => if steps == 0 {
            Seq::empty()
        } else {
            seq![value] + items_within(ChainOrIndex::Index(tail), heads, cells, (steps - 1) as nat)
        },
    }
}

/// The walk from `state` is finite.
pub open spec fn walk_ends<T>(
    state: ChainOrIndex<T>,
    heads: Seq<Option<T>>,
    cells: Seq<Option<Chain<T>>>,
) -> bool {
    exists|steps: nat| ends_within(state, heads, cells, steps)
}

/// The elements of the finite walk from `state`, in order from the first.
pub open spec fn walk_items<T>(
    state: ChainOrIndex<T>,
    heads: Seq<Option<T>>,
    cells: Seq<Option<Chain<T>>>,
) -> Seq<T> {
    items_within(state, heads, cells, choose|steps: nat| ends_within(state, heads, cells, steps))
}

/// `chain` is a list of exactly the elements `items`: one cell for each, every
/// handle resolving, and the end of the list after the last.
pub open spec fn is_chain_of<T>(
    chain: Chain<T>,
    heads: Seq<Option<T>>,
    cells: Seq<Option<Chain<T>>>,
    items: Seq<T>,
) -> bool
    decreases items.len(),
{
    if items.len() == 0 {
        chain is Nil
    } else {
        match chain {
            Chain::Nil => false,
            Chain::Cons { head, tail } => {
                &&& occupant(heads, head@) == Some(items[0])
                &&& occupant(cells, tail@) is Some
                &&& is_chain_of(occupant(cells, tail@)->0, heads, cells, items.skip(1))
            },
        }
    }
}

/// A walk that ends within some number of steps ends within any greater
/// number, and meets the same elements.
pub proof fn lemma_walk_steps<T>(
    state: ChainOrIndex<T>,
    heads: Seq<Option<T>>,
    cells: Seq<Option<Chain<T>>>,
    steps: nat,
    more: nat,
)
    requires
        ends_within(state, heads, cells, steps),
        steps <= more,
    ensures
        ends_within(state, heads, cells, more),
        items_within(state, heads, cells, more) == items_within(state, heads, cells, steps),
        items_within(state, heads, cells, steps).len() <= steps,
    decreases steps,
{
    match next_item(state, heads, cells) {
        None => {},
        Some((_, tail)) => {
            lemma_walk_steps(
                ChainOrIndex::Index(tail),
                heads,
                cells,
                (steps - 1) as nat,
                (more - 1) as nat,
            );
        },
    }
}

/// The elements of a finite walk, whatever bound on its length is known.
pub proof fn lemma_walk_items<T>(
    state: ChainOrIndex<T>,
    heads: Seq<Option<T>>,
    cells: Seq<Option<Chain<T>>>,
    steps: nat,
)
    requires
        ends_within(state, heads, cells, steps),
    ensures
        walk_ends(state, heads, cells),
        walk_items(state, heads, cells) == items_within(state, heads, cells, steps),
{
    let chosen = choose|n: nat| ends_within(state, heads, cells, n);
    if chosen <= steps {
        lemma_walk_steps(state, heads, cells, chosen, steps);
    } else {
        lemma_walk_steps(state, heads, cells, steps, chosen);
    }
}

/// One step of a finite walk: the first element, then the walk from the cell
/// after it.
pub proof fn lemma_walk_unfold<T>(
    state: ChainOrIndex<T>,
    heads: Seq<Option<T>>,
    cells: Seq<Option<Chain<T>>>,
)
    requires
        walk_ends(state, heads, cells),
    ensures
        match next_item(state, heads, cells) {
            None => walk_items(state, heads, cells) == Seq::<T>::empty(),
            Some((value, tail)) => {
                &&& walk_ends(ChainOrIndex::Index(tail), heads, cells)
                &&& walk_items(state, heads, cells) == seq![value] + walk_items(
                    ChainOrIndex::Index(tail),
                    heads,
                    cells,
                )
            },
        },
{
    let steps = choose|n: nat| ends_within(state, heads, cells, n);
    match next_item(state, heads, cells) {
        None => {},
        Some((value, tail)) => {
            lemma_walk_items(ChainOrIndex::Index(tail), heads, cells, (steps - 1) as nat);
        },
    }
}

/// Walking a list of `n` cells whose handles all resolve is finite and meets
/// exactly its `n` elements, in order from the head; the empty list yields
/// none.
pub proof fn lemma_walk_of_chain<T>(
    chain: Chain<T>,
    heads: Seq<Option<T>>,
    cells: Seq<Option<Chain<T>>>,
    items: Seq<T>,
)
    requires
        is_chain_of(chain, heads, cells, items),
    ensures
        walk_ends(ChainOrIndex::Chain(chain), heads, cells),
        walk_items(ChainOrIndex::Chain(chain), heads, cells) == items,
{
    lemma_steps_of_chain(chain, heads, cells, items);
    lemma_walk_items(ChainOrIndex::Chain(chain), heads, cells, items.len());
}

proof fn lemma_steps_of_chain<T>(
    chain: Chain<T>,
    heads: Seq<Option<T>>,
    cells: Seq<Option<Chain<T>>>,
    items: Seq<T>,
)
    requires
        is_chain_of(chain, heads, cells, items),
    ensures
        ends_within(ChainOrIndex::Chain(chain), heads, cells, items.len()),
        items_within(ChainOrIndex::Chain(chain), heads, cells, items.len()) == items,
    decreases items.len(),
{
    if items.len() == 0 {
        assert(items =~= Seq::<T>::empty());
    } else {
        match chain {
            Chain::Nil => {},
            Chain::Cons { head, tail } => {
                let rest = occupant(cells, tail@)->0;
                lemma_steps_of_chain(rest, heads, cells, items.skip(1));
                let here = ChainOrIndex::Chain(chain);
                let there = ChainOrIndex::Index(tail);
                let after = ChainOrIndex::Chain(rest);
                let n = (items.len() - 1) as nat;
                assert(next_item(there, heads, cells) == next_item(after, heads, cells));
                assert(ends_within(there, heads, cells, n) == ends_within(after, heads, cells, n));
                assert(items_within(there, heads, cells, n) == items_within(
                    after,
                    heads,
                    cells,
                    n,
                ));
                assert(items =~= seq![items[0]] + items.skip(1));
            },
        }
    }
}

/// Runs `func` on `element`, which it may change in place.
fn apply_in_place<T, U, F: Fn(&mut T) -> U>(func: &F, element: &mut T) -> (output: U)
    requires
        forall|e: &mut T| *e == *old(element) ==> call_requires(*func, (e,)),
    ensures
        exists|e: &mut T|
            {
                &&& *e == *old(element)
                &&& *final(e) == *final(element)
                &&& #[trigger] call_ensures(*func, (e,), output)
            },
{
    func(element)
}

/// A walk along a chain that maps each element through a function of a
/// shared reference to it. Nothing is read before it is asked for.
pub struct Iter<'a, T, HeadA, ChainA, F> {
    chain_or_index: ChainOrIndex<T>,
    head_arena: &'a HeadA,
    chain_arena: &'a ChainA,
    func: F,
}

/// A walk along a chain that maps each element through a function of an
/// exclusive reference to it: the element is taken out of its arena, handed
/// to the function, and put back as the function left it.
pub struct IterMut<'a, T, HeadA, ChainA, F> {
    /// Where the walk stands.
    pub chain_or_index: ChainOrIndex<T>,
    /// The arena in which elements are resolved.
    pub head_arena: &'a mut HeadA,
    /// The arena in which cells are resolved.
    pub chain_arena: &'a ChainA,
    /// The function applied to each element.
    pub func: F,
}

impl<T: ArenaItem> Chain<T> {
    /// A walk from this cell that resolves elements in `head_arena` and cells
    /// in `chain_arena`, and yields `func` of each element.
    pub fn iter<'a, U, HeadA: Arena<T>, ChainA: Arena<Chain<T>>, F: Fn(&T) -> U>(
        &'a self,
        head_arena: &'a HeadA,
        chain_arena: &'a ChainA,
        func: F,
    ) -> (walk: Iter<'a, T, HeadA, ChainA, F>)
        ensures
            walk.state() == ChainOrIndex::Chain(*self),
            walk.head_arena() == head_arena,
            walk.chain_arena() == chain_arena,
            walk.func() == func,
    {
        Iter { chain_or_index: ChainOrIndex::Chain(self.clone()), head_arena, chain_arena, func }
    }

    /// A walk from this cell that resolves elements in `head_arena` and cells
    /// in `chain_arena`, and yields `func` of each element, which `func` may
    /// change in place.
    pub fn iter_mut<'a, U, HeadA: Arena<T>, ChainA: Arena<Chain<T>>, F: Fn(&mut T) -> U>(
        &'a self,
        head_arena: &'a mut HeadA,
        chain_arena: &'a ChainA,
        func: F,
    ) -> (walk: IterMut<'a, T, HeadA, ChainA, F>)
        ensures
            walk.chain_or_index == ChainOrIndex::Chain(*self),
            *walk.head_arena == *old(head_arena),
            *final(walk.head_arena) == *final(head_arena),
            walk.chain_arena == chain_arena,
            walk.func == func,
    {
        IterMut { chain_or_index: ChainOrIndex::Chain(self.clone()), head_arena, chain_arena, func }
    }
}

impl<'a, T: ArenaItem, U, HeadA: Arena<T>, ChainA: Arena<Chain<T>>, F: Fn(&T) -> U> Iter<
    'a,
    T,
    HeadA,
    ChainA,
    F,
> {
    /// Where the walk stands.
    pub closed spec fn state(&self) -> ChainOrIndex<T> {
        self.chain_or_index
    }

    /// The arena in which elements are resolved.
    pub closed spec fn head_arena(&self) -> &HeadA {
        self.head_arena
    }

    /// The arena in which cells are resolved.
    pub closed spec fn chain_arena(&self) -> &ChainA {
        self.chain_arena
    }

    /// The function applied to each element.
    pub closed spec fn func(&self) -> F {
        self.func
    }

    /// What the walk will meet next: an element and the handle of the cell
    /// after it, or nothing.
    pub open spec fn upcoming(&self) -> Option<(T, Index<Chain<T>>)> {
        next_item(self.state(), self.head_arena().slots(), self.chain_arena().slots())
    }

    /// The next output of the walk, or `None` at the end of the list. A handle
    /// that does not resolve ends the walk in the same way, silently.
    pub fn next(&mut self) -> (r: Option<U>)
        requires
            old(self).head_arena().wf(),
            old(self).chain_arena().wf(),
            old(self).upcoming() matches Some((value, _)) ==> call_requires(
                old(self).func(),
                (&value,),
            ),
        ensures
            final(self).head_arena() == old(self).head_arena(),
            final(self).chain_arena() == old(self).chain_arena(),
            final(self).func() == old(self).func(),
            match old(self).upcoming() {
                None => r is None && final(self).state() == old(self).state(),
                Some((value, tail)) => {
                    &&& r is Some
                    &&& call_ensures(old(self).func(), (&value,), r->0)
                    &&& final(self).state() == ChainOrIndex::Index(tail)
                },
            },
    {
        let (head, tail) = match &self.chain_or_index {
            ChainOrIndex::Chain(chain) => match chain {
                Chain::Nil => {
                    return None;
                },
                Chain::Cons { head, tail } => (head.clone(), tail.clone()),
            },
            ChainOrIndex::Index(index) => match self.chain_arena.peek(index) {
                Ok(Chain::Cons { head, tail }) => (head.clone(), tail.clone()),
                _ => {
                    return None;
                },
            },
        };
        match self.head_arena.peek(&head) {
            Ok(value) => {
                let output = (self.func)(value);
                self.chain_or_index = ChainOrIndex::Index(tail);
                Some(output)
            },
            Err(_) => None,
        }
    }

    /// Every output of the walk, in order, for a walk that is finite.
    pub fn collect(self) -> (outputs: Vec<U>)
        requires
            self.head_arena().wf(),
            self.chain_arena().wf(),
            walk_ends(self.state(), self.head_arena().slots(), self.chain_arena().slots()),
            forall|i: int|
                0 <= i < walk_items(
                    self.state(),
                    self.head_arena().slots(),
                    self.chain_arena().slots(),
                ).len() ==> call_requires(
                    self.func(),
                    (
                        &#[trigger] walk_items(
                            self.state(),
                            self.head_arena().slots(),
                            self.chain_arena().slots(),
                        )[i],
                    ),
                ),
        ensures
            outputs@.len() == walk_items(
                self.state(),
                self.head_arena().slots(),
                self.chain_arena().slots(),
            ).len(),
            forall|i: int|
                0 <= i < outputs@.len() ==> call_ensures(
                    self.func(),
                    (
                        &walk_items(
                            self.state(),
                            self.head_arena().slots(),
                            self.chain_arena().slots(),
                        )[i],
                    ),
                    #[trigger] outputs@[i],
                ),
    {
        let mut walk = self;
        let mut outputs: Vec<U> = Vec::new();
        let ghost heads = self.head_arena().slots();
        let ghost cells = self.chain_arena().slots();
        let ghost all = walk_items(self.state(), heads, cells);
        let ghost mut steps: nat = choose|n: nat| ends_within(self.state(), heads, cells, n);
        loop
            invariant
                walk.head_arena() == self.head_arena(),
                walk.chain_arena() == self.chain_arena(),
                walk.func() == self.func(),
                heads == self.head_arena().slots(),
                cells == self.chain_arena().slots(),
                walk.head_arena().wf(),
                walk.chain_arena().wf(),
                forall|i: int|
                    0 <= i < all.len() ==> call_requires(self.func(), (&#[trigger] all[i],)),
                ends_within(walk.state(), heads, cells, steps),
                all == walk_items(self.state(), heads, cells),
                outputs@.len() <= all.len(),
                all == all.take(outputs@.len() as int) + walk_items(walk.state(), heads, cells),
                forall|i: int|
                    0 <= i < outputs@.len() ==> call_ensures(
                        self.func(),
                        (&all[i],),
                        #[trigger] outputs@[i],
                    ),
            ensures
                outputs@.len() == all.len(),
                forall|i: int|
                    0 <= i < outputs@.len() ==> call_ensures(
                        self.func(),
                        (&all[i],),
                        #[trigger] outputs@[i],
                    ),
            decreases steps,
        {
            let ghost before = walk.state();
            let ghost done = outputs@.len() as int;
            proof {
                lemma_walk_items(walk.state(), heads, cells, steps);
                lemma_walk_unfold(walk.state(), heads, cells);
                if let Some((value, tail)) = next_item(before, heads, cells) {
                    let rest = walk_items(ChainOrIndex::Index(tail), heads, cells);
                    assert(all == all.take(done) + (seq![value] + rest));
                    assert(all[done] == value);
                }
            }
            match walk.next() {
                None => {
                    proof {
                        assert(all =~= all.take(done));
                    }
                    break ;
                },
                Some(output) => {
                    outputs.push(output);
                    proof {
                        let item = next_item(before, heads, cells)->0;
                        let rest = walk_items(ChainOrIndex::Index(item.1), heads, cells);
                        assert(all == all.take(done) + (seq![item.0] + rest));
                        assert(all[done] == item.0);
                        assert(all.take(done + 1) =~= all.take(done).push(item.0));
                        assert(all =~= all.take(done + 1) + rest);
                        steps = (steps - 1) as nat;
                    }
                },
            }
        }
        outputs
    }
}

impl<'a, T: ArenaItem, U, HeadA: Arena<T>, ChainA: Arena<Chain<T>>, F: Fn(&mut T) -> U> IterMut<
    'a,
    T,
    HeadA,
    ChainA,
    F,
> {
    /// The position of the element that the walk will meet next.
    pub open spec fn upcoming_head(&self) -> int
        recommends
            self.upcoming() is Some,
    {
        match next_link(self.chain_or_index, self.chain_arena.slots()) {
            Some((head, _)) => head@,
            None => 0,
        }
    }

    /// What the walk will meet next: an element and the handle of the cell
    /// after it, or nothing.
    pub open spec fn upcoming(&self) -> Option<(T, Index<Chain<T>>)> {
        next_item(self.chain_or_index, self.head_arena.slots(), self.chain_arena.slots())
    }

    /// The next output of the walk, or `None` at the end of the list. A handle
    /// that does not resolve ends the walk in the same way, silently.
    ///
    /// The element is out of its arena while the function runs, and goes back
    /// into its slot as the function left it.
    pub fn next(&mut self) -> (r: Option<U>)
        requires
            old(self).head_arena.wf(),
            old(self).chain_arena.wf(),
            old(self).upcoming() matches Some((value, _)) ==> forall|element: &mut T|
                *element == value ==> call_requires(old(self).func, (element,)),
        ensures
            final(self).head_arena.wf(),
            final(self).head_arena.capacity() == old(self).head_arena.capacity(),
            *final(final(self).head_arena) == *final(old(self).head_arena),
            final(self).chain_arena == old(self).chain_arena,
            final(self).func == old(self).func,
            match old(self).upcoming() {
                None => {
                    &&& r is None
                    &&& final(self).chain_or_index == old(self).chain_or_index
                    &&& final(self).head_arena.slots() == old(self).head_arena.slots()
                },
                Some((value, tail)) => {
                    &&& final(self).chain_or_index == ChainOrIndex::Index(tail)
                    &&& exists|element: &mut T, output: U|
                        {
                            &&& r == Some(output)
                            &&& *element == value
                            &&& #[trigger] call_ensures(old(self).func, (element,), output)
                            &&& final(self).head_arena.slots() == old(self).head_arena.slots().update(
                                old(self).upcoming_head(),
                                Some(*final(element)),
                            )
                        }
                },
            },
    {
        let (head, tail) = match &self.chain_or_index {
            ChainOrIndex::Chain(chain) => match chain {
                Chain::Nil => {
                    return None;
                },
                Chain::Cons { head, tail } => (head.clone(), tail.clone()),
            },
            ChainOrIndex::Index(index) => match self.chain_arena.peek(index) {
                Ok(Chain::Cons { head, tail }) => (head.clone(), tail.clone()),
                _ => {
                    return None;
                },
            },
        };
        let ghost before = self.head_arena.slots();
        match self.head_arena.take(head.clone()) {
            Ok(value) => {
                let mut element = value;
                let output = apply_in_place(&self.func, &mut element);
                let _ = self.head_arena.insert(head, element);
                proof {
                    assert(self.head_arena.slots() =~= before.update(head@, Some(element)));
                }
                self.chain_or_index = ChainOrIndex::Index(tail);
                Some(output)
            },
            Err(_) => None,
        }
    }
}

} // verus!
