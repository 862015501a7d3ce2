//! Values spread over several arenas, seen as plain data.
//!
//! A value stored in an arena may hold handles into other arenas, and what
//! those name may hold handles in turn. This module gives that web of slots a
//! mathematical reading: which slots a value reaches, whether it reaches each
//! only once, how much room a copy of it takes, and the tree that it denotes
//! once every handle is followed.

use vstd::prelude::*;

verus! {

/// One slot of one arena: the arena by its place in the tuple of arenas, the
/// slot by its position in that arena.
pub struct Slot {
    pub arena: int,
    pub position: int,
}

/// What a value is by itself: a label, and the slots that its handles name.
/// No value holds more than two handles.
pub struct Node<L> {
    pub label: L,
    pub first: Option<Slot>,
    pub second: Option<Slot>,
}

/// What a value denotes once its handles are followed to the end: its label,
/// and what the values behind its handles denote.
pub struct Tree<L> {
    pub label: L,
    pub first: Option<Box<Tree<L>>>,
    pub second: Option<Box<Tree<L>>>,
}

/// Every handle of `node` resolves in `heap`, and so does every handle met
/// from there, within `depth` levels.
pub open spec fn unfolds<L>(heap: Map<Slot, Node<L>>, node: Node<L>, depth: nat) -> bool
    decreases depth, 1nat,
{
    link_unfolds(heap, node.first, depth) && link_unfolds(heap, node.second, depth)
}

/// `unfolds`, for the value behind one handle.
pub open spec fn link_unfolds<L>(heap: Map<Slot, Node<L>>, link: Option<Slot>, depth: nat) -> bool
    decreases depth, 0nat,
{
    match link {
        None => true,
        Some(slot) => depth > 0 && heap.contains_key(slot) && unfolds(
            heap,
            heap[slot],
            (depth - 1) as nat,
        ),
    }
}

/// The tree that `node` denotes in `heap`.
pub open spec fn tree_of<L>(heap: Map<Slot, Node<L>>, node: Node<L>, depth: nat) -> Tree<L>
    decreases depth, 1nat,
{
    Tree {
        label: node.label,
        first: link_tree(heap, node.first, depth),
        second: link_tree(heap, node.second, depth),
    }
}

/// `tree_of`, for the value behind one handle.
pub open spec fn link_tree<L>(heap: Map<Slot, Node<L>>, link: Option<Slot>, depth: nat) -> Option<
    Box<Tree<L>>,
>
    decreases depth, 0nat,
{
    match link {
        None => None,
        Some(slot) => if depth > 0 {
            Some(Box::new(tree_of(heap, heap[slot], (depth - 1) as nat)))
        } else {
            None
        },
    }
}

/// The slots that are reached from `node` by following handles.
pub open spec fn footprint<L>(heap: Map<Slot, Node<L>>, node: Node<L>, depth: nat) -> Set<Slot>
    decreases depth, 1nat,
{
    link_footprint(heap, node.first, depth).union(link_footprint(heap, node.second, depth))
}

/// The slot that a handle names, with the slots reached from there.
pub open spec fn link_footprint<L>(heap: Map<Slot, Node<L>>, link: Option<Slot>, depth: nat) -> Set<
    Slot,
>
    decreases depth, 0nat,
{
    match link {
        None => Set::empty(),
        Some(slot) => if depth > 0 {
            footprint(heap, heap[slot], (depth - 1) as nat).insert(slot)
        } else {
            Set::empty().insert(slot)
        },
    }
}

/// `node` unfolds, and no slot is reached from it along two different ways:
/// the slots form a tree that `node` alone holds.
pub open spec fn owned<L>(heap: Map<Slot, Node<L>>, node: Node<L>, depth: nat) -> bool
    decreases depth, 1nat,
{
    &&& link_owned(heap, node.first, depth)
    &&& link_owned(heap, node.second, depth)
    &&& link_footprint(heap, node.first, depth).disjoint(
        link_footprint(heap, node.second, depth),
    )
}

/// `owned`, for the value behind one handle.
pub open spec fn link_owned<L>(heap: Map<Slot, Node<L>>, link: Option<Slot>, depth: nat) -> bool
    decreases depth, 0nat,
{
    match link {
        None => true,
        Some(slot) => {
            &&& depth > 0
            &&& heap.contains_key(slot)
            &&& owned(heap, heap[slot], (depth - 1) as nat)
            &&& !footprint(heap, heap[slot], (depth - 1) as nat).contains(slot)
        },
    }
}

/// How many slots of the arena `arena` are met when every handle from `node`
/// is followed, a slot met along two ways counting twice. A deep copy of
/// `node` takes this many new slots of that arena.
pub open spec fn weight<L>(heap: Map<Slot, Node<L>>, node: Node<L>, depth: nat, arena: int) -> nat
    decreases depth, 1nat,
{
    link_weight(heap, node.first, depth, arena) + link_weight(heap, node.second, depth, arena)
}

/// `weight`, for the value behind one handle, the slot that the handle names
/// included.
pub open spec fn link_weight<L>(
    heap: Map<Slot, Node<L>>,
    link: Option<Slot>,
    depth: nat,
    arena: int,
) -> nat
    decreases depth, 0nat,
{
    match link {
        None => 0,
        Some(slot) => {
            let here: nat = if slot.arena == arena {
                1
            } else {
                0
            };
            if depth > 0 {
                here + weight(heap, heap[slot], (depth - 1) as nat, arena)
            } else {
                here
            }
        },
    }
}

/// `other` holds at every slot of `slots` what `heap` holds there.
pub open spec fn agrees_on<L>(
    heap: Map<Slot, Node<L>>,
    other: Map<Slot, Node<L>>,
    slots: Set<Slot>,
) -> bool {
    forall|slot: Slot|
        #[trigger] slots.contains(slot) && heap.contains_key(slot) ==> other.contains_key(slot)
            && other[slot] == heap[slot]
}

/// What a node is, as far as handles go, does not depend on anything outside
/// its footprint, nor on how many levels more than needed are allowed.
pub proof fn lemma_same_reading<L>(
    heap: Map<Slot, Node<L>>,
    other: Map<Slot, Node<L>>,
    node: Node<L>,
    depth: nat,
    more: nat,
)
    requires
        unfolds(heap, node, depth),
        depth <= more,
        agrees_on(heap, other, footprint(heap, node, depth)),
    ensures
        unfolds(other, node, more),
        tree_of(other, node, more) == tree_of(heap, node, depth),
        footprint(other, node, more) == footprint(heap, node, depth),
        owned(other, node, more) == owned(heap, node, depth),
        forall|arena: int| weight(other, node, more, arena) == weight(heap, node, depth, arena),
        footprint(heap, node, depth).subset_of(heap.dom()),
    decreases depth, 1nat,
{
    let whole = footprint(heap, node, depth);
    assert forall|slot: Slot| #[trigger]
        link_footprint(heap, node.first, depth).contains(slot) implies whole.contains(slot) by {}
    assert forall|slot: Slot| #[trigger]
        link_footprint(heap, node.second, depth).contains(slot) implies whole.contains(slot) by {}
    lemma_same_link_reading(heap, other, node.first, depth, more);
    lemma_same_link_reading(heap, other, node.second, depth, more);
    assert forall|arena: int|
        weight(other, node, more, arena) == weight(heap, node, depth, arena) by {
        assert(link_weight(other, node.first, more, arena) == link_weight(
            heap,
            node.first,
            depth,
            arena,
        ));
        assert(link_weight(other, node.second, more, arena) == link_weight(
            heap,
            node.second,
            depth,
            arena,
        ));
    }
}

/// `lemma_same_reading`, for the value behind one handle.
pub proof fn lemma_same_link_reading<L>(
    heap: Map<Slot, Node<L>>,
    other: Map<Slot, Node<L>>,
    link: Option<Slot>,
    depth: nat,
    more: nat,
)
    requires
        link_unfolds(heap, link, depth),
        depth <= more,
        agrees_on(heap, other, link_footprint(heap, link, depth)),
    ensures
        link_unfolds(other, link, more),
        link_tree(other, link, more) == link_tree(heap, link, depth),
        link_footprint(other, link, more) == link_footprint(heap, link, depth),
        link_owned(other, link, more) == link_owned(heap, link, depth),
        forall|arena: int|
            link_weight(other, link, more, arena) == link_weight(heap, link, depth, arena),
        link_footprint(heap, link, depth).subset_of(heap.dom()),
    decreases depth, 0nat,
{
    match link {
        None => {},
        Some(slot) => {
            let whole = link_footprint(heap, link, depth);
            let below = footprint(heap, heap[slot], (depth - 1) as nat);
            assert(whole.contains(slot));
            assert forall|inner: Slot| #[trigger] below.contains(inner) implies whole.contains(
                inner,
            ) by {}
            lemma_same_reading(heap, other, heap[slot], (depth - 1) as nat, (more - 1) as nat);
            assert forall|arena: int|
                link_weight(other, link, more, arena) == link_weight(heap, link, depth, arena) by {
                assert(weight(other, other[slot], (more - 1) as nat, arena) == weight(
                    heap,
                    heap[slot],
                    (depth - 1) as nat,
                    arena,
                ));
            }
        },
    }
}

/// A value that holds its slots alone unfolds.
pub proof fn lemma_owned_unfolds<L>(heap: Map<Slot, Node<L>>, node: Node<L>, depth: nat)
    requires
        owned(heap, node, depth),
    ensures
        unfolds(heap, node, depth),
    decreases depth, 1nat,
{
    lemma_link_owned_unfolds(heap, node.first, depth);
    lemma_link_owned_unfolds(heap, node.second, depth);
}

/// `lemma_owned_unfolds`, for the value behind one handle.
pub proof fn lemma_link_owned_unfolds<L>(heap: Map<Slot, Node<L>>, link: Option<Slot>, depth: nat)
    requires
        link_owned(heap, link, depth),
    ensures
        link_unfolds(heap, link, depth),
    decreases depth, 0nat,
{
    match link {
        None => {},
        Some(slot) => {
            lemma_owned_unfolds(heap, heap[slot], (depth - 1) as nat);
        },
    }
}

/// The slot that is reached from `node` by following second handles `steps`
/// times: the cell that stands `steps` cells down a chain.
pub open spec fn spine_slot<L>(heap: Map<Slot, Node<L>>, node: Node<L>, steps: nat) -> Option<Slot>
    decreases steps,
{
    if steps == 0 {
        None
    } else if steps == 1 {
        node.second
    } else {
        match node.second {
            Some(slot) => spine_slot(heap, heap[slot], (steps - 1) as nat),
            None => None,
        }
    }
}

/// `tree` with `sub` in the place of what stands `steps` second handles
/// down.
pub open spec fn graft_end<L>(tree: Tree<L>, steps: nat, sub: Tree<L>) -> Tree<L>
    decreases steps,
{
    if steps == 0 {
        sub
    } else {
        match tree.second {
            Some(rest) => Tree {
                label: tree.label,
                first: tree.first,
                second: Some(Box::new(graft_end(*rest, (steps - 1) as nat, sub))),
            },
            None => tree,
        }
    }
}

/// Grafting at the end of a graft is grafting the grafted.
pub proof fn lemma_graft_twice<L>(tree: Tree<L>, steps: nat, sub: Tree<L>, more: nat, last: Tree<L>)
    ensures
        graft_end(graft_end(tree, steps, sub), steps + more, last) == graft_end(
            tree,
            steps,
            graft_end(sub, more, last),
        ),
    decreases steps,
{
    if steps > 0 {
        match tree.second {
            Some(rest) => {
                lemma_graft_twice(*rest, (steps - 1) as nat, sub, more, last);
            },
            None => {},
        }
    }
}

/// The slot at the end of a spine is one of the slots of the value.
pub proof fn lemma_spine_in_footprint<L>(
    heap: Map<Slot, Node<L>>,
    node: Node<L>,
    steps: nat,
    depth: nat,
)
    requires
        unfolds(heap, node, depth),
        spine_slot(heap, node, steps) is Some,
    ensures
        link_footprint(heap, node.second, depth).contains(spine_slot(heap, node, steps)->0),
        steps <= depth,
    decreases steps,
{
    if steps > 1 {
        let slot = node.second->0;
        lemma_spine_in_footprint(heap, heap[slot], (steps - 1) as nat, (depth - 1) as nat);
    }
}

/// Grafting a tree where the same tree stands already changes nothing.
pub proof fn lemma_graft_same<L>(
    heap: Map<Slot, Node<L>>,
    node: Node<L>,
    steps: nat,
    depth: nat,
    sub: Tree<L>,
)
    requires
        unfolds(heap, node, depth),
        steps >= 1,
        spine_slot(heap, node, steps) matches Some(end) && tree_of(
            heap,
            heap[end],
            (depth - steps) as nat,
        ) == sub,
    ensures
        graft_end(tree_of(heap, node, depth), steps, sub) == tree_of(heap, node, depth),
    decreases steps,
{
    lemma_spine_in_footprint(heap, node, steps, depth);
    let slot = node.second->0;
    let whole = tree_of(heap, node, depth);
    let rest = tree_of(heap, heap[slot], (depth - 1) as nat);
    assert(link_unfolds(heap, node.second, depth));
    assert(whole.second == Some(Box::new(rest)));
    if steps > 1 {
        lemma_graft_same(heap, heap[slot], (steps - 1) as nat, (depth - 1) as nat, sub);
        assert(graft_end(rest, (steps - 1) as nat, sub) == rest);
    } else {
        assert(graft_end(rest, 0, sub) == sub);
    }
}

/// `other` holds at every slot of `heap` but `end` what `heap` holds there.
pub open spec fn same_but_at<L>(heap: Map<Slot, Node<L>>, other: Map<Slot, Node<L>>, end: Slot) -> bool {
    forall|slot: Slot|
        #[trigger] heap.contains_key(slot) && slot != end ==> other.contains_key(slot)
            && other[slot] == heap[slot]
}

/// Writing a value into the empty cell at the end of a spine grafts it
/// there: the whole is owned as before, reaches the slots of the value
/// besides its own, and denotes its own tree with that of the value at the
/// end.
///
/// `other` holds what `heap` holds but at `end`, where it holds `value`, and
/// at slots that `heap` does not have.
pub proof fn lemma_patched<L>(
    heap: Map<Slot, Node<L>>,
    other: Map<Slot, Node<L>>,
    node: Node<L>,
    steps: nat,
    depth: nat,
    end: Slot,
    value: Node<L>,
)
    requires
        owned(heap, node, depth),
        steps >= 1,
        spine_slot(heap, node, steps) == Some(end),
        heap.contains_key(end),
        heap[end].first is None,
        heap[end].second is None,
        same_but_at(heap, other, end),
        other.contains_key(end),
        other[end] == value,
        owned(other, value, (depth - steps) as nat),
        forall|slot: Slot| #[trigger]
            footprint(other, value, (depth - steps) as nat).contains(slot) ==> !heap.contains_key(
                slot,
            ),
    ensures
        steps <= depth,
        owned(other, node, depth),
        footprint(other, node, depth) == footprint(heap, node, depth).union(
            footprint(other, value, (depth - steps) as nat),
        ),
        tree_of(other, node, depth) == graft_end(
            tree_of(heap, node, depth),
            steps,
            tree_of(other, value, (depth - steps) as nat),
        ),
    decreases steps,
{
    let below = (depth - 1) as nat;
    let rest = (depth - steps) as nat;
    let added = footprint(other, value, rest);
    lemma_owned_unfolds(heap, node, depth);
    lemma_spine_in_footprint(heap, node, steps, depth);
    let slot = node.second->0;
    let first_part = link_footprint(heap, node.first, depth);
    let second_part = link_footprint(heap, node.second, depth);
    // The first handle reaches nothing that has changed.
    assert(agrees_on(heap, other, first_part)) by {
        assert forall|at: Slot| #[trigger]
            first_part.contains(at) && heap.contains_key(at) implies other.contains_key(at)
            && other[at] == heap[at] by {
            assert(second_part.contains(end));
            assert(at != end);
        }
    }
    lemma_same_link_reading(heap, other, node.first, depth, depth);
    lemma_same_link_reading(heap, heap, node.second, depth, depth);
    assert(link_unfolds(heap, node.second, depth));
    assert(link_owned(heap, node.second, depth));
    let whole = tree_of(heap, node, depth);
    assert(whole.second == Some(Box::new(tree_of(heap, heap[slot], below))));
    if steps == 1 {
        assert(slot == end);
        assert(footprint(heap, heap[end], below) =~= Set::<Slot>::empty());
        assert(link_footprint(other, node.second, depth) =~= second_part.union(added));
        assert(graft_end(tree_of(heap, heap[slot], below), 0, tree_of(other, value, rest))
            == tree_of(other, value, rest));
    } else {
        assert(slot != end) by {
            lemma_spine_in_footprint(heap, heap[slot], (steps - 1) as nat, below);
            assert(footprint(heap, heap[slot], below).contains(end));
        }
        lemma_patched(heap, other, heap[slot], (steps - 1) as nat, below, end, value);
        assert(other[slot] == heap[slot]);
        assert(!added.contains(slot));
        assert(!footprint(heap, heap[slot], below).contains(slot));
        assert(!footprint(other, other[slot], below).contains(slot));
        assert(link_footprint(other, node.second, depth) =~= second_part.union(added));
    }
    assert(footprint(other, node, depth) =~= footprint(heap, node, depth).union(added));
    assert(link_footprint(other, node.first, depth).disjoint(
        link_footprint(other, node.second, depth),
    )) by {
        assert forall|at: Slot| first_part.contains(at) implies !second_part.union(
            added,
        ).contains(at) by {
            assert(heap.dom().contains(at));
        }
    }
}

/// Once a value is written into the cell at the end of a spine, the spine
/// is one cell longer and ends where the second handle of the value points.
pub proof fn lemma_spine_extended<L>(
    heap: Map<Slot, Node<L>>,
    other: Map<Slot, Node<L>>,
    node: Node<L>,
    steps: nat,
    depth: nat,
    end: Slot,
    value: Node<L>,
)
    requires
        owned(heap, node, depth),
        steps >= 1,
        spine_slot(heap, node, steps) == Some(end),
        same_but_at(heap, other, end),
        other[end] == value,
    ensures
        spine_slot(other, node, steps + 1) == value.second,
    decreases steps,
{
    lemma_owned_unfolds(heap, node, depth);
    lemma_spine_in_footprint(heap, node, steps, depth);
    let slot = node.second->0;
    assert(link_unfolds(heap, node.second, depth));
    assert(link_owned(heap, node.second, depth));
    if steps == 1 {
        assert(spine_slot(other, other[slot], 1) == value.second);
    } else {
        let below = (depth - 1) as nat;
        assert(slot != end) by {
            lemma_spine_in_footprint(heap, heap[slot], (steps - 1) as nat, below);
            assert(footprint(heap, heap[slot], below).contains(end));
        }
        assert(other[slot] == heap[slot]);
        lemma_spine_extended(heap, other, heap[slot], (steps - 1) as nat, below, end, value);
    }
}

} // verus!
