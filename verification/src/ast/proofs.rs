//! What deep copies and deep drops do to the four arenas, and the lemmas
//! that the copying and dropping code rests on.

use crate::arena::graph::agrees_on;
use crate::arena::graph::footprint;
use crate::arena::graph::graft_end;
use crate::arena::graph::lemma_graft_same;
use crate::arena::graph::lemma_graft_twice;
use crate::arena::graph::lemma_patched;
use crate::arena::graph::lemma_spine_extended;
use crate::arena::graph::lemma_spine_in_footprint;
use crate::arena::graph::same_but_at;
use crate::arena::graph::spine_slot;
use crate::arena::graph::lemma_owned_unfolds;
use crate::arena::graph::lemma_same_reading;
use crate::arena::graph::link_footprint;
use crate::arena::graph::link_owned;
use crate::arena::graph::link_tree;
use crate::arena::graph::link_unfolds;
use crate::arena::graph::link_weight;
use crate::arena::graph::owned;
use crate::arena::graph::tree_of;
use crate::arena::graph::unfolds;
use crate::arena::graph::weight;
use crate::arena::graph::Node;
use crate::arena::graph::Slot;
use crate::arena::graph::Tree;
use crate::ast::store::slot;
use crate::ast::store::Label;
use crate::ast::store::Store;
use vstd::prelude::*;

verus! {

/// `arena` is the place of one of the four arenas.
pub open spec fn is_arena(arena: int) -> bool {
    0 <= arena < 4
}

/// The arena `arena` has grown, from `before` to `after`, by as many slots as
/// a deep copy of `node` takes in it.
pub open spec fn grown_by(before: Store, node: Node<Label>, after: Store, depth: nat, arena: int) -> bool {
    after.len_of(arena) == before.len_of(arena) + weight(before.heap(), node, depth, arena)
}

/// `copy`, in the store `after`, is a deep copy of `node`, made in the store
/// `before`:
/// - nothing that `before` held has changed, and the arenas have grown by
///   exactly the slots that the copy takes;
/// - the copy denotes what `node` denotes;
/// - the copy holds its slots alone, and all of them are new.
#[verifier::opaque]
pub open spec fn copied(
    before: Store,
    node: Node<Label>,
    after: Store,
    copy: Node<Label>,
    depth: nat,
) -> bool {
    &&& before.extended_by(after)
    &&& grown_by(before, node, after, depth, 0)
    &&& grown_by(before, node, after, depth, 1)
    &&& grown_by(before, node, after, depth, 2)
    &&& grown_by(before, node, after, depth, 3)
    &&& unfolds(after.heap(), copy, depth)
    &&& owned(after.heap(), copy, depth)
    &&& tree_of(after.heap(), copy, depth) == tree_of(before.heap(), node, depth)
    &&& forall|at: Slot| #[trigger]
        footprint(after.heap(), copy, depth).contains(at) ==> before.beyond(at)
}

/// A store that has only grown reads as before wherever it was read before.
pub proof fn lemma_extension(before: Store, after: Store, slots: Set<Slot>)
    requires
        before.extended_by(after),
    ensures
        agrees_on(before.heap(), after.heap(), slots),
        forall|at: Slot| #[trigger] before.heap().contains_key(at) ==> !before.beyond(at),
        forall|at: Slot| #[trigger] after.beyond(at) ==> before.beyond(at),
        forall|arena: int| #[trigger] before.len_of(arena) <= after.len_of(arena),
{
    assert forall|at: Slot| #[trigger]
        slots.contains(at) && before.heap().contains_key(at) implies after.heap().contains_key(at)
        && after.heap()[at] == before.heap()[at] by {
        assert(before.holds(at));
        assert(after.holds(at));
    }
}

/// Growing twice is growing.
pub proof fn lemma_extension_chain(first: Store, second: Store, third: Store)
    requires
        first.extended_by(second),
        second.extended_by(third),
    ensures
        first.extended_by(third),
{
}

/// A copy of a value, once stored in a new slot, is a copy of the handle to
/// the value.
///
/// `base` is the store in which the value was first read, `start` and `end` the
/// stores before and after the value behind the handle was copied, and
/// `last` a later store that holds that copy in the new slot `new`.
pub proof fn lemma_link_copied(
    base: Store,
    start: Store,
    end: Store,
    last: Store,
    old: Slot,
    new: Slot,
    child: Node<Label>,
    child_copy: Node<Label>,
    depth: nat,
)
    requires
        depth > 0,
        base.extended_by(start),
        end.extended_by(last),
        base.heap().contains_key(old),
        base.heap()[old] == child,
        unfolds(base.heap(), child, (depth - 1) as nat),
        copied(start, child, end, child_copy, (depth - 1) as nat),
        last.holds(new),
        last.node_at(new) == child_copy,
        end.beyond(new),
    ensures
        link_unfolds(last.heap(), Some(new), depth),
        link_owned(last.heap(), Some(new), depth),
        link_tree(last.heap(), Some(new), depth) == link_tree(base.heap(), Some(old), depth),
        link_footprint(last.heap(), Some(new), depth) == footprint(
            end.heap(),
            child_copy,
            (depth - 1) as nat,
        ).insert(new),
        forall|arena: int|
            #[trigger] weight(start.heap(), child, (depth - 1) as nat, arena) == weight(
                base.heap(),
                child,
                (depth - 1) as nat,
                arena,
            ),
        forall|at: Slot| #[trigger]
            footprint(end.heap(), child_copy, (depth - 1) as nat).contains(at) ==> start.beyond(at)
                && !end.beyond(at),
{
    reveal(copied);
    let below = (depth - 1) as nat;
    lemma_extension(base, start, footprint(base.heap(), child, below));
    lemma_same_reading(base.heap(), start.heap(), child, below, below);
    lemma_extension(end, last, footprint(end.heap(), child_copy, below));
    lemma_same_reading(end.heap(), last.heap(), child_copy, below, below);
    assert(last.heap().contains_key(new));
    assert(last.heap()[new] == child_copy);
    assert forall|at: Slot| #[trigger]
        footprint(end.heap(), child_copy, below).contains(at) implies start.beyond(at)
        && !end.beyond(at) by {
        assert(end.heap().dom().contains(at));
    }
}

/// The copy of a value with one handle, put together from the copy of what
/// the handle names.
pub proof fn lemma_single_copied(
    before: Store,
    grown: Store,
    after: Store,
    node: Node<Label>,
    copy: Node<Label>,
    child_copy: Node<Label>,
    depth: nat,
)
    requires
        depth > 0,
        unfolds(before.heap(), node, depth),
        node.first is Some,
        node.second is None,
        copy.first is Some,
        copy.second is None,
        copy.label == node.label,
        is_arena(node.first->0.arena),
        copy.first->0 == (Slot {
            arena: node.first->0.arena,
            position: grown.len_of(node.first->0.arena) as int,
        }),
        copied(before, before.heap()[node.first->0], grown, child_copy, (depth - 1) as nat),
        grown.extended_by(after),
        forall|arena: int|
            is_arena(arena) ==> #[trigger] after.len_of(arena) == grown.len_of(arena) + if arena
                == node.first->0.arena {
                1nat
            } else {
                0nat
            },
        after.holds(copy.first->0),
        after.node_at(copy.first->0) == child_copy,
    ensures
        copied(before, node, after, copy, depth),
{
    reveal(copied);
    let below = (depth - 1) as nat;
    let first = node.first->0;
    let child = before.heap()[first];
    assert(link_unfolds(before.heap(), node.first, depth));
    lemma_extension(before, grown, Set::empty());
    lemma_extension(grown, after, Set::empty());
    lemma_extension_chain(before, grown, after);
    lemma_link_copied(before, before, grown, after, first, copy.first->0, child, child_copy, depth);
    let part = link_footprint(after.heap(), copy.first, depth);
    assert(link_footprint(after.heap(), copy.second, depth) =~= Set::<Slot>::empty());
    assert forall|arena: int| is_arena(arena) implies #[trigger] grown_by(
        before,
        node,
        after,
        depth,
        arena,
    ) by {
        assert(grown_by(before, child, grown, below, arena));
        assert(link_weight(before.heap(), node.first, depth, arena) == (if first.arena == arena {
            1nat
        } else {
            0nat
        }) + weight(before.heap(), child, below, arena));
        assert(link_weight(before.heap(), node.second, depth, arena) == 0);
    }
    assert forall|at: Slot| #[trigger]
        footprint(after.heap(), copy, depth).contains(at) implies before.beyond(at) by {
        if part.contains(at) && at != copy.first->0 {
            assert(footprint(grown.heap(), child_copy, below).contains(at));
        }
    }
}

/// A value without handles is its own copy, and takes no room.
pub proof fn lemma_leaf_copied(store: Store, node: Node<Label>, copy: Node<Label>, depth: nat)
    requires
        node.first is None,
        node.second is None,
        copy == node,
    ensures
        copied(store, node, store, copy, depth),
{
    reveal(copied);
    assert(footprint(store.heap(), copy, depth) =~= Set::<Slot>::empty());
    assert(link_footprint(store.heap(), copy.first, depth).disjoint(
        link_footprint(store.heap(), copy.second, depth),
    ));
}

/// What a copy is does not depend on the label of the value, as long as the
/// copy bears the same one.
pub proof fn lemma_relabel_copied(
    before: Store,
    node: Node<Label>,
    after: Store,
    copy: Node<Label>,
    depth: nat,
    label: Label,
)
    requires
        copied(before, node, after, copy, depth),
    ensures
        copied(
            before,
            Node { label, first: node.first, second: node.second },
            after,
            Node { label, first: copy.first, second: copy.second },
            depth,
        ),
{
    reveal(copied);
    let node2 = Node { label, first: node.first, second: node.second };
    let copy2 = Node { label, first: copy.first, second: copy.second };
    assert(footprint(after.heap(), copy2, depth) == footprint(after.heap(), copy, depth));
    assert forall|arena: int| is_arena(arena) implies #[trigger] grown_by(
        before,
        node2,
        after,
        depth,
        arena,
    ) by {
        assert(grown_by(before, node, after, depth, arena));
        assert(weight(before.heap(), node2, depth, arena) == weight(
            before.heap(),
            node,
            depth,
            arena,
        ));
    }
}

/// How many handles of `node` name a slot of the arena `arena`.
pub open spec fn owed(node: Node<Label>, arena: int) -> nat {
    let first: nat = if node.first is Some && node.first->0.arena == arena {
        1
    } else {
        0
    };
    let second: nat = if node.second is Some && node.second->0.arena == arena {
        1
    } else {
        0
    };
    first + second
}

/// While `node` is being copied: the arena `arena` has, in `now`, the room
/// that was there in `before`, less what has been copied so far; still to
/// come are the copy of `rest` and one slot for each handle of `node`.
pub open spec fn on_track(
    before: Store,
    node: Node<Label>,
    depth: nat,
    now: Store,
    rest: Node<Label>,
    arena: int,
) -> bool {
    now.len_of(arena) + weight(now.heap(), rest, (depth - 1) as nat, arena) + owed(node, arena)
        == before.len_of(arena) + weight(before.heap(), node, depth, arena)
}

/// The value without handles, which takes no room.
pub open spec fn leaf() -> Node<Label> {
    Node { label: Label::Cell, first: None, second: None }
}

/// Before anything of `node` is copied, the copying of its first handle is
/// on track.
pub proof fn lemma_first_ready(before: Store, node: Node<Label>, depth: nat)
    requires
        unfolds(before.heap(), node, depth),
        node.first is Some,
    ensures
        depth > 0,
        before.holds(node.first->0),
        unfolds(before.heap(), before.node_at(node.first->0), (depth - 1) as nat),
        node.second is Some ==> before.holds(node.second->0),
        forall|arena: int|
            is_arena(arena) ==> before.len_of(arena) + #[trigger] weight(
                before.heap(),
                before.node_at(node.first->0),
                (depth - 1) as nat,
                arena,
            ) <= before.len_of(arena) + weight(before.heap(), node, depth, arena),
{
    assert(link_unfolds(before.heap(), node.first, depth));
    assert(link_unfolds(before.heap(), node.second, depth));
    assert forall|arena: int|
        weight(before.heap(), before.node_at(node.first->0), (depth - 1) as nat, arena)
            <= #[trigger] weight(before.heap(), node, depth, arena) by {
        assert(link_weight(before.heap(), node.first, depth, arena) >= weight(
            before.heap(),
            before.node_at(node.first->0),
            (depth - 1) as nat,
            arena,
        ));
    }
}

/// Once the first handle of `node` is copied, the copying of the second is
/// on track: what it names still unfolds, and the room is accounted for.
pub proof fn lemma_second_ready(
    before: Store,
    middle: Store,
    node: Node<Label>,
    first_copy: Node<Label>,
    depth: nat,
)
    requires
        depth > 0,
        unfolds(before.heap(), node, depth),
        node.first is Some,
        node.second is Some,
        copied(before, before.node_at(node.first->0), middle, first_copy, (depth - 1) as nat),
    ensures
        before.extended_by(middle),
        middle.holds(node.second->0),
        middle.node_at(node.second->0) == before.node_at(node.second->0),
        unfolds(middle.heap(), before.node_at(node.second->0), (depth - 1) as nat),
        on_track(before, node, depth, middle, before.node_at(node.second->0), 0),
        on_track(before, node, depth, middle, before.node_at(node.second->0), 1),
        on_track(before, node, depth, middle, before.node_at(node.second->0), 2),
        on_track(before, node, depth, middle, before.node_at(node.second->0), 3),
{
    reveal(copied);
    let below = (depth - 1) as nat;
    let second_child = before.node_at(node.second->0);
    assert(link_unfolds(before.heap(), node.first, depth));
    assert(link_unfolds(before.heap(), node.second, depth));
    lemma_extension(before, middle, footprint(before.heap(), second_child, below));
    lemma_same_reading(before.heap(), middle.heap(), second_child, below, below);
    assert(before.holds(node.second->0));
    assert forall|arena: int| is_arena(arena) implies on_track(
        before,
        node,
        depth,
        middle,
        second_child,
        arena,
    ) by {
        assert(grown_by(before, before.node_at(node.first->0), middle, below, arena));
        assert(weight(middle.heap(), second_child, below, arena) == weight(
            before.heap(),
            second_child,
            below,
            arena,
        ));
        assert(link_weight(before.heap(), node.first, depth, arena) == (if node.first->0.arena
            == arena {
            1nat
        } else {
            0nat
        }) + weight(before.heap(), before.node_at(node.first->0), below, arena));
        assert(link_weight(before.heap(), node.second, depth, arena) == (if node.second->0.arena
            == arena {
            1nat
        } else {
            0nat
        }) + weight(before.heap(), second_child, below, arena));
    }
    assert(is_arena(0) && is_arena(1) && is_arena(2) && is_arena(3));
}

/// Once everything below `node` is copied, what is left of the room is one
/// slot for each handle of `node`.
pub proof fn lemma_children_done(
    before: Store,
    middle: Store,
    grown: Store,
    node: Node<Label>,
    child: Node<Label>,
    child_copy: Node<Label>,
    depth: nat,
)
    requires
        depth > 0,
        copied(middle, child, grown, child_copy, (depth - 1) as nat),
        on_track(before, node, depth, middle, child, 0),
        on_track(before, node, depth, middle, child, 1),
        on_track(before, node, depth, middle, child, 2),
        on_track(before, node, depth, middle, child, 3),
    ensures
        middle.extended_by(grown),
        on_track(before, node, depth, grown, leaf(), 0),
        on_track(before, node, depth, grown, leaf(), 1),
        on_track(before, node, depth, grown, leaf(), 2),
        on_track(before, node, depth, grown, leaf(), 3),
{
    reveal(copied);
    let below = (depth - 1) as nat;
    assert forall|arena: int| is_arena(arena) implies on_track(
        before,
        node,
        depth,
        grown,
        leaf(),
        arena,
    ) by {
        assert(on_track(before, node, depth, middle, child, arena));
        assert(grown_by(middle, child, grown, below, arena));
        assert(weight(grown.heap(), leaf(), below, arena) == 0);
    }
    assert(is_arena(0) && is_arena(1) && is_arena(2) && is_arena(3));
}

/// Before the only handle of `node` is copied, the copying is on track.
pub proof fn lemma_only_ready(before: Store, node: Node<Label>, depth: nat)
    requires
        unfolds(before.heap(), node, depth),
        node.first is Some,
        node.second is None,
    ensures
        depth > 0,
        before.holds(node.first->0),
        unfolds(before.heap(), before.node_at(node.first->0), (depth - 1) as nat),
        on_track(before, node, depth, before, before.node_at(node.first->0), 0),
        on_track(before, node, depth, before, before.node_at(node.first->0), 1),
        on_track(before, node, depth, before, before.node_at(node.first->0), 2),
        on_track(before, node, depth, before, before.node_at(node.first->0), 3),
{
    assert(link_unfolds(before.heap(), node.first, depth));
    assert forall|arena: int| is_arena(arena) implies on_track(
        before,
        node,
        depth,
        before,
        before.node_at(node.first->0),
        arena,
    ) by {
        assert(link_weight(before.heap(), node.first, depth, arena) == (if node.first->0.arena
            == arena {
            1nat
        } else {
            0nat
        }) + weight(before.heap(), before.node_at(node.first->0), (depth - 1) as nat, arena));
        assert(link_weight(before.heap(), node.second, depth, arena) == 0);
    }
    assert(is_arena(0) && is_arena(1) && is_arena(2) && is_arena(3));
}

/// Emptying slots outside the footprint of a value leaves the value as it
/// was.
pub proof fn lemma_emptied_reading(
    before: Store,
    gone: Set<Slot>,
    after: Store,
    node: Node<Label>,
    depth: nat,
)
    requires
        before.emptied_to(gone, after),
        unfolds(before.heap(), node, depth),
        gone.disjoint(footprint(before.heap(), node, depth)),
    ensures
        unfolds(after.heap(), node, depth),
        owned(after.heap(), node, depth) == owned(before.heap(), node, depth),
        footprint(after.heap(), node, depth) == footprint(before.heap(), node, depth),
        tree_of(after.heap(), node, depth) == tree_of(before.heap(), node, depth),
{
    reveal(Store::emptied_to);
    let part = footprint(before.heap(), node, depth);
    assert forall|at: Slot| #[trigger]
        part.contains(at) && before.heap().contains_key(at) implies after.heap().contains_key(at)
        && after.heap()[at] == before.heap()[at] by {
        assert(!gone.contains(at));
        assert(before.holds(at));
        assert(at == slot(at.arena, at.position));
    }
    lemma_same_reading(before.heap(), after.heap(), node, depth, depth);
}

/// Emptying one occupied slot.
pub proof fn lemma_without(store: Store, at: Slot)
    requires
        store.holds(at),
    ensures
        store.emptied_to(Set::empty().insert(at), store.without(at)),
{
    reveal(Store::emptied_to);
    assert(at == slot(at.arena, at.position));
}

/// Emptying nothing.
pub proof fn lemma_emptied_nothing(store: Store)
    ensures
        store.emptied_to(Set::empty(), store),
{
    reveal(Store::emptied_to);
}

/// Emptying some slots and then others is emptying all of them.
pub proof fn lemma_emptied_chain(
    first: Store,
    gone: Set<Slot>,
    second: Store,
    more: Set<Slot>,
    third: Store,
)
    requires
        first.emptied_to(gone, second),
        second.emptied_to(more, third),
    ensures
        first.emptied_to(gone.union(more), third),
{
    reveal(Store::emptied_to);
}

/// The slots of `node` are empty in `after`, and nothing else has changed
/// since `before`.
pub open spec fn dropped(before: Store, node: Node<Label>, after: Store, depth: nat) -> bool {
    before.emptied_to(footprint(before.heap(), node, depth), after)
}

/// Taking the value out of the slot that an owned handle names leaves that
/// value holding its slots alone.
pub proof fn lemma_link_taken(store: Store, at: Slot, depth: nat)
    requires
        link_owned(store.heap(), Some(at), depth),
    ensures
        depth > 0,
        store.holds(at),
        store.emptied_to(Set::empty().insert(at), store.without(at)),
        owned(store.without(at).heap(), store.node_at(at), (depth - 1) as nat),
        footprint(store.without(at).heap(), store.node_at(at), (depth - 1) as nat) == footprint(
            store.heap(),
            store.node_at(at),
            (depth - 1) as nat,
        ),
        link_footprint(store.heap(), Some(at), depth) == footprint(
            store.heap(),
            store.node_at(at),
            (depth - 1) as nat,
        ).insert(at),
{
    let below = (depth - 1) as nat;
    lemma_without(store, at);
    lemma_owned_unfolds(store.heap(), store.node_at(at), below);
    lemma_emptied_reading(
        store,
        Set::empty().insert(at),
        store.without(at),
        store.node_at(at),
        below,
    );
}

/// Once the value taken out of an owned handle's slot is dropped, the whole
/// footprint of the handle is empty.
pub proof fn lemma_link_dropped(store: Store, at: Slot, after: Store, depth: nat)
    requires
        link_owned(store.heap(), Some(at), depth),
        dropped(store.without(at), store.node_at(at), after, (depth - 1) as nat),
    ensures
        store.emptied_to(link_footprint(store.heap(), Some(at), depth), after),
{
    let below = (depth - 1) as nat;
    lemma_link_taken(store, at, depth);
    let inner = footprint(store.heap(), store.node_at(at), below);
    lemma_emptied_chain(store, Set::empty().insert(at), store.without(at), inner, after);
    assert(Set::<Slot>::empty().insert(at).union(inner) =~= inner.insert(at));
}

/// A handle whose footprint is untouched by an emptying is owned as before.
pub proof fn lemma_link_survives(
    before: Store,
    gone: Set<Slot>,
    after: Store,
    link: Option<Slot>,
    depth: nat,
)
    requires
        before.emptied_to(gone, after),
        link_owned(before.heap(), link, depth),
        gone.disjoint(link_footprint(before.heap(), link, depth)),
    ensures
        link_owned(after.heap(), link, depth),
        link_footprint(after.heap(), link, depth) == link_footprint(before.heap(), link, depth),
{
    let pointer = Node { label: Label::Cell, first: None, second: link };
    assert(link_footprint(before.heap(), None, depth) =~= Set::<Slot>::empty());
    assert(footprint(before.heap(), pointer, depth) =~= link_footprint(
        before.heap(),
        link,
        depth,
    ));
    assert(owned(before.heap(), pointer, depth));
    lemma_owned_unfolds(before.heap(), pointer, depth);
    lemma_emptied_reading(before, gone, after, pointer, depth);
    assert(link_footprint(after.heap(), None, depth) =~= Set::<Slot>::empty());
    assert(footprint(after.heap(), pointer, depth) =~= link_footprint(after.heap(), link, depth));
}

/// The value whose only handle is `link`: what a walk holds while it stands
/// at the handle of a cell.
pub open spec fn pointer(link: Option<Slot>) -> Node<Label> {
    Node { label: Label::Cell, first: None, second: link }
}

/// One step of a drop along a chain, at a cell held in hand: the element
/// behind the first handle has been taken and dropped, and the walk now
/// stands at the second handle.
pub proof fn lemma_head_dropped(
    before: Store,
    done: Set<Slot>,
    now: Store,
    after: Store,
    node: Node<Label>,
    whole: Set<Slot>,
    depth: nat,
)
    requires
        before.emptied_to(done, now),
        owned(now.heap(), node, depth),
        node.first is Some,
        dropped(
            now.without(node.first->0),
            now.node_at(node.first->0),
            after,
            (depth - 1) as nat,
        ),
        done.union(footprint(now.heap(), node, depth)) == whole,
    ensures
        before.emptied_to(done.union(link_footprint(now.heap(), node.first, depth)), after),
        owned(after.heap(), pointer(node.second), depth),
        done.union(link_footprint(now.heap(), node.first, depth)).union(
            footprint(after.heap(), pointer(node.second), depth),
        ) == whole,
{
    let first_part = link_footprint(now.heap(), node.first, depth);
    lemma_link_dropped(now, node.first->0, after, depth);
    lemma_emptied_chain(before, done, now, first_part, after);
    lemma_link_survives(now, first_part, after, node.second, depth);
    assert(link_footprint(after.heap(), None, depth) =~= Set::<Slot>::empty());
    assert(done.union(first_part).union(footprint(after.heap(), pointer(node.second), depth))
        =~= whole);
}

/// One step of a drop along a chain, at the handle of a cell: the cell has
/// been taken out of its slot and is now held in hand.
pub proof fn lemma_cell_taken(
    before: Store,
    done: Set<Slot>,
    now: Store,
    at: Slot,
    whole: Set<Slot>,
    depth: nat,
)
    requires
        before.emptied_to(done, now),
        owned(now.heap(), pointer(Some(at)), depth),
        done.union(footprint(now.heap(), pointer(Some(at)), depth)) == whole,
    ensures
        depth > 0,
        now.holds(at),
        before.emptied_to(done.insert(at), now.without(at)),
        owned(now.without(at).heap(), now.node_at(at), (depth - 1) as nat),
        done.insert(at).union(
            footprint(now.without(at).heap(), now.node_at(at), (depth - 1) as nat),
        ) == whole,
{
    lemma_link_taken(now, at, depth);
    lemma_emptied_chain(before, done, now, Set::empty().insert(at), now.without(at));
    assert(done.union(Set::empty().insert(at)) =~= done.insert(at));
    assert(link_footprint(now.heap(), None, depth) =~= Set::<Slot>::empty());
    assert(done.insert(at).union(
        footprint(now.without(at).heap(), now.node_at(at), (depth - 1) as nat),
    ) =~= whole);
}

/// Before anything is dropped, nothing is.
pub proof fn lemma_drop_start(before: Store, node: Node<Label>, depth: nat)
    ensures
        before.emptied_to(Set::empty(), before),
        Set::<Slot>::empty().union(footprint(before.heap(), node, depth)) == footprint(
            before.heap(),
            node,
            depth,
        ),
{
    lemma_emptied_nothing(before);
    assert(Set::<Slot>::empty().union(footprint(before.heap(), node, depth)) =~= footprint(
        before.heap(),
        node,
        depth,
    ));
}

/// At the end of a chain everything that was to be dropped is.
pub proof fn lemma_drop_end(done: Set<Slot>, now: Store, node: Node<Label>, depth: nat)
    requires
        node.first is None,
        node.second is None,
    ensures
        done.union(footprint(now.heap(), node, depth)) == done,
{
    assert(done.union(footprint(now.heap(), node, depth)) =~= done);
}

/// The drop of a value with one handle is the drop of what the handle names,
/// after it is taken out.
pub proof fn lemma_single_dropped(before: Store, after: Store, node: Node<Label>, depth: nat)
    requires
        owned(before.heap(), node, depth),
        node.first is Some,
        node.second is None,
        dropped(
            before.without(node.first->0),
            before.node_at(node.first->0),
            after,
            (depth - 1) as nat,
        ),
    ensures
        dropped(before, node, after, depth),
{
    lemma_link_dropped(before, node.first->0, after, depth);
    assert(footprint(before.heap(), node, depth) =~= link_footprint(
        before.heap(),
        node.first,
        depth,
    ));
}

/// A value without handles has nothing to drop.
pub proof fn lemma_leaf_dropped(store: Store, node: Node<Label>, depth: nat)
    requires
        node.first is None,
        node.second is None,
    ensures
        dropped(store, node, store, depth),
{
    lemma_emptied_nothing(store);
    assert(footprint(store.heap(), node, depth) =~= Set::<Slot>::empty());
}

/// Every handle reached from `node` resolves in `store`: following handles
/// from `node` comes to an end everywhere.
pub open spec fn resolves(store: Store, node: Node<Label>) -> bool {
    exists|depth: nat| unfolds(store.heap(), node, depth)
}

/// A number of levels within which `node` unfolds in `store`.
pub open spec fn height(store: Store, node: Node<Label>) -> nat {
    choose|depth: nat| unfolds(store.heap(), node, depth)
}

/// What `node` denotes in `store`.
pub open spec fn denotes(store: Store, node: Node<Label>) -> Tree<Label> {
    tree_of(store.heap(), node, height(store, node))
}

/// The slots that `node` reaches in `store`.
pub open spec fn cells(store: Store, node: Node<Label>) -> Set<Slot> {
    footprint(store.heap(), node, height(store, node))
}

/// `node` resolves in `store` and reaches no slot along two different ways.
pub open spec fn holds_alone(store: Store, node: Node<Label>) -> bool {
    resolves(store, node) && owned(store.heap(), node, height(store, node))
}

/// What a value is does not depend on the number of levels within which it
/// is unfolded, as long as it unfolds.
pub proof fn lemma_any_depth(store: Store, node: Node<Label>, depth: nat)
    requires
        unfolds(store.heap(), node, depth),
    ensures
        resolves(store, node),
        unfolds(store.heap(), node, height(store, node)),
        denotes(store, node) == tree_of(store.heap(), node, depth),
        cells(store, node) == footprint(store.heap(), node, depth),
        holds_alone(store, node) == owned(store.heap(), node, depth),
        forall|arena: int| #[trigger]
            weight(store.heap(), node, height(store, node), arena) == weight(
                store.heap(),
                node,
                depth,
                arena,
            ),
{
    let chosen = height(store, node);
    assert forall|at: Slot| #[trigger]
        footprint(store.heap(), node, depth).contains(at) && store.heap().contains_key(
            at,
        ) implies store.heap().contains_key(at) && store.heap()[at] == store.heap()[at] by {}
    assert forall|at: Slot| #[trigger]
        footprint(store.heap(), node, chosen).contains(at) && store.heap().contains_key(
            at,
        ) implies store.heap().contains_key(at) && store.heap()[at] == store.heap()[at] by {}
    if chosen <= depth {
        lemma_same_reading(store.heap(), store.heap(), node, chosen, depth);
    } else {
        lemma_same_reading(store.heap(), store.heap(), node, depth, chosen);
    }
}

/// While a chain is copied cell by cell, for the arena `arena`: what the
/// arena has grown by so far, and what copying the rest of the chain will
/// take, make up what copying the whole chain takes.
pub open spec fn tally(
    before: Store,
    root: Node<Label>,
    depth: nat,
    now: Store,
    rest: Node<Label>,
    steps: nat,
    arena: int,
) -> bool {
    now.len_of(arena) + weight(before.heap(), rest, (depth - steps) as nat, arena)
        == before.len_of(arena) + weight(before.heap(), root, depth, arena)
}

/// `later` has every position of `earlier`, and more; every slot of
/// `earlier` but `hole` holds in `later` what it held.
pub open spec fn grown_but_at(earlier: Store, later: Store, hole: Slot) -> bool {
    &&& forall|arena: int| #[trigger] earlier.len_of(arena) <= later.len_of(arena)
    &&& forall|at: Slot|
        #[trigger] earlier.holds(at) && at != hole ==> later.holds(at) && later.node_at(at)
            == earlier.node_at(at)
    &&& forall|i: int|
        0 <= i < earlier.patterns.len() && slot(0, i) != hole ==> #[trigger] later.patterns[i]
            == earlier.patterns[i]
    &&& forall|i: int|
        0 <= i < earlier.chains.len() && slot(1, i) != hole ==> #[trigger] later.chains[i]
            == earlier.chains[i]
    &&& forall|i: int|
        0 <= i < earlier.steps.len() && slot(2, i) != hole ==> #[trigger] later.steps[i]
            == earlier.steps[i]
    &&& forall|i: int|
        0 <= i < earlier.step_chains.len() && slot(3, i) != hole
            ==> #[trigger] later.step_chains[i] == earlier.step_chains[i]
}

/// A chain is being copied, cell by cell from its head. So far `steps` of
/// its cells are copied: `copy` is the first cell of the copy, which ends in
/// an empty cell at `hole`, where the copy of `rest` will be written.
/// Written there, it makes `copy` a copy of `root`.
#[verifier::opaque]
pub open spec fn building(
    before: Store,
    root: Node<Label>,
    depth: nat,
    now: Store,
    copy: Node<Label>,
    steps: nat,
    hole: Slot,
    rest: Node<Label>,
) -> bool {
    &&& 1 <= steps <= depth
    &&& before.extended_by(now)
    &&& rest.label == Label::Cell
    &&& unfolds(before.heap(), rest, (depth - steps) as nat)
    &&& owned(now.heap(), copy, depth)
    &&& spine_slot(now.heap(), copy, steps) == Some(hole)
    &&& now.holds(hole)
    &&& now.node_at(hole) == leaf()
    &&& forall|at: Slot| #[trigger]
        footprint(now.heap(), copy, depth).contains(at) ==> before.beyond(at)
    &&& graft_end(
        tree_of(now.heap(), copy, depth),
        steps,
        tree_of(before.heap(), rest, (depth - steps) as nat),
    ) == tree_of(before.heap(), root, depth)
    &&& tally(before, root, depth, now, rest, steps, 0)
    &&& tally(before, root, depth, now, rest, steps, 1)
    &&& tally(before, root, depth, now, rest, steps, 2)
    &&& tally(before, root, depth, now, rest, steps, 3)
}

/// The tree of the value without handles.
pub open spec fn leaf_tree() -> Tree<Label> {
    Tree { label: Label::Cell, first: None, second: None }
}

/// A handle to an empty cell is owned, reaches that cell alone, and denotes
/// the empty chain.
pub proof fn lemma_leaf_link(store: Store, at: Slot, depth: nat)
    requires
        depth > 0,
        store.holds(at),
        store.node_at(at) == leaf(),
    ensures
        link_owned(store.heap(), Some(at), depth),
        link_unfolds(store.heap(), Some(at), depth),
        link_footprint(store.heap(), Some(at), depth) == Set::<Slot>::empty().insert(at),
        link_tree(store.heap(), Some(at), depth) == Some(Box::new(leaf_tree())),
{
    let below = (depth - 1) as nat;
    assert(store.heap().contains_key(at));
    assert(store.heap()[at] == leaf());
    assert(link_footprint(store.heap(), None, below) =~= Set::<Slot>::empty());
    assert(footprint(store.heap(), leaf(), below) =~= Set::<Slot>::empty());
    assert(owned(store.heap(), leaf(), below));
    assert(link_unfolds(store.heap(), None, below));
    assert(unfolds(store.heap(), leaf(), below));
    assert(link_tree(store.heap(), None, below) is None);
    assert(tree_of(store.heap(), leaf(), below) == leaf_tree());
    assert(link_footprint(store.heap(), Some(at), depth) =~= Set::<Slot>::empty().insert(at));
}

/// A new cell that holds the handle of a copied element and the handle of a
/// new empty cell: it holds its slots alone, reaches those of the element
/// and the two new slots, and denotes the element followed by nothing.
pub proof fn lemma_new_cell(
    cloned: Store,
    after: Store,
    hole: Slot,
    child_copy: Node<Label>,
    cell: Node<Label>,
    left: nat,
)
    requires
        left > 0,
        cell.label == Label::Cell,
        cell.first is Some,
        cell.second is Some,
        cell.first->0 != cell.second->0,
        owned(cloned.heap(), child_copy, (left - 1) as nat),
        !footprint(cloned.heap(), child_copy, (left - 1) as nat).contains(hole),
        grown_but_at(cloned, after, hole),
        cloned.beyond(cell.first->0),
        cloned.beyond(cell.second->0),
        after.holds(cell.first->0),
        after.node_at(cell.first->0) == child_copy,
        after.holds(cell.second->0),
        after.node_at(cell.second->0) == leaf(),
    ensures
        owned(after.heap(), cell, left),
        footprint(after.heap(), cell, left) == footprint(
            cloned.heap(),
            child_copy,
            (left - 1) as nat,
        ).insert(cell.first->0).insert(cell.second->0),
        tree_of(after.heap(), cell, left) == (Tree {
            label: Label::Cell,
            first: Some(Box::new(tree_of(cloned.heap(), child_copy, (left - 1) as nat))),
            second: Some(Box::new(leaf_tree())),
        }),
{
    let below = (left - 1) as nat;
    let other = after.heap();
    let child_part = footprint(cloned.heap(), child_copy, below);
    lemma_owned_unfolds(cloned.heap(), child_copy, below);
    lemma_extension(cloned, cloned, Set::empty());
    assert(agrees_on(cloned.heap(), cloned.heap(), child_part));
    lemma_same_reading(cloned.heap(), cloned.heap(), child_copy, below, below);
    assert(agrees_on(cloned.heap(), other, child_part)) by {
        assert forall|at: Slot| #[trigger]
            child_part.contains(at) && cloned.heap().contains_key(at) implies other.contains_key(
            at,
        ) && other[at] == cloned.heap()[at] by {
            assert(cloned.holds(at));
        }
    }
    lemma_same_reading(cloned.heap(), other, child_copy, below, below);
    lemma_leaf_link(after, cell.second->0, left);
    assert(other.contains_key(cell.first->0));
    assert(other[cell.first->0] == child_copy);
    assert(!child_part.contains(cell.first->0)) by {
        if child_part.contains(cell.first->0) {
            assert(cloned.heap().dom().contains(cell.first->0));
        }
    }
    assert(!child_part.contains(cell.second->0)) by {
        if child_part.contains(cell.second->0) {
            assert(cloned.heap().dom().contains(cell.second->0));
        }
    }
    let first_part = link_footprint(other, cell.first, left);
    let second_part = link_footprint(other, cell.second, left);
    assert(first_part =~= child_part.insert(cell.first->0));
    assert(first_part.disjoint(second_part));
    assert(footprint(other, cell, left) =~= child_part.insert(cell.first->0).insert(
        cell.second->0,
    ));
}

/// The first cell of a chain is copied: the copy of its element stands in a
/// new slot, and a new empty cell stands where the rest will be written.
pub proof fn lemma_build_start(
    before: Store,
    middle: Store,
    now: Store,
    root: Node<Label>,
    copy: Node<Label>,
    first_copy: Node<Label>,
    depth: nat,
)
    requires
        depth > 0,
        unfolds(before.heap(), root, depth),
        root.label == Label::Cell,
        copy.label == Label::Cell,
        root.first is Some,
        root.second is Some,
        copy.first is Some,
        copy.second is Some,
        is_arena(root.first->0.arena),
        is_arena(root.second->0.arena),
        root.first->0.arena != root.second->0.arena,
        before.node_at(root.second->0).label == Label::Cell,
        copy.first->0 == (Slot {
            arena: root.first->0.arena,
            position: middle.len_of(root.first->0.arena) as int,
        }),
        copy.second->0 == (Slot {
            arena: root.second->0.arena,
            position: middle.len_of(root.second->0.arena) as int,
        }),
        copied(before, before.node_at(root.first->0), middle, first_copy, (depth - 1) as nat),
        middle.extended_by(now),
        forall|arena: int|
            is_arena(arena) ==> #[trigger] now.len_of(arena) == middle.len_of(arena) + owed(
                root,
                arena,
            ),
        now.holds(copy.first->0),
        now.node_at(copy.first->0) == first_copy,
        now.holds(copy.second->0),
        now.node_at(copy.second->0) == leaf(),
    ensures
        building(before, root, depth, now, copy, 1, copy.second->0, before.node_at(root.second->0)),
{
    reveal(building);
    reveal(copied);
    let below = (depth - 1) as nat;
    let first = root.first->0;
    let rest = before.node_at(root.second->0);
    assert(link_unfolds(before.heap(), root.first, depth));
    assert(link_unfolds(before.heap(), root.second, depth));
    lemma_extension(before, middle, Set::empty());
    lemma_extension(middle, now, Set::empty());
    lemma_extension_chain(before, middle, now);
    lemma_link_copied(
        before,
        before,
        middle,
        now,
        first,
        copy.first->0,
        before.node_at(first),
        first_copy,
        depth,
    );
    let first_part = link_footprint(now.heap(), copy.first, depth);
    let second_part = link_footprint(now.heap(), copy.second, depth);
    lemma_leaf_link(now, copy.second->0, depth);
    assert(first_part.disjoint(second_part)) by {
        assert forall|at: Slot| first_part.contains(at) implies !second_part.contains(at) by {
            if at != copy.first->0 {
                assert(footprint(middle.heap(), first_copy, below).contains(at));
            }
        }
    }
    assert forall|at: Slot| #[trigger]
        footprint(now.heap(), copy, depth).contains(at) implies before.beyond(at) by {
        if first_part.contains(at) && at != copy.first->0 {
            assert(footprint(middle.heap(), first_copy, below).contains(at));
        }
    }
    let whole = tree_of(now.heap(), copy, depth);
    assert(whole.second == Some(Box::new(leaf_tree())));
    assert(graft_end(leaf_tree(), 0, tree_of(before.heap(), rest, below)) == tree_of(
        before.heap(),
        rest,
        below,
    ));
    assert forall|arena: int| is_arena(arena) implies tally(
        before,
        root,
        depth,
        now,
        rest,
        1,
        arena,
    ) by {
        assert(grown_by(before, before.node_at(first), middle, below, arena));
        assert(link_weight(before.heap(), root.first, depth, arena) == (if first.arena == arena {
            1nat
        } else {
            0nat
        }) + weight(before.heap(), before.node_at(first), below, arena));
        assert(link_weight(before.heap(), root.second, depth, arena) == (if root.second->0.arena
            == arena {
            1nat
        } else {
            0nat
        }) + weight(before.heap(), rest, below, arena));
    }
    assert(is_arena(0) && is_arena(1) && is_arena(2) && is_arena(3));
}

/// What a step of the copying can rely on before it copies the next
/// element.
pub proof fn lemma_build_ready(
    before: Store,
    root: Node<Label>,
    depth: nat,
    now: Store,
    copy: Node<Label>,
    steps: nat,
    hole: Slot,
    rest: Node<Label>,
)
    requires
        building(before, root, depth, now, copy, steps, hole, rest),
        rest.first is Some,
        rest.second is Some,
    ensures
        steps < depth,
        before.extended_by(now),
        before.holds(rest.first->0),
        before.holds(rest.second->0),
        now.holds(rest.first->0),
        now.node_at(rest.first->0) == before.node_at(rest.first->0),
        now.holds(hole),
        now.node_at(hole) == leaf(),
        before.beyond(hole),
        unfolds(now.heap(), now.node_at(rest.first->0), (depth - steps - 1) as nat),
        forall|arena: int|
            is_arena(arena) ==> now.len_of(arena) + #[trigger] weight(
                now.heap(),
                now.node_at(rest.first->0),
                (depth - steps - 1) as nat,
                arena,
            ) + owed(rest, arena) <= before.len_of(arena) + weight(
                before.heap(),
                root,
                depth,
                arena,
            ),
{
    reveal(building);
    let left = (depth - steps) as nat;
    let below = (left - 1) as nat;
    let child = before.node_at(rest.first->0);
    assert(link_unfolds(before.heap(), rest.first, left));
    assert(link_unfolds(before.heap(), rest.second, left));
    lemma_extension(before, now, footprint(before.heap(), child, below));
    lemma_same_reading(before.heap(), now.heap(), child, below, below);
    assert(before.holds(rest.first->0));
    assert(before.beyond(hole)) by {
        lemma_owned_unfolds(now.heap(), copy, depth);
        lemma_spine_in_footprint(now.heap(), copy, steps, depth);
        assert(footprint(now.heap(), copy, depth).contains(hole));
    }
    assert forall|arena: int| is_arena(arena) implies now.len_of(arena) + #[trigger] weight(
        now.heap(),
        now.node_at(rest.first->0),
        below,
        arena,
    ) + owed(rest, arena) <= before.len_of(arena) + weight(before.heap(), root, depth, arena) by {
        assert(tally(before, root, depth, now, rest, steps, arena));
        assert(weight(now.heap(), child, below, arena) == weight(
            before.heap(),
            child,
            below,
            arena,
        ));
        assert(link_weight(before.heap(), rest.first, left, arena) == (if rest.first->0.arena
            == arena {
            1nat
        } else {
            0nat
        }) + weight(before.heap(), child, below, arena));
        assert(link_weight(before.heap(), rest.second, left, arena) >= (if rest.second->0.arena
            == arena {
            1nat
        } else {
            0nat
        }));
    }
}

/// What a step of the copying can rely on once the next element is copied:
/// the arenas have room for the two new slots, and the empty cell at the end
/// of the copy is still there.
pub proof fn lemma_build_cloned(
    before: Store,
    root: Node<Label>,
    depth: nat,
    now: Store,
    cloned: Store,
    copy: Node<Label>,
    steps: nat,
    hole: Slot,
    rest: Node<Label>,
    child_copy: Node<Label>,
)
    requires
        building(before, root, depth, now, copy, steps, hole, rest),
        rest.first is Some,
        rest.second is Some,
        copied(now, now.node_at(rest.first->0), cloned, child_copy, (depth - steps - 1) as nat),
    ensures
        now.extended_by(cloned),
        before.extended_by(cloned),
        cloned.holds(hole),
        cloned.node_at(hole) == leaf(),
        before.beyond(hole),
        !before.beyond(rest.second->0),
        forall|arena: int|
            is_arena(arena) ==> #[trigger] cloned.len_of(arena) + owed(rest, arena)
                <= before.len_of(arena) + weight(before.heap(), root, depth, arena),
{
    lemma_build_ready(before, root, depth, now, copy, steps, hole, rest);
    reveal(building);
    reveal(copied);
    let left = (depth - steps) as nat;
    let below = (left - 1) as nat;
    let child = before.node_at(rest.first->0);
    lemma_extension(now, cloned, Set::empty());
    lemma_extension(before, now, Set::empty());
    lemma_extension_chain(before, now, cloned);
    assert forall|arena: int| is_arena(arena) implies #[trigger] cloned.len_of(arena) + owed(
        rest,
        arena,
    ) <= before.len_of(arena) + weight(before.heap(), root, depth, arena) by {
        assert(grown_by(now, now.node_at(rest.first->0), cloned, below, arena));
        assert(now.len_of(arena) + weight(now.heap(), now.node_at(rest.first->0), below, arena)
            + owed(rest, arena) <= before.len_of(arena) + weight(
            before.heap(),
            root,
            depth,
            arena,
        ));
    }
}

/// One step of the copying: the next element is copied into a new slot, a
/// new empty cell is made, and the cell that ended the copy now holds the
/// handles of the two.
pub proof fn lemma_build_step(
    before: Store,
    root: Node<Label>,
    depth: nat,
    now: Store,
    cloned: Store,
    after: Store,
    copy: Node<Label>,
    steps: nat,
    hole: Slot,
    rest: Node<Label>,
    child_copy: Node<Label>,
    cell: Node<Label>,
)
    requires
        building(before, root, depth, now, copy, steps, hole, rest),
        rest.first is Some,
        rest.second is Some,
        is_arena(rest.first->0.arena),
        is_arena(rest.second->0.arena),
        rest.first->0.arena != rest.second->0.arena,
        before.node_at(rest.second->0).label == Label::Cell,
        copied(now, now.node_at(rest.first->0), cloned, child_copy, (depth - steps - 1) as nat),
        cell.label == Label::Cell,
        cell.first == Some(
            Slot {
                arena: rest.first->0.arena,
                position: cloned.len_of(rest.first->0.arena) as int,
            },
        ),
        cell.second == Some(
            Slot {
                arena: rest.second->0.arena,
                position: cloned.len_of(rest.second->0.arena) as int,
            },
        ),
        grown_but_at(cloned, after, hole),
        forall|arena: int|
            is_arena(arena) ==> #[trigger] after.len_of(arena) == cloned.len_of(arena) + owed(
                rest,
                arena,
            ),
        after.holds(hole),
        after.node_at(hole) == cell,
        after.holds(cell.first->0),
        after.node_at(cell.first->0) == child_copy,
        after.holds(cell.second->0),
        after.node_at(cell.second->0) == leaf(),
    ensures
        before.extended_by(after),
        building(
            before,
            root,
            depth,
            after,
            copy,
            steps + 1,
            cell.second->0,
            before.node_at(rest.second->0),
        ),
{
    lemma_build_cloned(before, root, depth, now, cloned, copy, steps, hole, rest, child_copy);
    lemma_build_ready(before, root, depth, now, copy, steps, hole, rest);
    let left = (depth - steps) as nat;
    let below = (left - 1) as nat;
    let child = before.node_at(rest.first->0);
    let next = before.node_at(rest.second->0);
    let heap = now.heap();
    let other = after.heap();
    let child_part = footprint(cloned.heap(), child_copy, below);
    assert(before.extended_by(after)) by {
        assert(forall|i: int| 0 <= i < before.patterns.len() ==> slot(0, i) != hole);
        assert(forall|i: int| 0 <= i < before.chains.len() ==> slot(1, i) != hole);
        assert(forall|i: int| 0 <= i < before.steps.len() ==> slot(2, i) != hole);
        assert(forall|i: int| 0 <= i < before.step_chains.len() ==> slot(3, i) != hole);
        assert(cloned.len_of(0) <= after.len_of(0));
        assert(cloned.len_of(1) <= after.len_of(1));
        assert(cloned.len_of(2) <= after.len_of(2));
        assert(cloned.len_of(3) <= after.len_of(3));
    }
    lemma_step_cell(
        before,
        root,
        depth,
        now,
        cloned,
        after,
        copy,
        steps,
        hole,
        rest,
        child_copy,
        cell,
    );
    reveal(building);
    lemma_patched(heap, other, copy, steps, depth, hole, cell);
    lemma_spine_extended(heap, other, copy, steps, depth, hole, cell);
    // What the copy denotes, with the rest grafted at its new end.
    let so_far = tree_of(heap, copy, depth);
    let cell_tree = tree_of(other, cell, left);
    let next_tree = tree_of(before.heap(), next, below);
    lemma_graft_twice(so_far, steps, cell_tree, 1, next_tree);
    assert(link_unfolds(before.heap(), rest.first, left));
    assert(link_unfolds(before.heap(), rest.second, left));
    assert(graft_end(leaf_tree(), 0, next_tree) == next_tree);
    assert(graft_end(cell_tree, 1, next_tree) == tree_of(before.heap(), rest, left));
    lemma_step_tally(before, root, depth, now, cloned, after, copy, steps, hole, rest, child_copy);
}

/// The cell written at a step of the copying: owned in the new store,
/// wholly made of new slots, and denoting the element copied followed by
/// nothing.
proof fn lemma_step_cell(
    before: Store,
    root: Node<Label>,
    depth: nat,
    now: Store,
    cloned: Store,
    after: Store,
    copy: Node<Label>,
    steps: nat,
    hole: Slot,
    rest: Node<Label>,
    child_copy: Node<Label>,
    cell: Node<Label>,
)
    requires
        building(before, root, depth, now, copy, steps, hole, rest),
        rest.first is Some,
        rest.second is Some,
        rest.first->0.arena != rest.second->0.arena,
        copied(now, now.node_at(rest.first->0), cloned, child_copy, (depth - steps - 1) as nat),
        cell.label == Label::Cell,
        cell.first == Some(
            Slot {
                arena: rest.first->0.arena,
                position: cloned.len_of(rest.first->0.arena) as int,
            },
        ),
        cell.second == Some(
            Slot {
                arena: rest.second->0.arena,
                position: cloned.len_of(rest.second->0.arena) as int,
            },
        ),
        grown_but_at(cloned, after, hole),
        after.holds(hole),
        after.node_at(hole) == cell,
        after.holds(cell.first->0),
        after.node_at(cell.first->0) == child_copy,
        after.holds(cell.second->0),
        after.node_at(cell.second->0) == leaf(),
    ensures
        steps < depth,
        same_but_at(now.heap(), after.heap(), hole),
        now.heap().contains_key(hole),
        now.heap()[hole].first is None,
        now.heap()[hole].second is None,
        after.heap().contains_key(hole),
        after.heap()[hole] == cell,
        owned(after.heap(), cell, (depth - steps) as nat),
        forall|at: Slot| #[trigger]
            footprint(after.heap(), cell, (depth - steps) as nat).contains(at)
                ==> !now.heap().contains_key(at) && before.beyond(at),
        tree_of(after.heap(), cell, (depth - steps) as nat) == (Tree {
            label: Label::Cell,
            first: Some(
                Box::new(
                    tree_of(
                        before.heap(),
                        before.node_at(rest.first->0),
                        (depth - steps - 1) as nat,
                    ),
                ),
            ),
            second: Some(Box::new(leaf_tree())),
        }),
{
    lemma_build_cloned(before, root, depth, now, cloned, copy, steps, hole, rest, child_copy);
    lemma_build_ready(before, root, depth, now, copy, steps, hole, rest);
    reveal(copied);
    let left = (depth - steps) as nat;
    let below = (left - 1) as nat;
    let child = before.node_at(rest.first->0);
    let heap = now.heap();
    let other = after.heap();
    let child_part = footprint(cloned.heap(), child_copy, below);
    lemma_extension(before, now, Set::empty());
    lemma_extension(now, cloned, Set::empty());
    assert(same_but_at(heap, other, hole)) by {
        assert forall|at: Slot| #[trigger] heap.contains_key(at) && at != hole implies
            other.contains_key(at) && other[at] == heap[at] by {
            assert(now.holds(at));
            assert(cloned.holds(at));
        }
    }
    assert(heap.contains_key(hole) && heap[hole] == leaf());
    assert(!child_part.contains(hole)) by {
        if child_part.contains(hole) {
            assert(now.beyond(hole));
        }
    }
    lemma_new_cell(cloned, after, hole, child_copy, cell, left);
    assert(unfolds(before.heap(), child, below)) by {
        reveal(building);
        assert(link_unfolds(before.heap(), rest.first, left));
        assert(before.heap()[rest.first->0] == child);
    }
    lemma_extension(before, now, footprint(before.heap(), child, below));
    lemma_same_reading(before.heap(), now.heap(), child, below, below);
    assert forall|at: Slot| #[trigger]
        footprint(other, cell, left).contains(at) implies !heap.contains_key(at) && before.beyond(
        at,
    ) by {
        if child_part.contains(at) {
            assert(now.beyond(at));
        }
        if heap.contains_key(at) {
            assert(now.holds(at));
        }
    }
}

/// The room accounted for after a step of the copying.
proof fn lemma_step_tally(
    before: Store,
    root: Node<Label>,
    depth: nat,
    now: Store,
    cloned: Store,
    after: Store,
    copy: Node<Label>,
    steps: nat,
    hole: Slot,
    rest: Node<Label>,
    child_copy: Node<Label>,
)
    requires
        building(before, root, depth, now, copy, steps, hole, rest),
        rest.first is Some,
        rest.second is Some,
        copied(now, now.node_at(rest.first->0), cloned, child_copy, (depth - steps - 1) as nat),
        forall|arena: int|
            is_arena(arena) ==> #[trigger] after.len_of(arena) == cloned.len_of(arena) + owed(
                rest,
                arena,
            ),
    ensures
        tally(before, root, depth, after, before.node_at(rest.second->0), steps + 1, 0),
        tally(before, root, depth, after, before.node_at(rest.second->0), steps + 1, 1),
        tally(before, root, depth, after, before.node_at(rest.second->0), steps + 1, 2),
        tally(before, root, depth, after, before.node_at(rest.second->0), steps + 1, 3),
        unfolds(before.heap(), before.node_at(rest.second->0), (depth - steps - 1) as nat),
{
    lemma_build_ready(before, root, depth, now, copy, steps, hole, rest);
    reveal(building);
    reveal(copied);
    let left = (depth - steps) as nat;
    let below = (left - 1) as nat;
    let child = before.node_at(rest.first->0);
    let next = before.node_at(rest.second->0);
    assert(link_unfolds(before.heap(), rest.first, left));
    assert(link_unfolds(before.heap(), rest.second, left));
    assert(before.heap()[rest.first->0] == child);
    assert(before.heap()[rest.second->0] == next);
    lemma_extension(before, now, footprint(before.heap(), child, below));
    lemma_same_reading(before.heap(), now.heap(), child, below, below);
    assert forall|arena: int| is_arena(arena) implies tally(
        before,
        root,
        depth,
        after,
        next,
        steps + 1,
        arena,
    ) by {
        assert(tally(before, root, depth, now, rest, steps, arena));
        assert(grown_by(now, now.node_at(rest.first->0), cloned, below, arena));
        assert(weight(now.heap(), child, below, arena) == weight(
            before.heap(),
            child,
            below,
            arena,
        ));
        assert(link_weight(before.heap(), rest.first, left, arena) == (if rest.first->0.arena
            == arena {
            1nat
        } else {
            0nat
        }) + weight(before.heap(), child, below, arena));
        assert(link_weight(before.heap(), rest.second, left, arena) == (if rest.second->0.arena
            == arena {
            1nat
        } else {
            0nat
        }) + weight(before.heap(), next, below, arena));
    }
    assert(is_arena(0) && is_arena(1) && is_arena(2) && is_arena(3));
}

/// The end of the copying: the rest is the empty chain, which the empty
/// cell at the end of the copy is a copy of.
pub proof fn lemma_build_end(
    before: Store,
    root: Node<Label>,
    depth: nat,
    now: Store,
    copy: Node<Label>,
    steps: nat,
    hole: Slot,
    rest: Node<Label>,
)
    requires
        building(before, root, depth, now, copy, steps, hole, rest),
        rest.first is None,
        rest.second is None,
    ensures
        copied(before, root, now, copy, depth),
{
    reveal(building);
    reveal(copied);
    let left = (depth - steps) as nat;
    lemma_owned_unfolds(now.heap(), copy, depth);
    lemma_graft_same(
        now.heap(),
        copy,
        steps,
        depth,
        tree_of(before.heap(), rest, left),
    );
    assert forall|arena: int| is_arena(arena) implies #[trigger] grown_by(
        before,
        root,
        now,
        depth,
        arena,
    ) by {
        assert(tally(before, root, depth, now, rest, steps, arena));
        assert(weight(before.heap(), rest, left, arena) == 0);
    }
    assert(is_arena(0) && is_arena(1) && is_arena(2) && is_arena(3));
}

} // verus!
