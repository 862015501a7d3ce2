//! What holds of deep copies, deep drops and equality, whatever the value
//! and whatever the arenas.

use crate::arena::chain::Chain;
use crate::arena::chain_iter::is_chain_of;
use crate::arena::equality::ArenaEq;
use crate::arena::handler::ArenaHandler;
use crate::arena::Arena;
use crate::ast::store::store_of;
use crate::arena::graph::footprint;
use crate::arena::graph::link_unfolds;
use crate::arena::graph::Tree;
use crate::arena::occupant;
use crate::ast::pattern::Pattern;
use crate::ast::pattern::TimedStep;
use crate::ast::store::chain_node;
use crate::ast::store::chains_arena;
use crate::ast::store::pattern_label;
use crate::ast::store::pattern_node;
use crate::ast::store::slot;
use crate::ast::store::step_chain_node;
use crate::ast::store::step_chains_arena;
use crate::arena::graph::lemma_same_reading;
use crate::arena::graph::tree_of;
use crate::arena::graph::unfolds;
use crate::arena::graph::Node;
use crate::arena::graph::Slot;
use crate::ast::proofs::cells;
use crate::ast::proofs::copied;
use crate::ast::proofs::denotes;
use crate::ast::proofs::dropped;
use crate::ast::proofs::height;
use crate::ast::proofs::holds_alone;
use crate::ast::proofs::lemma_any_depth;
use crate::ast::proofs::lemma_emptied_reading;
use crate::ast::proofs::lemma_extension;
use crate::ast::proofs::resolves;
use crate::ast::store::Label;
use crate::ast::store::Store;
use vstd::prelude::*;

verus! {

/// Every slot of `slots` lies within the arenas as they are in `store`.
pub open spec fn within(store: Store, slots: Set<Slot>) -> bool {
    forall|at: Slot| #[trigger] slots.contains(at) ==> !store.beyond(at)
}

/// Every slot of `slots` lies past the end of the arenas as they are in
/// `store`.
pub open spec fn past(store: Store, slots: Set<Slot>) -> bool {
    forall|at: Slot| #[trigger] slots.contains(at) ==> store.beyond(at)
}

/// A value that resolves reaches only slots that exist.
pub proof fn lemma_cells_within(store: Store, node: Node<Label>)
    requires
        resolves(store, node),
    ensures
        within(store, cells(store, node)),
{
    let depth = height(store, node);
    lemma_extension(store, store, Set::empty());
    assert forall|at: Slot| #[trigger]
        footprint(store.heap(), node, depth).contains(at) && store.heap().contains_key(
            at,
        ) implies store.heap().contains_key(at) && store.heap()[at] == store.heap()[at] by {}
    lemma_same_reading(store.heap(), store.heap(), node, depth, depth);
    assert forall|at: Slot| #[trigger] cells(store, node).contains(at) implies !store.beyond(
        at,
    ) by {
        assert(store.heap().dom().contains(at));
    }
}

/// A deep copy denotes what the value copied denotes, and that value is as
/// it was: comparing the two for equality answers `true`. The copy holds its
/// slots alone, and they are all new: none is a slot of the value copied.
pub proof fn law_copy_is_equal_and_apart(
    before: Store,
    node: Node<Label>,
    after: Store,
    copy: Node<Label>,
)
    requires
        resolves(before, node),
        copied(before, node, after, copy, height(before, node)),
    ensures
        before.extended_by(after),
        resolves(after, node),
        resolves(after, copy),
        denotes(after, copy) == denotes(after, node),
        denotes(after, node) == denotes(before, node),
        cells(after, node) == cells(before, node),
        holds_alone(after, node) == holds_alone(before, node),
        holds_alone(after, copy),
        cells(after, copy).disjoint(cells(after, node)),
        past(before, cells(after, copy)),
        within(before, cells(after, node)),
{
    reveal(copied);
    let depth = height(before, node);
    lemma_cells_within(before, node);
    lemma_extension(before, after, footprint(before.heap(), node, depth));
    lemma_same_reading(before.heap(), after.heap(), node, depth, depth);
    lemma_any_depth(after, node, depth);
    lemma_any_depth(after, copy, depth);
    assert forall|at: Slot| cells(after, copy).contains(at) implies !cells(after, node).contains(
        at,
    ) by {
        if cells(after, node).contains(at) {
            assert(cells(before, node).contains(at));
        }
    }
}

/// Dropping a value leaves every value that shares no slot with it as it
/// was.
pub proof fn law_drop_spares_the_rest(
    before: Store,
    node: Node<Label>,
    after: Store,
    other: Node<Label>,
)
    requires
        resolves(before, other),
        dropped(before, node, after, height(before, node)),
        cells(before, node).disjoint(cells(before, other)),
    ensures
        resolves(after, other),
        denotes(after, other) == denotes(before, other),
        cells(after, other) == cells(before, other),
        holds_alone(after, other) == holds_alone(before, other),
        forall|at: Slot| before.beyond(at) == after.beyond(at),
{
    let depth = height(before, other);
    lemma_emptied_reading(before, cells(before, node), after, other, depth);
    lemma_any_depth(after, other, depth);
    reveal(Store::emptied_to);
}

/// Of a value and its deep copy, either can be dropped and the other stays
/// whole.
pub proof fn law_copy_outlives_drop(
    before: Store,
    node: Node<Label>,
    after: Store,
    copy: Node<Label>,
    last: Store,
    dropped_copy: bool,
)
    requires
        resolves(before, node),
        copied(before, node, after, copy, height(before, node)),
        dropped_copy ==> dropped(after, copy, last, height(after, copy)),
        !dropped_copy ==> dropped(after, node, last, height(after, node)),
    ensures
        dropped_copy ==> resolves(last, node) && denotes(last, node) == denotes(before, node)
            && holds_alone(last, node) == holds_alone(before, node),
        !dropped_copy ==> resolves(last, copy) && denotes(last, copy) == denotes(before, node)
            && holds_alone(last, copy),
{
    law_copy_is_equal_and_apart(before, node, after, copy);
    if dropped_copy {
        law_drop_spares_the_rest(after, copy, last, node);
    } else {
        law_drop_spares_the_rest(after, node, last, copy);
    }
}

/// Copies of copies, with the copies in between dropped, still denote what
/// the first value denotes: after copying `node` to `first`, `first` to
/// `second`, dropping `first`, copying `second` to `third` and dropping
/// `second`, `third` and `node` compare equal.
pub proof fn law_copy_drop_cycles(
    start: Store,
    node: Node<Label>,
    one: Store,
    first: Node<Label>,
    two: Store,
    second: Node<Label>,
    three: Store,
    four: Store,
    third: Node<Label>,
    five: Store,
)
    requires
        resolves(start, node),
        copied(start, node, one, first, height(start, node)),
        copied(one, first, two, second, height(one, first)),
        dropped(two, first, three, height(two, first)),
        copied(three, second, four, third, height(three, second)),
        dropped(four, second, five, height(four, second)),
    ensures
        resolves(five, node),
        resolves(five, third),
        denotes(five, third) == denotes(five, node),
        denotes(five, node) == denotes(start, node),
        holds_alone(five, third),
{
    law_copy_is_equal_and_apart(start, node, one, first);
    law_copy_is_equal_and_apart(one, first, two, second);
    lemma_cells_within(one, first);
    lemma_cells_within(one, node);
    // In `two`: `node` and `first` lie within `one`, `second` lies past it.
    lemma_still_there(one, node, two);
    assert(cells(two, first).disjoint(cells(two, node)));
    assert(cells(two, first).disjoint(cells(two, second)));
    law_drop_spares_the_rest(two, first, three, node);
    law_drop_spares_the_rest(two, first, three, second);
    law_copy_is_equal_and_apart(three, second, four, third);
    lemma_still_there(three, node, four);
    lemma_cells_within(three, node);
    lemma_cells_within(three, second);
    assert(cells(four, second).disjoint(cells(four, node)));
    assert(cells(four, second).disjoint(cells(four, third)));
    law_drop_spares_the_rest(four, second, five, node);
    law_drop_spares_the_rest(four, second, five, third);
}

/// A value that resolves still resolves, and is as it was, once the arenas
/// have grown.
pub proof fn lemma_still_there(before: Store, node: Node<Label>, after: Store)
    requires
        resolves(before, node),
        before.extended_by(after),
    ensures
        resolves(after, node),
        denotes(after, node) == denotes(before, node),
        cells(after, node) == cells(before, node),
        holds_alone(after, node) == holds_alone(before, node),
{
    let depth = height(before, node);
    lemma_extension(before, after, footprint(before.heap(), node, depth));
    lemma_same_reading(before.heap(), after.heap(), node, depth, depth);
    lemma_any_depth(after, node, depth);
}

/// How many cells a tree has along its second handles: the length of the
/// chain that it was read from.
pub open spec fn spine(tree: Tree<Label>) -> nat
    decreases tree,
{
    match tree.second {
        Some(rest) => 1 + spine(*rest),
        None => 0,
    }
}

/// Two patterns of different variants, or two notes that differ, do not
/// denote the same: comparing them for equality answers `false`.
pub proof fn law_variants_differ(
    this_store: Store,
    this: Pattern,
    other_store: Store,
    other: Pattern,
)
    requires
        pattern_label(this) != pattern_label(other),
    ensures
        denotes(this_store, pattern_node(this)) != denotes(other_store, pattern_node(other)),
{
}

/// Two chains of patterns of different lengths do not denote the same, even
/// where one begins as the other does: comparing two composites that hold
/// them answers `false`.
pub proof fn law_lengths_differ(
    this_store: Store,
    this: Chain<Pattern>,
    these: Seq<Pattern>,
    other_store: Store,
    other: Chain<Pattern>,
    others: Seq<Pattern>,
)
    requires
        resolves(this_store, chain_node(this)),
        resolves(other_store, chain_node(other)),
        is_chain_of(this, this_store.patterns, this_store.chains, these),
        is_chain_of(other, other_store.patterns, other_store.chains, others),
        these.len() != others.len(),
    ensures
        denotes(this_store, chain_node(this)) != denotes(other_store, chain_node(other)),
        denotes(this_store, pattern_node(Pattern::Cat(this))) != denotes(
            other_store,
            pattern_node(Pattern::Cat(other)),
        ),
        denotes(this_store, pattern_node(Pattern::Sequence(this))) != denotes(
            other_store,
            pattern_node(Pattern::Sequence(other)),
        ),
        denotes(this_store, pattern_node(Pattern::Stack(this))) != denotes(
            other_store,
            pattern_node(Pattern::Stack(other)),
        ),
{
    lemma_spine_of_chain(this_store, this, these, height(this_store, chain_node(this)));
    lemma_spine_of_chain(other_store, other, others, height(other_store, chain_node(other)));
    lemma_composite(this_store, Pattern::Cat(this), this);
    lemma_composite(other_store, Pattern::Cat(other), other);
    lemma_composite(this_store, Pattern::Sequence(this), this);
    lemma_composite(other_store, Pattern::Sequence(other), other);
    lemma_composite(this_store, Pattern::Stack(this), this);
    lemma_composite(other_store, Pattern::Stack(other), other);
}

/// Two chains of timed steps of different lengths do not denote the same.
pub proof fn law_step_lengths_differ(
    this_store: Store,
    this: Chain<TimedStep>,
    these: Seq<TimedStep>,
    other_store: Store,
    other: Chain<TimedStep>,
    others: Seq<TimedStep>,
)
    requires
        resolves(this_store, step_chain_node(this)),
        resolves(other_store, step_chain_node(other)),
        is_chain_of(this, this_store.steps, this_store.step_chains, these),
        is_chain_of(other, other_store.steps, other_store.step_chains, others),
        these.len() != others.len(),
    ensures
        denotes(this_store, pattern_node(Pattern::TimeCat(this))) != denotes(
            other_store,
            pattern_node(Pattern::TimeCat(other)),
        ),
{
    let this_depth = height(this_store, step_chain_node(this));
    let other_depth = height(other_store, step_chain_node(other));
    lemma_spine_of_step_chain(this_store, this, these, this_depth);
    lemma_spine_of_step_chain(other_store, other, others, other_depth);
    let this_pattern = pattern_node(Pattern::TimeCat(this));
    let other_pattern = pattern_node(Pattern::TimeCat(other));
    assert(unfolds(this_store.heap(), this_pattern, this_depth));
    assert(unfolds(other_store.heap(), other_pattern, other_depth));
    lemma_any_depth(this_store, this_pattern, this_depth);
    lemma_any_depth(other_store, other_pattern, other_depth);
    assert(tree_of(this_store.heap(), this_pattern, this_depth).second == tree_of(
        this_store.heap(),
        step_chain_node(this),
        this_depth,
    ).second);
    assert(tree_of(other_store.heap(), other_pattern, other_depth).second == tree_of(
        other_store.heap(),
        step_chain_node(other),
        other_depth,
    ).second);
}

/// A composite pattern reads as the first cell of its chain does, but for
/// the label.
proof fn lemma_composite(store: Store, pattern: Pattern, chain: Chain<Pattern>)
    requires
        resolves(store, chain_node(chain)),
        pattern_node(pattern).first == chain_node(chain).first,
        pattern_node(pattern).second == chain_node(chain).second,
    ensures
        resolves(store, pattern_node(pattern)),
        spine(denotes(store, pattern_node(pattern))) == spine(denotes(store, chain_node(chain))),
{
    let depth = height(store, chain_node(chain));
    assert(unfolds(store.heap(), pattern_node(pattern), depth));
    lemma_any_depth(store, pattern_node(pattern), depth);
    assert(tree_of(store.heap(), pattern_node(pattern), depth).second == tree_of(
        store.heap(),
        chain_node(chain),
        depth,
    ).second);
}

/// The tree of a chain of `n` patterns has `n` cells along its spine.
proof fn lemma_spine_of_chain(store: Store, chain: Chain<Pattern>, items: Seq<Pattern>, depth: nat)
    requires
        unfolds(store.heap(), chain_node(chain), depth),
        is_chain_of(chain, store.patterns, store.chains, items),
    ensures
        spine(tree_of(store.heap(), chain_node(chain), depth)) == items.len(),
    decreases items.len(),
{
    if items.len() > 0 {
        match chain {
            Chain::Nil => {},
            Chain::Cons { head, tail } => {
                let rest = occupant(store.chains, tail@)->0;
                assert(link_unfolds(store.heap(), chain_node(chain).second, depth));
                assert(store.heap()[slot(chains_arena(), tail@)] == chain_node(rest));
                lemma_spine_of_chain(store, rest, items.skip(1), (depth - 1) as nat);
            },
        }
    }
}

/// The tree of a chain of `n` timed steps has `n` cells along its spine.
proof fn lemma_spine_of_step_chain(
    store: Store,
    chain: Chain<TimedStep>,
    items: Seq<TimedStep>,
    depth: nat,
)
    requires
        unfolds(store.heap(), step_chain_node(chain), depth),
        is_chain_of(chain, store.steps, store.step_chains, items),
    ensures
        spine(tree_of(store.heap(), step_chain_node(chain), depth)) == items.len(),
    decreases items.len(),
{
    if items.len() > 0 {
        match chain {
            Chain::Nil => {},
            Chain::Cons { head, tail } => {
                let rest = occupant(store.step_chains, tail@)->0;
                assert(link_unfolds(store.heap(), step_chain_node(chain).second, depth));
                assert(store.heap()[slot(step_chains_arena(), tail@)] == step_chain_node(rest));
                lemma_spine_of_step_chain(store, rest, items.skip(1), (depth - 1) as nat);
            },
        }
    }
}

/// A pattern and the deep copy that `clone_in` makes of it are equal to
/// `eq_in`, in the arenas as the copying left them; and the copy can be
/// dropped.
pub proof fn law_clone_in_then_eq_in<
    PA: Arena<Pattern>,
    CA: Arena<Chain<Pattern>>,
    SA: Arena<TimedStep>,
    SCA: Arena<Chain<TimedStep>>,
>(
    pattern: Pattern,
    before: &(PA, (CA, (SA, (SCA, ())))),
    copy: Pattern,
    after: &(PA, (CA, (SA, (SCA, ())))),
)
    requires
        pattern.resolves_in(before),
        pattern.copied_in(before, &copy, after),
    ensures
        pattern.resolves_in(after),
        copy.resolves_in(after),
        copy.value_in(after) == pattern.value_in(after),
        pattern.value_in(after) == pattern.value_in(before),
        copy.owned_in(after),
        pattern.owned_in(after) == pattern.owned_in(before),
{
    law_copy_is_equal_and_apart(
        store_of(before),
        pattern_node(pattern),
        store_of(after),
        pattern_node(copy),
    );
}

/// Dropping a deep copy with `drop_in` leaves the pattern that it was made
/// of as it was, and dropping that pattern leaves the copy as it was.
pub proof fn law_clone_in_then_drop_in<
    PA: Arena<Pattern>,
    CA: Arena<Chain<Pattern>>,
    SA: Arena<TimedStep>,
    SCA: Arena<Chain<TimedStep>>,
>(
    pattern: Pattern,
    before: &(PA, (CA, (SA, (SCA, ())))),
    copy: Pattern,
    after: &(PA, (CA, (SA, (SCA, ())))),
    last: &(PA, (CA, (SA, (SCA, ())))),
    dropped_copy: bool,
)
    requires
        pattern.resolves_in(before),
        pattern.copied_in(before, &copy, after),
        dropped_copy ==> copy.dropped_in(after, last),
        !dropped_copy ==> pattern.dropped_in(after, last),
    ensures
        dropped_copy ==> pattern.resolves_in(last) && pattern.value_in(last) == pattern.value_in(
            before,
        ) && pattern.owned_in(last) == pattern.owned_in(before),
        !dropped_copy ==> copy.owned_in(last) && copy.value_in(last) == pattern.value_in(before),
{
    law_copy_outlives_drop(
        store_of(before),
        pattern_node(pattern),
        store_of(after),
        pattern_node(copy),
        store_of(last),
        dropped_copy,
    );
}

/// After `clone_in` of `pattern` to `first`, `clone_in` of `first` to
/// `second`, `drop_in` of `first`, `clone_in` of `second` to `third` and
/// `drop_in` of `second`, `third` and `pattern` are equal to `eq_in`.
pub proof fn law_clone_in_drop_in_cycles<
    PA: Arena<Pattern>,
    CA: Arena<Chain<Pattern>>,
    SA: Arena<TimedStep>,
    SCA: Arena<Chain<TimedStep>>,
>(
    pattern: Pattern,
    start: &(PA, (CA, (SA, (SCA, ())))),
    first: Pattern,
    one: &(PA, (CA, (SA, (SCA, ())))),
    second: Pattern,
    two: &(PA, (CA, (SA, (SCA, ())))),
    three: &(PA, (CA, (SA, (SCA, ())))),
    third: Pattern,
    four: &(PA, (CA, (SA, (SCA, ())))),
    five: &(PA, (CA, (SA, (SCA, ())))),
)
    requires
        pattern.resolves_in(start),
        pattern.copied_in(start, &first, one),
        first.copied_in(one, &second, two),
        first.dropped_in(two, three),
        second.copied_in(three, &third, four),
        second.dropped_in(four, five),
    ensures
        pattern.resolves_in(five),
        third.resolves_in(five),
        third.value_in(five) == pattern.value_in(five),
        pattern.value_in(five) == pattern.value_in(start),
{
    law_copy_drop_cycles(
        store_of(start),
        pattern_node(pattern),
        store_of(one),
        pattern_node(first),
        store_of(two),
        pattern_node(second),
        store_of(three),
        store_of(four),
        pattern_node(third),
        store_of(five),
    );
}

} // verus!
