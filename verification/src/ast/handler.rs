//! Deep copies and deep drops of patterns across their four arenas.

use crate::arena::chain::Chain;
use crate::arena::chain::ChainOrIndex;
use crate::arena::graph::footprint;
use crate::arena::graph::link_footprint;
use crate::arena::graph::owned;
use crate::arena::graph::Slot;
use crate::arena::graph::unfolds;
use crate::arena::graph::weight;
use crate::arena::graph::Node;
use crate::arena::handler::ArenaHandler;
use crate::arena::Arena;
use crate::ast::pattern::Pattern;
use crate::ast::pattern::TimedStep;
use crate::ast::proofs::building;
use crate::ast::proofs::copied;
use crate::ast::proofs::lemma_build_cloned;
use crate::ast::proofs::lemma_build_end;
use crate::ast::proofs::lemma_build_ready;
use crate::ast::proofs::lemma_build_start;
use crate::ast::proofs::lemma_build_step;
use crate::ast::proofs::dropped;
use crate::ast::proofs::height;
use crate::ast::proofs::holds_alone;
use crate::ast::proofs::is_arena;
use crate::ast::proofs::owed;
use crate::ast::proofs::resolves;
use crate::ast::proofs::lemma_cell_taken;
use crate::ast::proofs::lemma_drop_end;
use crate::ast::proofs::lemma_drop_start;
use crate::ast::proofs::lemma_head_dropped;
use crate::ast::proofs::lemma_leaf_dropped;
use crate::ast::proofs::lemma_link_taken;
use crate::ast::proofs::lemma_single_dropped;
use crate::ast::proofs::pointer;
use crate::ast::proofs::lemma_children_done;
use crate::ast::proofs::lemma_first_ready;
use crate::ast::proofs::lemma_only_ready;
use crate::ast::proofs::lemma_second_ready;
use crate::ast::proofs::lemma_leaf_copied;
use crate::ast::proofs::lemma_relabel_copied;
use crate::ast::proofs::lemma_single_copied;
use crate::ast::store::arenas_wf;
use crate::ast::store::capacity_of;
use crate::ast::store::chain_node;
use crate::ast::store::chains_arena;
use crate::ast::store::slot;
use crate::ast::store::step_chains_arena;
use crate::ast::store::pattern_label;
use crate::ast::store::pattern_node;
use crate::ast::store::step_chain_node;
use crate::ast::store::step_node;
use crate::ast::store::store_of;
use crate::ast::store::Label;
use crate::ast::store::Store;
use vstd::prelude::*;

verus! {

/// Each arena has room for the slots that a deep copy of `node` takes.
pub open spec fn fits<
    PA: Arena<Pattern>,
    CA: Arena<Chain<Pattern>>,
    SA: Arena<TimedStep>,
    SCA: Arena<Chain<TimedStep>>,
>(arenas: &(PA, (CA, (SA, (SCA, ())))), node: Node<Label>, depth: nat) -> bool {
    &&& fits_arena(arenas, node, depth, 0)
    &&& fits_arena(arenas, node, depth, 1)
    &&& fits_arena(arenas, node, depth, 2)
    &&& fits_arena(arenas, node, depth, 3)
}

/// The arena at place `arena` has room for the slots that a deep copy of
/// `node` takes in it.
pub open spec fn fits_arena<
    PA: Arena<Pattern>,
    CA: Arena<Chain<Pattern>>,
    SA: Arena<TimedStep>,
    SCA: Arena<Chain<TimedStep>>,
>(arenas: &(PA, (CA, (SA, (SCA, ())))), node: Node<Label>, depth: nat, arena: int) -> bool {
    store_of(arenas).len_of(arena) + weight(store_of(arenas).heap(), node, depth, arena)
        <= capacity_of(arenas, arena)
}

/// The arenas are those of `before`, with their capacities, after changes
/// that left them well formed.
pub open spec fn same_arenas<
    PA: Arena<Pattern>,
    CA: Arena<Chain<Pattern>>,
    SA: Arena<TimedStep>,
    SCA: Arena<Chain<TimedStep>>,
>(before: &(PA, (CA, (SA, (SCA, ())))), after: &(PA, (CA, (SA, (SCA, ()))))) -> bool {
    &&& arenas_wf(after)
    &&& capacity_of(after, 0) == capacity_of(before, 0)
    &&& capacity_of(after, 1) == capacity_of(before, 1)
    &&& capacity_of(after, 2) == capacity_of(before, 2)
    &&& capacity_of(after, 3) == capacity_of(before, 3)
}

/// A deep copy of a chain of patterns: a new cell for every cell, and a deep
/// copy of every pattern in it.
///
/// The chain is walked by a loop, from its head. The copy ends in an empty
/// cell at every step, into which the next step writes the handles of the
/// next element's copy and of a new empty cell.
pub fn chain_clone<
    PA: Arena<Pattern>,
    CA: Arena<Chain<Pattern>>,
    SA: Arena<TimedStep>,
    SCA: Arena<Chain<TimedStep>>,
>(chain: &Chain<Pattern>, arenas: &mut (PA, (CA, (SA, (SCA, ())))), Ghost(depth): Ghost<nat>) -> (copy:
    Chain<Pattern>)
    requires
        arenas_wf(old(arenas)),
        unfolds(store_of(old(arenas)).heap(), chain_node(*chain), depth),
        fits(old(arenas), chain_node(*chain), depth),
    ensures
        same_arenas(old(arenas), final(arenas)),
        copied(
            store_of(old(arenas)),
            chain_node(*chain),
            store_of(final(arenas)),
            chain_node(copy),
            depth,
        ),
    decreases depth, 1nat,
{
    let ghost before = store_of(arenas);
    let ghost root = chain_node(*chain);
    match chain {
        Chain::Nil => {
            proof {
                lemma_leaf_copied(before, chain_node(*chain), chain_node(Chain::Nil), depth);
            }
            Chain::Nil
        },
        Chain::Cons { head, tail } => {
            proof {
                lemma_first_ready(before, root, depth);
            }
            let head_value = arenas.0.peek(head).unwrap().clone();
            let head_copy = pattern_clone(&head_value, arenas, Ghost((depth - 1) as nat));
            let ghost middle = store_of(arenas);
            proof {
                lemma_second_ready(before, middle, root, pattern_node(head_copy), depth);
            }
            let new_head = arenas.0.allocate(head_copy).unwrap();
            let mut hole = arenas.1.0.allocate(Chain::Nil).unwrap();
            let first = Chain::Cons { head: new_head, tail: hole.clone() };
            let mut cur = arenas.1.0.peek(tail).unwrap().clone();
            let ghost mut steps: nat = 1;
            proof {
                lemma_build_start(
                    before,
                    middle,
                    store_of(arenas),
                    root,
                    chain_node(first),
                    pattern_node(head_copy),
                    depth,
                );
            }
            loop
                invariant
                    same_arenas(old(arenas), arenas),
                    fits(old(arenas), root, depth),
                    before == store_of(old(arenas)),
                    building(
                        before,
                        root,
                        depth,
                        store_of(arenas),
                        chain_node(first),
                        steps,
                        slot(chains_arena(), hole@),
                        chain_node(cur),
                    ),
                ensures
                    same_arenas(old(arenas), arenas),
                    copied(before, root, store_of(arenas), chain_node(first), depth),
                decreases depth - steps,
            {
                let ghost now = store_of(arenas);
                let ghost rest = chain_node(cur);
                let ghost end = slot(chains_arena(), hole@);
                let (head, tail) = match &cur {
                    Chain::Nil => {
                        proof {
                            lemma_build_end(
                                before,
                                root,
                                depth,
                                now,
                                chain_node(first),
                                steps,
                                end,
                                rest,
                            );
                        }
                        break ;
                    },
                    Chain::Cons { head, tail } => (head.clone(), tail.clone()),
                };
                proof {
                    lemma_build_ready(before, root, depth, now, chain_node(first), steps, end, rest);
                }
                let head_value = arenas.0.peek(&head).unwrap().clone();
                let head_copy = pattern_clone(
                    &head_value,
                    arenas,
                    Ghost((depth - steps - 1) as nat),
                );
                let ghost cloned = store_of(arenas);
                proof {
                    lemma_build_cloned(
                        before,
                        root,
                        depth,
                        now,
                        cloned,
                        chain_node(first),
                        steps,
                        end,
                        rest,
                        pattern_node(head_copy),
                    );
                    assert(is_arena(0) && is_arena(1) && is_arena(2) && is_arena(3));
                    assert(cloned.len_of(0) + owed(rest, 0) <= before.len_of(0) + weight(
                        before.heap(),
                        root,
                        depth,
                        0,
                    ));
                    assert(cloned.len_of(1) + owed(rest, 1) <= before.len_of(1) + weight(
                        before.heap(),
                        root,
                        depth,
                        1,
                    ));
                    assert(cloned.len_of(2) + owed(rest, 2) <= before.len_of(2) + weight(
                        before.heap(),
                        root,
                        depth,
                        2,
                    ));
                    assert(cloned.len_of(3) + owed(rest, 3) <= before.len_of(3) + weight(
                        before.heap(),
                        root,
                        depth,
                        3,
                    ));
                }
                let new_head = arenas.0.allocate(head_copy).unwrap();
                let new_hole = arenas.1.0.allocate(Chain::Nil).unwrap();
                let cell = Chain::Cons { head: new_head, tail: new_hole.clone() };
                let ghost cell_node = chain_node(cell);
                let _ = arenas.1.0.take(hole.clone());
                let _ = arenas.1.0.insert(hole, cell);
                let next = arenas.1.0.peek(&tail).unwrap().clone();
                proof {
                    lemma_build_step(
                        before,
                        root,
                        depth,
                        now,
                        cloned,
                        store_of(arenas),
                        chain_node(first),
                        steps,
                        end,
                        rest,
                        pattern_node(head_copy),
                        cell_node,
                    );
                    steps = steps + 1;
                }
                hole = new_hole;
                cur = next;
            }
            first
        },
    }
}

/// A deep copy of a chain of timed steps: a new cell for every cell, and a
/// deep copy of every step in it. The chain is walked by a loop, as a chain
/// of patterns is.
pub fn step_chain_clone<
    PA: Arena<Pattern>,
    CA: Arena<Chain<Pattern>>,
    SA: Arena<TimedStep>,
    SCA: Arena<Chain<TimedStep>>,
>(
    chain: &Chain<TimedStep>,
    arenas: &mut (PA, (CA, (SA, (SCA, ())))),
    Ghost(depth): Ghost<nat>,
) -> (copy: Chain<TimedStep>)
    requires
        arenas_wf(old(arenas)),
        unfolds(store_of(old(arenas)).heap(), step_chain_node(*chain), depth),
        fits(old(arenas), step_chain_node(*chain), depth),
    ensures
        same_arenas(old(arenas), final(arenas)),
        copied(
            store_of(old(arenas)),
            step_chain_node(*chain),
            store_of(final(arenas)),
            step_chain_node(copy),
            depth,
        ),
    decreases depth, 1nat,
{
    let ghost before = store_of(arenas);
    let ghost root = step_chain_node(*chain);
    match chain {
        Chain::Nil => {
            proof {
                lemma_leaf_copied(
                    before,
                    step_chain_node(*chain),
                    step_chain_node(Chain::Nil),
                    depth,
                );
            }
            Chain::Nil
        },
        Chain::Cons { head, tail } => {
            proof {
                lemma_first_ready(before, root, depth);
            }
            let head_value = arenas.1.1.0.peek(head).unwrap().clone();
            let head_copy = step_clone(&head_value, arenas, Ghost((depth - 1) as nat));
            let ghost middle = store_of(arenas);
            proof {
                lemma_second_ready(before, middle, root, step_node(head_copy), depth);
            }
            let new_head = arenas.1.1.0.allocate(head_copy).unwrap();
            let mut hole = arenas.1.1.1.0.allocate(Chain::Nil).unwrap();
            let first = Chain::Cons { head: new_head, tail: hole.clone() };
            let mut cur = arenas.1.1.1.0.peek(tail).unwrap().clone();
            let ghost mut steps: nat = 1;
            proof {
                lemma_build_start(
                    before,
                    middle,
                    store_of(arenas),
                    root,
                    step_chain_node(first),
                    step_node(head_copy),
                    depth,
                );
            }
            loop
                invariant
                    same_arenas(old(arenas), arenas),
                    fits(old(arenas), root, depth),
                    before == store_of(old(arenas)),
                    building(
                        before,
                        root,
                        depth,
                        store_of(arenas),
                        step_chain_node(first),
                        steps,
                        slot(step_chains_arena(), hole@),
                        step_chain_node(cur),
                    ),
                ensures
                    same_arenas(old(arenas), arenas),
                    copied(before, root, store_of(arenas), step_chain_node(first), depth),
                decreases depth - steps,
            {
                let ghost now = store_of(arenas);
                let ghost rest = step_chain_node(cur);
                let ghost end = slot(step_chains_arena(), hole@);
                let (head, tail) = match &cur {
                    Chain::Nil => {
                        proof {
                            lemma_build_end(
                                before,
                                root,
                                depth,
                                now,
                                step_chain_node(first),
                                steps,
                                end,
                                rest,
                            );
                        }
                        break ;
                    },
                    Chain::Cons { head, tail } => (head.clone(), tail.clone()),
                };
                proof {
                    lemma_build_ready(before, root, depth, now, step_chain_node(first), steps, end, rest);
                }
                let head_value = arenas.1.1.0.peek(&head).unwrap().clone();
                let head_copy = step_clone(
                    &head_value,
                    arenas,
                    Ghost((depth - steps - 1) as nat),
                );
                let ghost cloned = store_of(arenas);
                proof {
                    lemma_build_cloned(
                        before,
                        root,
                        depth,
                        now,
                        cloned,
                        step_chain_node(first),
                        steps,
                        end,
                        rest,
                        step_node(head_copy),
                    );
                    assert(is_arena(0) && is_arena(1) && is_arena(2) && is_arena(3));
                    assert(cloned.len_of(0) + owed(rest, 0) <= before.len_of(0) + weight(
                        before.heap(),
                        root,
                        depth,
                        0,
                    ));
                    assert(cloned.len_of(1) + owed(rest, 1) <= before.len_of(1) + weight(
                        before.heap(),
                        root,
                        depth,
                        1,
                    ));
                    assert(cloned.len_of(2) + owed(rest, 2) <= before.len_of(2) + weight(
                        before.heap(),
                        root,
                        depth,
                        2,
                    ));
                    assert(cloned.len_of(3) + owed(rest, 3) <= before.len_of(3) + weight(
                        before.heap(),
                        root,
                        depth,
                        3,
                    ));
                }
                let new_head = arenas.1.1.0.allocate(head_copy).unwrap();
                let new_hole = arenas.1.1.1.0.allocate(Chain::Nil).unwrap();
                let cell = Chain::Cons { head: new_head, tail: new_hole.clone() };
                let ghost cell_node = step_chain_node(cell);
                let _ = arenas.1.1.1.0.take(hole.clone());
                let _ = arenas.1.1.1.0.insert(hole, cell);
                let next = arenas.1.1.1.0.peek(&tail).unwrap().clone();
                proof {
                    lemma_build_step(
                        before,
                        root,
                        depth,
                        now,
                        cloned,
                        store_of(arenas),
                        step_chain_node(first),
                        steps,
                        end,
                        rest,
                        step_node(head_copy),
                        cell_node,
                    );
                    steps = steps + 1;
                }
                hole = new_hole;
                cur = next;
            }
            first
        },
    }
}

/// A deep copy of a timed step: the same length of time, and a deep copy of
/// its pattern in a new slot.
pub fn step_clone<
    PA: Arena<Pattern>,
    CA: Arena<Chain<Pattern>>,
    SA: Arena<TimedStep>,
    SCA: Arena<Chain<TimedStep>>,
>(step: &TimedStep, arenas: &mut (PA, (CA, (SA, (SCA, ())))), Ghost(depth): Ghost<nat>) -> (copy:
    TimedStep)
    requires
        arenas_wf(old(arenas)),
        unfolds(store_of(old(arenas)).heap(), step_node(*step), depth),
        fits(old(arenas), step_node(*step), depth),
    ensures
        same_arenas(old(arenas), final(arenas)),
        copied(
            store_of(old(arenas)),
            step_node(*step),
            store_of(final(arenas)),
            step_node(copy),
            depth,
        ),
    decreases depth, 0nat,
{
    let ghost before = store_of(arenas);
    proof {
        lemma_only_ready(before, step_node(*step), depth);
    }
    let pattern = arenas.0.peek(&step.1).unwrap().clone();
    let pattern_copy = pattern_clone(&pattern, arenas, Ghost((depth - 1) as nat));
    let ghost grown = store_of(arenas);
    proof {
        lemma_children_done(
            before,
            before,
            grown,
            step_node(*step),
            pattern_node(pattern),
            pattern_node(pattern_copy),
            depth,
        );
    }
    let new_pattern = arenas.0.allocate(pattern_copy).unwrap();
    let copy = TimedStep(step.0, new_pattern);
    proof {
        let after = store_of(arenas);
        lemma_single_copied(
            before,
            grown,
            after,
            step_node(*step),
            step_node(copy),
            pattern_node(pattern_copy),
            depth,
        );
    }
    copy
}

/// A deep copy of a pattern: the same variant, and for a composite a deep
/// copy of its chain.
pub fn pattern_clone<
    PA: Arena<Pattern>,
    CA: Arena<Chain<Pattern>>,
    SA: Arena<TimedStep>,
    SCA: Arena<Chain<TimedStep>>,
>(pattern: &Pattern, arenas: &mut (PA, (CA, (SA, (SCA, ())))), Ghost(depth): Ghost<nat>) -> (copy:
    Pattern)
    requires
        arenas_wf(old(arenas)),
        unfolds(store_of(old(arenas)).heap(), pattern_node(*pattern), depth),
        fits(old(arenas), pattern_node(*pattern), depth),
    ensures
        same_arenas(old(arenas), final(arenas)),
        copied(
            store_of(old(arenas)),
            pattern_node(*pattern),
            store_of(final(arenas)),
            pattern_node(copy),
            depth,
        ),
    decreases depth, 2nat,
{
    let ghost before = store_of(arenas);
    let ghost label = pattern_label(*pattern);
    match pattern {
        Pattern::Cat(chain) => {
            proof {
                lemma_same_links(before, pattern_node(*pattern), chain_node(*chain), depth);
            }
            let chain_copy = chain_clone(chain, arenas, Ghost(depth));
            proof {
                lemma_relabel_copied(
                    before,
                    chain_node(*chain),
                    store_of(arenas),
                    chain_node(chain_copy),
                    depth,
                    label,
                );
            }
            Pattern::Cat(chain_copy)
        },
        Pattern::Sequence(chain) => {
            proof {
                lemma_same_links(before, pattern_node(*pattern), chain_node(*chain), depth);
            }
            let chain_copy = chain_clone(chain, arenas, Ghost(depth));
            proof {
                lemma_relabel_copied(
                    before,
                    chain_node(*chain),
                    store_of(arenas),
                    chain_node(chain_copy),
                    depth,
                    label,
                );
            }
            Pattern::Sequence(chain_copy)
        },
        Pattern::Stack(chain) => {
            proof {
                lemma_same_links(before, pattern_node(*pattern), chain_node(*chain), depth);
            }
            let chain_copy = chain_clone(chain, arenas, Ghost(depth));
            proof {
                lemma_relabel_copied(
                    before,
                    chain_node(*chain),
                    store_of(arenas),
                    chain_node(chain_copy),
                    depth,
                    label,
                );
            }
            Pattern::Stack(chain_copy)
        },
        Pattern::TimeCat(chain) => {
            proof {
                lemma_same_links(before, pattern_node(*pattern), step_chain_node(*chain), depth);
            }
            let chain_copy = step_chain_clone(chain, arenas, Ghost(depth));
            proof {
                lemma_relabel_copied(
                    before,
                    step_chain_node(*chain),
                    store_of(arenas),
                    step_chain_node(chain_copy),
                    depth,
                    label,
                );
            }
            Pattern::TimeCat(chain_copy)
        },
        Pattern::Note(note) => {
            proof {
                lemma_leaf_copied(before, pattern_node(*pattern), pattern_node(*pattern), depth);
            }
            Pattern::Note(*note)
        },
        Pattern::Silence => {
            proof {
                lemma_leaf_copied(before, pattern_node(*pattern), pattern_node(*pattern), depth);
            }
            Pattern::Silence
        },
    }
}

/// Two values with the same handles unfold alike and weigh the same.
proof fn lemma_same_links(store: Store, node: Node<Label>, other: Node<Label>, depth: nat)
    requires
        node.first == other.first,
        node.second == other.second,
    ensures
        unfolds(store.heap(), node, depth) == unfolds(store.heap(), other, depth),
        owned(store.heap(), node, depth) == owned(store.heap(), other, depth),
        footprint(store.heap(), node, depth) == footprint(store.heap(), other, depth),
        forall|arena: int| #[trigger]
            weight(store.heap(), node, depth, arena) == weight(store.heap(), other, depth, arena),
{
}

/// Where a walk along a chain of patterns stands, read as a node.
pub open spec fn walk_node(acc: ChainOrIndex<Pattern>) -> Node<Label> {
    match acc {
        ChainOrIndex::Chain(chain) => chain_node(chain),
        ChainOrIndex::Index(index) => pointer(Some(slot(chains_arena(), index@))),
    }
}

/// Where a walk along a chain of timed steps stands, read as a node.
pub open spec fn step_walk_node(acc: ChainOrIndex<TimedStep>) -> Node<Label> {
    match acc {
        ChainOrIndex::Chain(chain) => step_chain_node(chain),
        ChainOrIndex::Index(index) => pointer(Some(slot(step_chains_arena(), index@))),
    }
}

/// Drops a chain of patterns: every pattern in it with all that it holds,
/// and every cell.
pub fn chain_drop<
    PA: Arena<Pattern>,
    CA: Arena<Chain<Pattern>>,
    SA: Arena<TimedStep>,
    SCA: Arena<Chain<TimedStep>>,
>(chain: Chain<Pattern>, arenas: &mut (PA, (CA, (SA, (SCA, ())))), Ghost(depth): Ghost<nat>)
    requires
        arenas_wf(old(arenas)),
        owned(store_of(old(arenas)).heap(), chain_node(chain), depth),
    ensures
        same_arenas(old(arenas), final(arenas)),
        dropped(store_of(old(arenas)), chain_node(chain), store_of(final(arenas)), depth),
    decreases depth, 1nat,
{
    let ghost before = store_of(arenas);
    let ghost whole = footprint(before.heap(), chain_node(chain), depth);
    let ghost mut done: Set<Slot> = Set::empty();
    let ghost mut left: nat = depth;
    let mut acc = ChainOrIndex::Chain(chain);
    proof {
        lemma_drop_start(before, chain_node(chain), depth);
    }
    loop
        invariant
            same_arenas(old(arenas), arenas),
            left <= depth,
            before.emptied_to(done, store_of(arenas)),
            owned(store_of(arenas).heap(), walk_node(acc), left),
            done.union(footprint(store_of(arenas).heap(), walk_node(acc), left)) == whole,
        ensures
            same_arenas(old(arenas), arenas),
            before.emptied_to(whole, store_of(arenas)),
        decreases
                left,
                (if acc is Chain {
                    1nat
                } else {
                    0nat
                }),
    {
        let ghost now = store_of(arenas);
        match acc {
            ChainOrIndex::Chain(Chain::Nil) => {
                proof {
                    lemma_drop_end(done, now, chain_node(Chain::Nil), left);
                }
                break ;
            },
            ChainOrIndex::Chain(Chain::Cons { head, tail }) => {
                let ghost node = chain_node(Chain::Cons { head, tail });
                proof {
                    lemma_link_taken(now, node.first->0, left);
                }
                let head_value = arenas.0.take(head).unwrap();
                assert(store_of(arenas) == now.without(node.first->0));
                pattern_drop(head_value, arenas, Ghost((left - 1) as nat));
                proof {
                    lemma_head_dropped(before, done, now, store_of(arenas), node, whole, left);
                    done = done.union(link_footprint(now.heap(), node.first, left));
                }
                acc = ChainOrIndex::Index(tail);
            },
            ChainOrIndex::Index(index) => {
                let ghost at = slot(chains_arena(), index@);
                proof {
                    lemma_cell_taken(before, done, now, at, whole, left);
                }
                let cell = arenas.1.0.take(index).unwrap();
                assert(store_of(arenas) == now.without(at));
                proof {
                    done = done.insert(at);
                    left = (left - 1) as nat;
                }
                acc = ChainOrIndex::Chain(cell);
            },
        }
    }
}

/// Drops a chain of timed steps: every step in it with all that it holds,
/// and every cell.
pub fn step_chain_drop<
    PA: Arena<Pattern>,
    CA: Arena<Chain<Pattern>>,
    SA: Arena<TimedStep>,
    SCA: Arena<Chain<TimedStep>>,
>(chain: Chain<TimedStep>, arenas: &mut (PA, (CA, (SA, (SCA, ())))), Ghost(depth): Ghost<nat>)
    requires
        arenas_wf(old(arenas)),
        owned(store_of(old(arenas)).heap(), step_chain_node(chain), depth),
    ensures
        same_arenas(old(arenas), final(arenas)),
        dropped(store_of(old(arenas)), step_chain_node(chain), store_of(final(arenas)), depth),
    decreases depth, 1nat,
{
    let ghost before = store_of(arenas);
    let ghost whole = footprint(before.heap(), step_chain_node(chain), depth);
    let ghost mut done: Set<Slot> = Set::empty();
    let ghost mut left: nat = depth;
    let mut acc = ChainOrIndex::Chain(chain);
    proof {
        lemma_drop_start(before, step_chain_node(chain), depth);
    }
    loop
        invariant
            same_arenas(old(arenas), arenas),
            left <= depth,
            before.emptied_to(done, store_of(arenas)),
            owned(store_of(arenas).heap(), step_walk_node(acc), left),
            done.union(footprint(store_of(arenas).heap(), step_walk_node(acc), left)) == whole,
        ensures
            same_arenas(old(arenas), arenas),
            before.emptied_to(whole, store_of(arenas)),
        decreases
                left,
                (if acc is Chain {
                    1nat
                } else {
                    0nat
                }),
    {
        let ghost now = store_of(arenas);
        match acc {
            ChainOrIndex::Chain(Chain::Nil) => {
                proof {
                    lemma_drop_end(done, now, step_chain_node(Chain::Nil), left);
                }
                break ;
            },
            ChainOrIndex::Chain(Chain::Cons { head, tail }) => {
                let ghost node = step_chain_node(Chain::Cons { head, tail });
                proof {
                    lemma_link_taken(now, node.first->0, left);
                }
                let head_value = arenas.1.1.0.take(head).unwrap();
                assert(store_of(arenas) == now.without(node.first->0));
                step_drop(head_value, arenas, Ghost((left - 1) as nat));
                proof {
                    lemma_head_dropped(before, done, now, store_of(arenas), node, whole, left);
                    done = done.union(link_footprint(now.heap(), node.first, left));
                }
                acc = ChainOrIndex::Index(tail);
            },
            ChainOrIndex::Index(index) => {
                let ghost at = slot(step_chains_arena(), index@);
                proof {
                    lemma_cell_taken(before, done, now, at, whole, left);
                }
                let cell = arenas.1.1.1.0.take(index).unwrap();
                assert(store_of(arenas) == now.without(at));
                proof {
                    done = done.insert(at);
                    left = (left - 1) as nat;
                }
                acc = ChainOrIndex::Chain(cell);
            },
        }
    }
}

/// Drops a timed step: its pattern, taken out of its slot, with all that the
/// pattern holds.
pub fn step_drop<
    PA: Arena<Pattern>,
    CA: Arena<Chain<Pattern>>,
    SA: Arena<TimedStep>,
    SCA: Arena<Chain<TimedStep>>,
>(step: TimedStep, arenas: &mut (PA, (CA, (SA, (SCA, ())))), Ghost(depth): Ghost<nat>)
    requires
        arenas_wf(old(arenas)),
        owned(store_of(old(arenas)).heap(), step_node(step), depth),
    ensures
        same_arenas(old(arenas), final(arenas)),
        dropped(store_of(old(arenas)), step_node(step), store_of(final(arenas)), depth),
    decreases depth, 0nat,
{
    let ghost before = store_of(arenas);
    let ghost node = step_node(step);
    proof {
        lemma_link_taken(before, node.first->0, depth);
    }
    let TimedStep(_, pattern_index) = step;
    let pattern = arenas.0.take(pattern_index).unwrap();
    assert(store_of(arenas) == before.without(node.first->0));
    pattern_drop(pattern, arenas, Ghost((depth - 1) as nat));
    proof {
        lemma_single_dropped(before, store_of(arenas), node, depth);
    }
}

/// Drops a pattern with all that it holds: for a composite, its chain.
pub fn pattern_drop<
    PA: Arena<Pattern>,
    CA: Arena<Chain<Pattern>>,
    SA: Arena<TimedStep>,
    SCA: Arena<Chain<TimedStep>>,
>(pattern: Pattern, arenas: &mut (PA, (CA, (SA, (SCA, ())))), Ghost(depth): Ghost<nat>)
    requires
        arenas_wf(old(arenas)),
        owned(store_of(old(arenas)).heap(), pattern_node(pattern), depth),
    ensures
        same_arenas(old(arenas), final(arenas)),
        dropped(store_of(old(arenas)), pattern_node(pattern), store_of(final(arenas)), depth),
    decreases depth, 2nat,
{
    let ghost before = store_of(arenas);
    match pattern {
        Pattern::Cat(chain) => {
            proof {
                lemma_same_links(before, pattern_node(pattern), chain_node(chain), depth);
            }
            chain_drop(chain, arenas, Ghost(depth));
        },
        Pattern::Sequence(chain) => {
            proof {
                lemma_same_links(before, pattern_node(pattern), chain_node(chain), depth);
            }
            chain_drop(chain, arenas, Ghost(depth));
        },
        Pattern::Stack(chain) => {
            proof {
                lemma_same_links(before, pattern_node(pattern), chain_node(chain), depth);
            }
            chain_drop(chain, arenas, Ghost(depth));
        },
        Pattern::TimeCat(chain) => {
            proof {
                lemma_same_links(before, pattern_node(pattern), step_chain_node(chain), depth);
            }
            step_chain_drop(chain, arenas, Ghost(depth));
        },
        Pattern::Note(_) => {
            proof {
                lemma_leaf_dropped(before, pattern_node(pattern), depth);
            }
        },
        Pattern::Silence => {
            proof {
                lemma_leaf_dropped(before, pattern_node(pattern), depth);
            }
        },
    }
}

impl<
    PA: Arena<Pattern>,
    CA: Arena<Chain<Pattern>>,
    SA: Arena<TimedStep>,
    SCA: Arena<Chain<TimedStep>>,
> ArenaHandler<(PA, (CA, (SA, (SCA, ()))))> for Pattern {
    type Indices = (Pattern, (Chain<Pattern>, (TimedStep, (Chain<TimedStep>, ()))));

    open spec fn resolves_in(&self, arenas: &(PA, (CA, (SA, (SCA, ()))))) -> bool {
        arenas_wf(arenas) && resolves(store_of(arenas), pattern_node(*self))
    }

    open spec fn owned_in(&self, arenas: &(PA, (CA, (SA, (SCA, ()))))) -> bool {
        arenas_wf(arenas) && holds_alone(store_of(arenas), pattern_node(*self))
    }

    open spec fn fits_in(&self, arenas: &(PA, (CA, (SA, (SCA, ()))))) -> bool {
        fits(arenas, pattern_node(*self), height(store_of(arenas), pattern_node(*self)))
    }

    open spec fn copied_in(
        &self,
        before: &(PA, (CA, (SA, (SCA, ())))),
        copy: &Self,
        after: &(PA, (CA, (SA, (SCA, ())))),
    ) -> bool {
        &&& same_arenas(before, after)
        &&& copied(
            store_of(before),
            pattern_node(*self),
            store_of(after),
            pattern_node(*copy),
            height(store_of(before), pattern_node(*self)),
        )
    }

    open spec fn dropped_in(
        &self,
        before: &(PA, (CA, (SA, (SCA, ())))),
        after: &(PA, (CA, (SA, (SCA, ())))),
    ) -> bool {
        &&& same_arenas(before, after)
        &&& dropped(
            store_of(before),
            pattern_node(*self),
            store_of(after),
            height(store_of(before), pattern_node(*self)),
        )
    }

    fn drop_in(self, arenas: &mut (PA, (CA, (SA, (SCA, ()))))) {
        pattern_drop(self, arenas, Ghost(height(store_of(arenas), pattern_node(self))))
    }

    fn clone_in(&self, arenas: &mut (PA, (CA, (SA, (SCA, ()))))) -> (copy: Self) {
        pattern_clone(self, arenas, Ghost(height(store_of(arenas), pattern_node(*self))))
    }
}

impl<
    PA: Arena<Pattern>,
    CA: Arena<Chain<Pattern>>,
    SA: Arena<TimedStep>,
    SCA: Arena<Chain<TimedStep>>,
> ArenaHandler<(PA, (CA, (SA, (SCA, ()))))> for TimedStep {
    type Indices = (Pattern, (Chain<Pattern>, (TimedStep, (Chain<TimedStep>, ()))));

    open spec fn resolves_in(&self, arenas: &(PA, (CA, (SA, (SCA, ()))))) -> bool {
        arenas_wf(arenas) && resolves(store_of(arenas), step_node(*self))
    }

    open spec fn owned_in(&self, arenas: &(PA, (CA, (SA, (SCA, ()))))) -> bool {
        arenas_wf(arenas) && holds_alone(store_of(arenas), step_node(*self))
    }

    open spec fn fits_in(&self, arenas: &(PA, (CA, (SA, (SCA, ()))))) -> bool {
        fits(arenas, step_node(*self), height(store_of(arenas), step_node(*self)))
    }

    open spec fn copied_in(
        &self,
        before: &(PA, (CA, (SA, (SCA, ())))),
        copy: &Self,
        after: &(PA, (CA, (SA, (SCA, ())))),
    ) -> bool {
        &&& same_arenas(before, after)
        &&& copied(
            store_of(before),
            step_node(*self),
            store_of(after),
            step_node(*copy),
            height(store_of(before), step_node(*self)),
        )
    }

    open spec fn dropped_in(
        &self,
        before: &(PA, (CA, (SA, (SCA, ())))),
        after: &(PA, (CA, (SA, (SCA, ())))),
    ) -> bool {
        &&& same_arenas(before, after)
        &&& dropped(
            store_of(before),
            step_node(*self),
            store_of(after),
            height(store_of(before), step_node(*self)),
        )
    }

    fn drop_in(self, arenas: &mut (PA, (CA, (SA, (SCA, ()))))) {
        step_drop(self, arenas, Ghost(height(store_of(arenas), step_node(self))))
    }

    fn clone_in(&self, arenas: &mut (PA, (CA, (SA, (SCA, ()))))) -> (copy: Self) {
        step_clone(self, arenas, Ghost(height(store_of(arenas), step_node(*self))))
    }
}

} // verus!
