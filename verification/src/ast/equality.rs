//! Structural equality of patterns that may live in different arenas.

use crate::arena::chain::Chain;
use crate::arena::equality::ArenaEq;
use crate::arena::graph::Tree;
use crate::arena::graph::tree_of;
use crate::arena::graph::unfolds;
use crate::arena::Arena;
use crate::ast::pattern::Pattern;
use crate::ast::pattern::TimedStep;
use crate::ast::proofs::denotes;
use crate::ast::proofs::height;
use crate::ast::store::arenas_wf;
use crate::ast::store::Label;
use crate::ast::store::chain_node;
use crate::ast::store::pattern_node;
use crate::ast::store::step_chain_node;
use crate::ast::store::step_node;
use crate::ast::store::store_of;
use vstd::prelude::*;

verus! {

/// Walks two chains of patterns in lockstep and tells whether they have the
/// same length and hold, place for place, patterns that denote the same.
pub fn chain_iterators_eq<
    PA: Arena<Pattern>,
    CA: Arena<Chain<Pattern>>,
    SA: Arena<TimedStep>,
    SCA: Arena<Chain<TimedStep>>,
>(
    this: &Chain<Pattern>,
    other: &Chain<Pattern>,
    this_arenas: &(PA, (CA, (SA, (SCA, ())))),
    other_arenas: &(PA, (CA, (SA, (SCA, ())))),
    Ghost(this_depth): Ghost<nat>,
    Ghost(other_depth): Ghost<nat>,
) -> (r: bool)
    requires
        arenas_wf(this_arenas),
        arenas_wf(other_arenas),
        unfolds(store_of(this_arenas).heap(), chain_node(*this), this_depth),
        unfolds(store_of(other_arenas).heap(), chain_node(*other), other_depth),
    ensures
        r == (tree_of(store_of(this_arenas).heap(), chain_node(*this), this_depth) == tree_of(
            store_of(other_arenas).heap(),
            chain_node(*other),
            other_depth,
        )),
    decreases this_depth, 1nat,
{
    let ghost this_heap = store_of(this_arenas).heap();
    let ghost other_heap = store_of(other_arenas).heap();
    let ghost mut here: nat = this_depth;
    let ghost mut there: nat = other_depth;
    let mut this_cell = this;
    let mut other_cell = other;
    loop
        invariant
            arenas_wf(this_arenas),
            arenas_wf(other_arenas),
            this_heap == store_of(this_arenas).heap(),
            other_heap == store_of(other_arenas).heap(),
            here <= this_depth,
            unfolds(this_heap, chain_node(*this_cell), here),
            unfolds(other_heap, chain_node(*other_cell), there),
            (tree_of(this_heap, chain_node(*this), this_depth) == tree_of(
                other_heap,
                chain_node(*other),
                other_depth,
            )) == (tree_of(this_heap, chain_node(*this_cell), here) == tree_of(
                other_heap,
                chain_node(*other_cell),
                there,
            )),
        decreases here,
    {
        match (this_cell, other_cell) {
            (Chain::Nil, Chain::Nil) => {
                return true;
            },
            (
                Chain::Cons { head: this_head, tail: this_tail },
                Chain::Cons { head: other_head, tail: other_tail },
            ) => {
                let (this_unit, other_unit) = match (
                    this_arenas.0.peek(this_head),
                    other_arenas.0.peek(other_head),
                ) {
                    (Ok(this_unit), Ok(other_unit)) => (this_unit, other_unit),
                    _ => {
                        return false;
                    },
                };
                if !pattern_eq(
                    this_unit,
                    other_unit,
                    this_arenas,
                    other_arenas,
                    Ghost((here - 1) as nat),
                    Ghost((there - 1) as nat),
                ) {
                    return false;
                }
                match (this_arenas.1.0.peek(this_tail), other_arenas.1.0.peek(other_tail)) {
                    (Ok(this_next), Ok(other_next)) => {
                        this_cell = this_next;
                        other_cell = other_next;
                    },
                    _ => {
                        return false;
                    },
                }
                proof {
                    here = (here - 1) as nat;
                    there = (there - 1) as nat;
                }
            },
            _ => {
                return false;
            },
        }
    }
}

/// Walks two chains of timed steps in lockstep and tells whether they have
/// the same length and hold, place for place, steps that denote the same.
pub fn step_iterators_eq<
    PA: Arena<Pattern>,
    CA: Arena<Chain<Pattern>>,
    SA: Arena<TimedStep>,
    SCA: Arena<Chain<TimedStep>>,
>(
    this: &Chain<TimedStep>,
    other: &Chain<TimedStep>,
    this_arenas: &(PA, (CA, (SA, (SCA, ())))),
    other_arenas: &(PA, (CA, (SA, (SCA, ())))),
    Ghost(this_depth): Ghost<nat>,
    Ghost(other_depth): Ghost<nat>,
) -> (r: bool)
    requires
        arenas_wf(this_arenas),
        arenas_wf(other_arenas),
        unfolds(store_of(this_arenas).heap(), step_chain_node(*this), this_depth),
        unfolds(store_of(other_arenas).heap(), step_chain_node(*other), other_depth),
    ensures
        r == (tree_of(store_of(this_arenas).heap(), step_chain_node(*this), this_depth) == tree_of(
            store_of(other_arenas).heap(),
            step_chain_node(*other),
            other_depth,
        )),
    decreases this_depth, 1nat,
{
    let ghost this_heap = store_of(this_arenas).heap();
    let ghost other_heap = store_of(other_arenas).heap();
    let ghost mut here: nat = this_depth;
    let ghost mut there: nat = other_depth;
    let mut this_cell = this;
    let mut other_cell = other;
    loop
        invariant
            arenas_wf(this_arenas),
            arenas_wf(other_arenas),
            this_heap == store_of(this_arenas).heap(),
            other_heap == store_of(other_arenas).heap(),
            here <= this_depth,
            unfolds(this_heap, step_chain_node(*this_cell), here),
            unfolds(other_heap, step_chain_node(*other_cell), there),
            (tree_of(this_heap, step_chain_node(*this), this_depth) == tree_of(
                other_heap,
                step_chain_node(*other),
                other_depth,
            )) == (tree_of(this_heap, step_chain_node(*this_cell), here) == tree_of(
                other_heap,
                step_chain_node(*other_cell),
                there,
            )),
        decreases here,
    {
        match (this_cell, other_cell) {
            (Chain::Nil, Chain::Nil) => {
                return true;
            },
            (
                Chain::Cons { head: this_head, tail: this_tail },
                Chain::Cons { head: other_head, tail: other_tail },
            ) => {
                let (this_unit, other_unit) = match (
                    this_arenas.1.1.0.peek(this_head),
                    other_arenas.1.1.0.peek(other_head),
                ) {
                    (Ok(this_unit), Ok(other_unit)) => (this_unit, other_unit),
                    _ => {
                        return false;
                    },
                };
                if !step_eq(
                    this_unit,
                    other_unit,
                    this_arenas,
                    other_arenas,
                    Ghost((here - 1) as nat),
                    Ghost((there - 1) as nat),
                ) {
                    return false;
                }
                match (
                    this_arenas.1.1.1.0.peek(this_tail),
                    other_arenas.1.1.1.0.peek(other_tail),
                ) {
                    (Ok(this_next), Ok(other_next)) => {
                        this_cell = this_next;
                        other_cell = other_next;
                    },
                    _ => {
                        return false;
                    },
                }
                proof {
                    here = (here - 1) as nat;
                    there = (there - 1) as nat;
                }
            },
            _ => {
                return false;
            },
        }
    }
}

/// Whether two timed steps have the same length and patterns that denote the
/// same.
pub fn step_eq<
    PA: Arena<Pattern>,
    CA: Arena<Chain<Pattern>>,
    SA: Arena<TimedStep>,
    SCA: Arena<Chain<TimedStep>>,
>(
    this: &TimedStep,
    other: &TimedStep,
    this_arenas: &(PA, (CA, (SA, (SCA, ())))),
    other_arenas: &(PA, (CA, (SA, (SCA, ())))),
    Ghost(this_depth): Ghost<nat>,
    Ghost(other_depth): Ghost<nat>,
) -> (r: bool)
    requires
        arenas_wf(this_arenas),
        arenas_wf(other_arenas),
        unfolds(store_of(this_arenas).heap(), step_node(*this), this_depth),
        unfolds(store_of(other_arenas).heap(), step_node(*other), other_depth),
    ensures
        r == (tree_of(store_of(this_arenas).heap(), step_node(*this), this_depth) == tree_of(
            store_of(other_arenas).heap(),
            step_node(*other),
            other_depth,
        )),
    decreases this_depth, 0nat,
{
    if this.0 != other.0 {
        return false;
    }
    match (this_arenas.0.peek(&this.1), other_arenas.0.peek(&other.1)) {
        (Ok(this_pattern), Ok(other_pattern)) => pattern_eq(
            this_pattern,
            other_pattern,
            this_arenas,
            other_arenas,
            Ghost((this_depth - 1) as nat),
            Ghost((other_depth - 1) as nat),
        ),
        _ => false,
    }
}

/// Whether two patterns denote the same: the same variant, the same note for
/// a note, and for a composite the same parts in the same order.
pub fn pattern_eq<
    PA: Arena<Pattern>,
    CA: Arena<Chain<Pattern>>,
    SA: Arena<TimedStep>,
    SCA: Arena<Chain<TimedStep>>,
>(
    this: &Pattern,
    other: &Pattern,
    this_arenas: &(PA, (CA, (SA, (SCA, ())))),
    other_arenas: &(PA, (CA, (SA, (SCA, ())))),
    Ghost(this_depth): Ghost<nat>,
    Ghost(other_depth): Ghost<nat>,
) -> (r: bool)
    requires
        arenas_wf(this_arenas),
        arenas_wf(other_arenas),
        unfolds(store_of(this_arenas).heap(), pattern_node(*this), this_depth),
        unfolds(store_of(other_arenas).heap(), pattern_node(*other), other_depth),
    ensures
        r == (tree_of(store_of(this_arenas).heap(), pattern_node(*this), this_depth) == tree_of(
            store_of(other_arenas).heap(),
            pattern_node(*other),
            other_depth,
        )),
    decreases this_depth, 2nat,
{
    match (this, other) {
        (Pattern::Cat(this_chain), Pattern::Cat(other_chain)) => chain_iterators_eq(
            this_chain,
            other_chain,
            this_arenas,
            other_arenas,
            Ghost(this_depth),
            Ghost(other_depth),
        ),
        (Pattern::Sequence(this_chain), Pattern::Sequence(other_chain)) => chain_iterators_eq(
            this_chain,
            other_chain,
            this_arenas,
            other_arenas,
            Ghost(this_depth),
            Ghost(other_depth),
        ),
        (Pattern::Stack(this_chain), Pattern::Stack(other_chain)) => chain_iterators_eq(
            this_chain,
            other_chain,
            this_arenas,
            other_arenas,
            Ghost(this_depth),
            Ghost(other_depth),
        ),
        (Pattern::TimeCat(this_chain), Pattern::TimeCat(other_chain)) => step_iterators_eq(
            this_chain,
            other_chain,
            this_arenas,
            other_arenas,
            Ghost(this_depth),
            Ghost(other_depth),
        ),
        (Pattern::Note(this_note), Pattern::Note(other_note)) => *this_note == *other_note,
        (Pattern::Silence, Pattern::Silence) => true,
        _ => false,
    }
}

impl<
    PA: Arena<Pattern>,
    CA: Arena<Chain<Pattern>>,
    SA: Arena<TimedStep>,
    SCA: Arena<Chain<TimedStep>>,
> ArenaEq<(PA, (CA, (SA, (SCA, ()))))> for Pattern {
    type Value = Tree<Label>;

    open spec fn value_in(&self, arenas: &(PA, (CA, (SA, (SCA, ()))))) -> Tree<Label> {
        denotes(store_of(arenas), pattern_node(*self))
    }

    fn eq_in(
        this: &Self,
        other: &Self,
        this_arenas: &(PA, (CA, (SA, (SCA, ())))),
        other_arenas: &(PA, (CA, (SA, (SCA, ())))),
    ) -> (equal: bool) {
        pattern_eq(
            this,
            other,
            this_arenas,
            other_arenas,
            Ghost(height(store_of(this_arenas), pattern_node(*this))),
            Ghost(height(store_of(other_arenas), pattern_node(*other))),
        )
    }
}

impl<
    PA: Arena<Pattern>,
    CA: Arena<Chain<Pattern>>,
    SA: Arena<TimedStep>,
    SCA: Arena<Chain<TimedStep>>,
> ArenaEq<(PA, (CA, (SA, (SCA, ()))))> for TimedStep {
    type Value = Tree<Label>;

    open spec fn value_in(&self, arenas: &(PA, (CA, (SA, (SCA, ()))))) -> Tree<Label> {
        denotes(store_of(arenas), step_node(*self))
    }

    fn eq_in(
        this: &Self,
        other: &Self,
        this_arenas: &(PA, (CA, (SA, (SCA, ())))),
        other_arenas: &(PA, (CA, (SA, (SCA, ())))),
    ) -> (equal: bool) {
        step_eq(
            this,
            other,
            this_arenas,
            other_arenas,
            Ghost(height(store_of(this_arenas), step_node(*this))),
            Ghost(height(store_of(other_arenas), step_node(*other))),
        )
    }
}

} // verus!
