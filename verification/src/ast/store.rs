//! The four arenas of a pattern graph, as plain data.
//!
//! A pattern lives in four arenas: one of patterns, one of the cells that
//! chain patterns, one of timed steps and one of the cells that chain timed
//! steps. They are handed around as one right-nested tuple, in that order.

use crate::arena::chain::Chain;
use crate::arena::graph::Node;
use crate::arena::graph::Slot;
use crate::arena::occupant;
use crate::arena::Arena;
use crate::ast::note::NoteUnit;
use crate::ast::pattern::Pattern;
use crate::ast::pattern::TimeUnit;
use crate::ast::pattern::TimedStep;
use vstd::prelude::*;

verus! {

/// The place of the arena of patterns in the tuple of arenas.
pub open spec fn patterns_arena() -> int {
    0
}

/// The place of the arena of pattern cells in the tuple of arenas.
pub open spec fn chains_arena() -> int {
    1
}

/// The place of the arena of timed steps in the tuple of arenas.
pub open spec fn steps_arena() -> int {
    2
}

/// The place of the arena of timed-step cells in the tuple of arenas.
pub open spec fn step_chains_arena() -> int {
    3
}

/// What a stored value says by itself, its handles left aside.
pub enum Label {
    Cat,
    Sequence,
    Stack,
    TimeCat,
    Note(NoteUnit),
    Silence,
    /// A cell of a chain.
    Cell,
    /// A timed step of the given length.
    Step(TimeUnit),
}

/// The slot tables of the four arenas.
pub struct Store {
    pub patterns: Seq<Option<Pattern>>,
    pub chains: Seq<Option<Chain<Pattern>>>,
    pub steps: Seq<Option<TimedStep>>,
    pub step_chains: Seq<Option<Chain<TimedStep>>>,
}

/// The slot of the arena `arena` at `position`.
pub open spec fn slot(arena: int, position: int) -> Slot {
    Slot { arena, position }
}

/// A cell of a chain of patterns, read as a node.
pub open spec fn chain_node(chain: Chain<Pattern>) -> Node<Label> {
    match chain {
        Chain::Nil => Node { label: Label::Cell, first: None, second: None },
        Chain::Cons { head, tail } => Node {
            label: Label::Cell,
            first: Some(slot(patterns_arena(), head@)),
            second: Some(slot(chains_arena(), tail@)),
        },
    }
}

/// A cell of a chain of timed steps, read as a node.
pub open spec fn step_chain_node(chain: Chain<TimedStep>) -> Node<Label> {
    match chain {
        Chain::Nil => Node { label: Label::Cell, first: None, second: None },
        Chain::Cons { head, tail } => Node {
            label: Label::Cell,
            first: Some(slot(steps_arena(), head@)),
            second: Some(slot(step_chains_arena(), tail@)),
        },
    }
}

/// A timed step, read as a node.
pub open spec fn step_node(step: TimedStep) -> Node<Label> {
    Node { label: Label::Step(step.0), first: Some(slot(patterns_arena(), step.1@)), second: None }
}

/// The label of a pattern: its variant, with the note of a `Note`.
pub open spec fn pattern_label(pattern: Pattern) -> Label {
    match pattern {
        Pattern::Cat(_) => Label::Cat,
        Pattern::Sequence(_) => Label::Sequence,
        Pattern::Stack(_) => Label::Stack,
        Pattern::TimeCat(_) => Label::TimeCat,
        Pattern::Note(note) => Label::Note(note),
        Pattern::Silence => Label::Silence,
    }
}

/// A pattern, read as a node: its label, and the handles of the first cell
/// of its chain.
pub open spec fn pattern_node(pattern: Pattern) -> Node<Label> {
    let links = match pattern {
        Pattern::Cat(chain) => chain_node(chain),
        Pattern::Sequence(chain) => chain_node(chain),
        Pattern::Stack(chain) => chain_node(chain),
        Pattern::TimeCat(chain) => step_chain_node(chain),
        Pattern::Note(_) => Node { label: Label::Cell, first: None, second: None },
        Pattern::Silence => Node { label: Label::Cell, first: None, second: None },
    };
    Node { label: pattern_label(pattern), first: links.first, second: links.second }
}

impl Store {
    /// How many positions the arena `arena` has.
    pub open spec fn len_of(self, arena: int) -> nat {
        if arena == patterns_arena() {
            self.patterns.len()
        } else if arena == chains_arena() {
            self.chains.len()
        } else if arena == steps_arena() {
            self.steps.len()
        } else if arena == step_chains_arena() {
            self.step_chains.len()
        } else {
            0
        }
    }

    /// The slot is occupied.
    pub open spec fn holds(self, at: Slot) -> bool {
        if at.arena == patterns_arena() {
            occupant(self.patterns, at.position) is Some
        } else if at.arena == chains_arena() {
            occupant(self.chains, at.position) is Some
        } else if at.arena == steps_arena() {
            occupant(self.steps, at.position) is Some
        } else if at.arena == step_chains_arena() {
            occupant(self.step_chains, at.position) is Some
        } else {
            false
        }
    }

    /// What the occupied slot holds, read as a node.
    pub open spec fn node_at(self, at: Slot) -> Node<Label> {
        if at.arena == patterns_arena() {
            pattern_node(self.patterns[at.position]->0)
        } else if at.arena == chains_arena() {
            chain_node(self.chains[at.position]->0)
        } else if at.arena == steps_arena() {
            step_node(self.steps[at.position]->0)
        } else {
            step_chain_node(self.step_chains[at.position]->0)
        }
    }

    /// The occupied slots of the four arenas, each with the node that it
    /// holds.
    pub open spec fn heap(self) -> Map<Slot, Node<Label>> {
        Map::new(|at: Slot| self.holds(at), |at: Slot| self.node_at(at))
    }

    /// `later` has every position of `self`, holding what it holds in `self`;
    /// it may have more.
    pub open spec fn extended_by(self, later: Store) -> bool {
        &&& self.patterns.is_prefix_of(later.patterns)
        &&& self.chains.is_prefix_of(later.chains)
        &&& self.steps.is_prefix_of(later.steps)
        &&& self.step_chains.is_prefix_of(later.step_chains)
    }

    /// The slot lies past the end of its arena.
    pub open spec fn beyond(self, at: Slot) -> bool {
        at.position >= self.len_of(at.arena)
    }

    /// The store with the slot `at` emptied.
    pub open spec fn without(self, at: Slot) -> Store {
        if at.arena == patterns_arena() {
            Store { patterns: self.patterns.update(at.position, None), ..self }
        } else if at.arena == chains_arena() {
            Store { chains: self.chains.update(at.position, None), ..self }
        } else if at.arena == steps_arena() {
            Store { steps: self.steps.update(at.position, None), ..self }
        } else if at.arena == step_chains_arena() {
            Store { step_chains: self.step_chains.update(at.position, None), ..self }
        } else {
            self
        }
    }

    /// `later` has the positions of `self`; the slots of `gone` are empty in
    /// it, and every other slot holds what it holds in `self`.
    #[verifier::opaque]
    pub open spec fn emptied_to(self, gone: Set<Slot>, later: Store) -> bool {
        &&& later.patterns.len() == self.patterns.len()
        &&& later.chains.len() == self.chains.len()
        &&& later.steps.len() == self.steps.len()
        &&& later.step_chains.len() == self.step_chains.len()
        &&& forall|i: int|
            0 <= i < self.patterns.len() ==> #[trigger] later.patterns[i] == if gone.contains(
                slot(patterns_arena(), i),
            ) {
                None
            } else {
                self.patterns[i]
            }
        &&& forall|i: int|
            0 <= i < self.chains.len() ==> #[trigger] later.chains[i] == if gone.contains(
                slot(chains_arena(), i),
            ) {
                None
            } else {
                self.chains[i]
            }
        &&& forall|i: int|
            0 <= i < self.steps.len() ==> #[trigger] later.steps[i] == if gone.contains(
                slot(steps_arena(), i),
            ) {
                None
            } else {
                self.steps[i]
            }
        &&& forall|i: int|
            0 <= i < self.step_chains.len() ==> #[trigger] later.step_chains[i] == if gone.contains(
                slot(step_chains_arena(), i),
            ) {
                None
            } else {
                self.step_chains[i]
            }
    }
}

/// The slot tables of a tuple of four arenas.
pub open spec fn store_of<
    PA: Arena<Pattern>,
    CA: Arena<Chain<Pattern>>,
    SA: Arena<TimedStep>,
    SCA: Arena<Chain<TimedStep>>,
>(arenas: &(PA, (CA, (SA, (SCA, ()))))) -> Store {
    Store {
        patterns: arenas.0.slots(),
        chains: arenas.1.0.slots(),
        steps: arenas.1.1.0.slots(),
        step_chains: arenas.1.1.1.0.slots(),
    }
}

/// Each of the four arenas is well formed.
pub open spec fn arenas_wf<
    PA: Arena<Pattern>,
    CA: Arena<Chain<Pattern>>,
    SA: Arena<TimedStep>,
    SCA: Arena<Chain<TimedStep>>,
>(arenas: &(PA, (CA, (SA, (SCA, ()))))) -> bool {
    &&& arenas.0.wf()
    &&& arenas.1.0.wf()
    &&& arenas.1.1.0.wf()
    &&& arenas.1.1.1.0.wf()
}

/// The capacity of the arena at place `arena` of the tuple.
pub open spec fn capacity_of<
    PA: Arena<Pattern>,
    CA: Arena<Chain<Pattern>>,
    SA: Arena<TimedStep>,
    SCA: Arena<Chain<TimedStep>>,
>(arenas: &(PA, (CA, (SA, (SCA, ())))), arena: int) -> nat {
    if arena == patterns_arena() {
        arenas.0.capacity()
    } else if arena == chains_arena() {
        arenas.1.0.capacity()
    } else if arena == steps_arena() {
        arenas.1.1.0.capacity()
    } else if arena == step_chains_arena() {
        arenas.1.1.1.0.capacity()
    } else {
        0
    }
}

} // verus!
