//! Patterns: trees of sequences of patterns, held together by arena handles.

use crate::arena::chain::Chain;
use crate::arena::index::Index;
use crate::ast::note::NoteUnit;
use vstd::prelude::*;

verus! {

/// A length of time, in ticks.
#[derive(Debug, Clone, Copy, PartialEq, Eq, PartialOrd, Ord, Structural)]
pub struct TimeUnit(pub u32);

/// A pattern together with the time that it is given.
#[derive(Debug, PartialEq, Eq, PartialOrd, Ord)]
pub struct TimedStep(pub TimeUnit, pub Index<Pattern>);

/// A pattern. Composite patterns hold the first cell of a chain of their
/// parts; the parts themselves live in arenas.
#[derive(Debug, PartialEq, Eq, PartialOrd, Ord)]
pub enum Pattern {
    /// The parts one after another, one per cycle.
    Cat(Chain<Pattern>),
    /// The parts one after another, within one cycle.
    Sequence(Chain<Pattern>),
    /// The parts at the same time.
    Stack(Chain<Pattern>),
    /// The parts one after another, each for its own length of time.
    TimeCat(Chain<TimedStep>),
    /// A single note.
    Note(NoteUnit),
    /// Nothing.
    Silence,
}

impl Clone for TimedStep {
    /// A copy of the step with a copy of its handle. The pattern behind the
    /// handle is not duplicated.
    fn clone(&self) -> (copy: Self)
        ensures
            copy == *self,
    {
        TimedStep(self.0, self.1.clone())
    }
}

impl Clone for Pattern {
    /// A copy of the pattern with copies of its handles. What the handles
    /// name is not duplicated.
    fn clone(&self) -> (copy: Self)
        ensures
            copy == *self,
    {
        match self {
            Pattern::Cat(chain) => Pattern::Cat(chain.clone()),
            Pattern::Sequence(chain) => Pattern::Sequence(chain.clone()),
            Pattern::Stack(chain) => Pattern::Stack(chain.clone()),
            Pattern::TimeCat(chain) => Pattern::TimeCat(chain.clone()),
            Pattern::Note(note) => Pattern::Note(*note),
            Pattern::Silence => Pattern::Silence,
        }
    }
}

} // verus!
