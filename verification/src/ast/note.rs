//! What a pattern plays: notes by name, by number or by frequency.

use vstd::prelude::*;

verus! {

/// A note given by its number.
#[derive(Debug, Clone, Copy, PartialEq, Eq, PartialOrd, Ord, Structural)]
pub struct Number(pub u16);

/// A note given by its letter and octave. Octaves are counted from one.
#[derive(Debug, Clone, Copy, PartialEq, Eq, PartialOrd, Ord, Structural)]
pub struct Note {
    pub note: Letter,
    pub octave: u8,
}

impl Note {
    /// The octave is one that exists: it is not zero.
    pub open spec fn wf(&self) -> bool {
        self.octave != 0
    }

    /// The note `note` in the octave `octave`; `None` for the octave zero,
    /// which does not exist.
    pub fn new(note: Letter, octave: u8) -> (made: Option<Note>)
        ensures
            octave == 0 ==> made is None,
            octave != 0 ==> made == Some(Note { note, octave }) && made->0.wf(),
    {
        if octave == 0 {
            None
        } else {
            Some(Note { note, octave })
        }
    }
}

/// The twelve pitch classes.
#[derive(Debug, Clone, Copy, PartialEq, Eq, PartialOrd, Ord, Structural)]
pub enum Letter {
    A,
    ASharp,
    B,
    C,
    CSharp,
    D,
    DSharp,
    E,
    F,
    FSharp,
    G,
    GSharp,
}

/// A note given by its frequency in hertz, held as the bit pattern of a
/// single-precision number. Two frequencies are the same when their bit
/// patterns are.
#[derive(Debug, Clone, Copy, PartialEq, Eq, PartialOrd, Ord, Structural)]
pub struct Frequency(pub u32);

/// One note, in any of the three ways of naming it.
#[derive(Debug, Clone, Copy, PartialEq, Eq, PartialOrd, Ord, Structural)]
pub enum NoteUnit {
    Letter(Letter),
    Number(Number),
    Frequency(Frequency),
}

} // verus!
