//! The storage backends, and the engine that they share.

pub mod growable_arena;
pub mod helpers;
pub mod scapegoat_arena;
