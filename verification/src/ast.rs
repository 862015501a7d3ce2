//! The payload types stored in arenas.

pub mod equality;
pub mod handler;
pub mod laws;
pub mod note;
pub mod pattern;
pub mod proofs;
pub mod store;
