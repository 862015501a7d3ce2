//! Pointer-free, index-based arena storage for recursive pattern graphs.
//!
//! Composite values hold typed [`arena::index::Index`] handles into arenas
//! instead of references. Allocation, deep cloning, deep dropping and
//! structural equality all resolve those handles through the arenas they are
//! handed, and every operation carries a machine-checked contract.

pub mod arena;
pub mod ast;
