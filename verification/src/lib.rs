//! Verified building blocks of an IR-builder toolkit: an incremental
//! static-single-assignment (SSA) construction engine that lets a caller
//! emit code one block at a time and read variables without placing merge
//! points by hand, and the capability checks behind the host's path
//! operations.

pub mod errors;
pub mod rights;
pub mod entry;
pub mod ssa;
pub mod context;
pub mod laws;
