//! A minimal lazy tensor engine.
//!
//! Element-wise arithmetic over flat arrays of 32-bit words is recorded as a
//! directed acyclic graph of immutable lazy-buffer nodes, realized on a
//! pluggable compute backend, and differentiated in reverse mode by walking
//! the same graph.  All shared state (the node registry, the tensor table and
//! the memoization caches) lives in an explicit [`engine::Engine`] value that
//! callers thread through the API.

pub mod backend;
pub mod engine;
pub mod handle;
pub mod lazybuffer;
pub mod node;
pub mod schedule;
pub mod tensor;
pub mod training;
pub mod viz;
