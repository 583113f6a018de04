//! A buddy-block memory allocator core.
//!
//! The allocator manages a single power-of-two-sized memory region. Blocks
//! are split in halves on allocation and coalesced with their buddies on
//! release. All bookkeeping (block headers, per-order free lists) is kept in
//! an arena of header records owned by the pool, indexed by block offset;
//! the backing region itself is obtained and released by the caller through
//! a region provider and never touched by this crate.

pub mod buddy_math;
pub mod laws;
pub mod pool;
pub mod size_class;

pub use size_class::btok;
