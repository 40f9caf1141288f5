//! A fixed-size slab allocator: pages carved into equal cells, grouped by
//! size class into caches of partial and full slabs.
//!
//! Addresses are plain `usize` values; the allocator decides which cells
//! are handed out and never reads or writes the memory behind them.
pub mod allocator;
pub mod cache;
pub mod page;
pub mod slab;

pub use allocator::SlabAllocator;
