//! Bounded-memory external sort of a byte file.
//!
//! The input is cut into runs of at most `cache_size` bytes, each run is sorted
//! on its own, and the runs are merged through small per-run windows. The
//! library holds the arithmetic of that layout, the merge engine as a state
//! machine that asks its caller for reads and writes, and an in-memory driver
//! that states the end-to-end guarantee.

pub mod layout;
pub mod runs;
pub mod engine;
pub mod tracking;
pub mod sorter;
