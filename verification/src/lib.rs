//! Safety bookkeeping for memory that a host (CPU) and a device (GPU) share.
//!
//! The heart of the crate is a range-based access tracker: a buffer's byte
//! extent is partitioned into sub-ranges, each carrying its own access state,
//! and every requested host or device access is classified against the states
//! of the sub-ranges it overlaps before it is recorded.

pub mod buffer;
pub mod range_map;
pub mod sync;
pub mod version;
