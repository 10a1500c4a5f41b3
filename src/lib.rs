//! A fixed-capacity, block-based pool allocator.
//!
//! The arena is split into equal blocks; an index table records which runs of
//! blocks are handed out. Handles name an index slot, never an address, so the
//! arena can be compacted while handles are outstanding.

pub mod counting;
pub mod pool;
pub mod harness;
