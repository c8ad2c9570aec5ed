//! A buddy-system memory allocator for a shared-memory heap.
//!
//! The engine manages a contiguous region of bytes as power-of-two sized
//! blocks, identified by their byte offset from the start of the region.
//! All bookkeeping is done over plain offsets and sizes, so the allocation
//! logic is independent of where the region actually lives; the process
//! glue maps a shared-memory segment and adds the base address.

pub mod engine;
pub mod heap;
pub mod region;

