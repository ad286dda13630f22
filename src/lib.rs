//! Heap allocator of a small embedded kernel: an address-sorted free list
//! with first-fit search, block splitting and coalescing of neighbours on
//! release, and the system-call layer that forwards memory requests to it.

pub mod allocator;
pub mod heap;
pub mod syscall;
pub mod laws;
