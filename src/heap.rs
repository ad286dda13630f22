//! The heap's entry points: one allocator, set up once, then serving
//! requests at the default alignment. Whoever owns the allocator holds it
//! under a lock; a `&mut` borrow is that exclusive access.
use vstd::prelude::*;
use crate::allocator::{
    allocate_post, deallocate_post, BlockHeader, LinkedListAllocator, DEFAULT_ALIGN, HEADER_SIZE,
};

verus! {

/// Where the kernel's heap begins.
pub const HEAP_START: usize = 0x20001000;

/// Size of the kernel's heap in bytes.
pub const HEAP_SIZE: usize = 0x6000;

/// Takes `[heap_start, heap_start + heap_size)` as the heap, all of it free.
pub fn init_heap(heap: &mut LinkedListAllocator, heap_start: usize, heap_size: usize)
    requires
        heap_start + heap_size <= usize::MAX,
        heap_size >= HEADER_SIZE,
    ensures
        final(heap).wf(),
        final(heap).start() == heap_start,
        final(heap).end() == heap_start + heap_size,
        final(heap).blocks() == seq![BlockHeader { start: heap_start, size: heap_size }],
        final(heap).allocations() == Seq::<crate::allocator::Allocation>::empty(),
{
    heap.init(heap_start, heap_size);
}

/// Serves `size` bytes at the default alignment; 0 when the heap is out of
/// memory.
pub fn heap_alloc(heap: &mut LinkedListAllocator, size: usize) -> (r: usize)
    requires
        old(heap).wf(),
    ensures
        final(heap).wf(),
        final(heap).start() == old(heap).start(),
        final(heap).end() == old(heap).end(),
        allocate_post(*old(heap), *final(heap), size as int, DEFAULT_ALIGN as int, r as int),
{
    heap.allocate(size, DEFAULT_ALIGN)
}

/// Hands the allocation at `ptr` back; a null pointer is ignored.
pub fn free(heap: &mut LinkedListAllocator, ptr: usize)
    requires
        old(heap).wf(),
    ensures
        final(heap).wf(),
        final(heap).start() == old(heap).start(),
        final(heap).end() == old(heap).end(),
        ptr == 0 ==> *final(heap) == *old(heap),
        ptr != 0 ==> exists|r: bool| deallocate_post(*old(heap), *final(heap), ptr as int, r),
{
    if ptr != 0 {
        let _ = heap.deallocate(ptr);
    }
}

} // verus!
