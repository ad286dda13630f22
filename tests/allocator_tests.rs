use cpos_heap::allocator::{Allocation, BlockHeader, LinkedListAllocator, HEADER_SIZE};
use cpos_heap::heap::{free, heap_alloc, init_heap, HEAP_SIZE, HEAP_START};

fn fresh() -> LinkedListAllocator {
    let mut a = LinkedListAllocator::new();
    a.init(0x1000, 0x1000);
    a
}

fn regions(a: &LinkedListAllocator) -> Vec<(usize, usize)> {
    a.free_regions().iter().map(|b| (b.start, b.size)).collect()
}

#[test]
fn new_allocator_is_empty() {
    let mut a = LinkedListAllocator::new();
    assert!(a.free_regions().is_empty());
    assert_eq!(a.allocate(1, 4), 0);
}

#[test]
fn init_seeds_one_region() {
    let a = fresh();
    assert_eq!(regions(&a), vec![(0x1000, 0x1000)]);
    assert_eq!(a.heap_start(), 0x1000);
    assert_eq!(a.heap_end(), 0x2000);
    assert!(a.live_allocations().is_empty());
}

#[test]
fn block_header_addresses() {
    let b = BlockHeader::new(0x40, 0x20);
    assert_eq!(b.start_addr(), 0x40);
    assert_eq!(b.end_addr(), 0x60);
}

#[test]
fn fresh_heap_serves_inside_bounds() {
    let mut a = fresh();
    let p = a.allocate(100, 4);
    assert!(p >= 0x1000 && p < 0x2000);
    assert_eq!(p, 0x1008);
    assert_eq!(
        a.live_allocations(),
        vec![Allocation { ptr: 0x1008, size: 100, block_start: 0x1000, block_end: 0x106C }]
    );
}

#[test]
fn zero_size_is_served_as_one_byte() {
    let mut a = fresh();
    let p = a.allocate(0, 4);
    assert_eq!(p, 0x1008);
    assert_eq!(
        a.live_allocations(),
        vec![Allocation { ptr: 0x1008, size: 1, block_start: 0x1000, block_end: 0x1009 }]
    );
    assert_eq!(regions(&a), vec![(0x1009, 0x1000 - 9)]);
}

#[test]
fn alignment_moves_the_address_forward() {
    let mut a = fresh();
    let p = a.allocate(10, 16);
    assert_eq!(p, 0x1010);
    assert_eq!(regions(&a), vec![(0x101A, 0x2000 - 0x101A)]);
}

#[test]
fn split_leaves_exact_remainder() {
    let mut a = fresh();
    a.allocate(100, 4);
    assert_eq!(regions(&a), vec![(0x106C, 4096 - 108)]);
}

#[test]
fn split_remainder_just_over_a_header_stays_free() {
    let mut a = fresh();
    let k = 4096 - HEADER_SIZE - HEADER_SIZE - 1;
    assert_ne!(a.allocate(k, 4), 0);
    assert_eq!(regions(&a), vec![(0x1000 + HEADER_SIZE + k, HEADER_SIZE + 1)]);
}

#[test]
fn split_remainder_of_one_header_is_absorbed() {
    let mut a = fresh();
    let k = 4096 - HEADER_SIZE - HEADER_SIZE;
    assert_ne!(a.allocate(k, 4), 0);
    assert!(regions(&a).is_empty());
}

#[test]
fn oom_boundary() {
    let mut a = fresh();
    assert_eq!(a.allocate(4096 - HEADER_SIZE + 1, 4), 0);
    assert_eq!(regions(&a), vec![(0x1000, 0x1000)]);
    assert_eq!(a.allocate(4096 - HEADER_SIZE, 4), 0x1008);
    assert!(regions(&a).is_empty());
    assert_eq!(a.allocate(1, 4), 0);
}

#[test]
fn huge_request_is_refused() {
    let mut a = fresh();
    assert_eq!(a.allocate(usize::MAX, 4), 0);
}

#[test]
fn release_joins_following_region() {
    let mut a = fresh();
    let p = a.allocate(100, 4);
    assert!(a.deallocate(p));
    assert_eq!(regions(&a), vec![(0x1000, 0x1000)]);
    assert!(a.live_allocations().is_empty());
    assert_eq!(a.allocate(4096 - HEADER_SIZE, 4), 0x1008);
}

#[test]
fn release_joins_preceding_region() {
    let mut a = fresh();
    let x = a.allocate(100, 4);
    let y = a.allocate(100, 4);
    let _z = a.allocate(100, 4);
    assert!(a.deallocate(x));
    assert_eq!(regions(&a), vec![(0x1000, 108), (0x1144, 0x2000 - 0x1144)]);
    assert!(a.deallocate(y));
    assert_eq!(regions(&a), vec![(0x1000, 216), (0x1144, 0x2000 - 0x1144)]);
}

#[test]
fn absorbed_remainder_comes_back() {
    let mut a = fresh();
    let p = a.allocate(4096 - HEADER_SIZE - HEADER_SIZE, 4);
    assert!(regions(&a).is_empty());
    assert!(a.deallocate(p));
    assert_eq!(regions(&a), vec![(0x1000, 0x1000)]);
}

#[test]
fn split_halves_coalesce_in_either_order() {
    for first_left in [true, false] {
        let mut a = fresh();
        let p = a.allocate(100, 4);
        let q = a.allocate(3980, 4);
        assert_eq!(q, 0x1074);
        assert!(regions(&a).is_empty());
        if first_left {
            assert!(a.deallocate(p));
            assert!(a.deallocate(q));
        } else {
            assert!(a.deallocate(q));
            assert!(a.deallocate(p));
        }
        assert_eq!(regions(&a), vec![(0x1000, 0x1000)]);
        assert_eq!(a.allocate(4096 - HEADER_SIZE, 4), 0x1008);
    }
}

#[test]
fn balanced_cycle_restores_capacity() {
    let mut a = LinkedListAllocator::new();
    init_heap(&mut a, 0x1000, 0x1000);
    let p = heap_alloc(&mut a, 100);
    let q = heap_alloc(&mut a, 200);
    let r = heap_alloc(&mut a, 300);
    free(&mut a, q);
    free(&mut a, r);
    free(&mut a, p);
    assert_eq!(regions(&a), vec![(0x1000, 0x1000)]);
    assert_ne!(heap_alloc(&mut a, 0x1000 - HEADER_SIZE), 0);
}

#[test]
fn alloc_free_alloc_scenario() {
    let mut a = fresh();
    let first = a.allocate(100, 4);
    let second = a.allocate(100, 4);
    assert!(first >= 0x1000 && first < 0x2000);
    assert_ne!(first, second);
    assert!(a.deallocate(first));
    assert!(a.deallocate(second));
    assert_eq!(regions(&a), vec![(0x1000, 0x1000)]);
    let third = a.allocate(100, 4);
    assert!(third == first || third == second);
}

#[test]
fn release_of_unknown_pointer_changes_nothing() {
    let mut a = fresh();
    let p = a.allocate(100, 4);
    assert!(!a.deallocate(p + 4));
    assert!(a.deallocate(p));
    assert!(!a.deallocate(p));
    assert_eq!(regions(&a), vec![(0x1000, 0x1000)]);
}

#[test]
fn boundary_functions() {
    let mut a = LinkedListAllocator::new();
    init_heap(&mut a, HEAP_START, HEAP_SIZE);
    let p = heap_alloc(&mut a, 64);
    assert_eq!(p, HEAP_START + HEADER_SIZE);
    free(&mut a, 0);
    assert_eq!(a.live_allocations().len(), 1);
    free(&mut a, p);
    assert!(a.live_allocations().is_empty());
    assert_eq!(regions(&a), vec![(HEAP_START, HEAP_SIZE)]);
}
