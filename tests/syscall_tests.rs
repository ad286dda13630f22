use cpos_heap::allocator::LinkedListAllocator;
use cpos_heap::syscall::{
    finish_write, handle_syscall, sys_alloc, sys_free, syscall_return, write_permitted, Dispatch,
    ERROR_INVALID_ARGUMENT, ERROR_INVALID_SYSCALL, SYS_ALLOC, SYS_FREE, SYS_READ, SYS_WRITE,
};

fn fresh() -> LinkedListAllocator {
    let mut a = LinkedListAllocator::new();
    a.init(0x1000, 0x1000);
    a
}

#[test]
fn free_of_null_is_invalid_argument() {
    let mut a = fresh();
    assert_eq!(handle_syscall(&mut a, SYS_FREE, 0, 0, 0), Dispatch::Done(-2));
    assert_eq!(sys_free(&mut a, 0), Err(ERROR_INVALID_ARGUMENT));
}

#[test]
fn alloc_of_zero_is_invalid_argument() {
    let mut a = fresh();
    assert_eq!(handle_syscall(&mut a, SYS_ALLOC, 0, 0, 0), Dispatch::Done(-2));
    assert_eq!(sys_alloc(&mut a, 0), Err(ERROR_INVALID_ARGUMENT));
    assert!(a.live_allocations().is_empty());
}

#[test]
fn unknown_number_is_invalid_syscall() {
    let mut a = fresh();
    assert_eq!(handle_syscall(&mut a, 99, 1, 2, 3), Dispatch::Unknown(-1));
    assert_eq!(handle_syscall(&mut a, SYS_READ, 1, 2, 3), Dispatch::Unknown(-1));
}

#[test]
fn alloc_then_free_succeeds() {
    let mut a = fresh();
    let r = handle_syscall(&mut a, SYS_ALLOC, 64, 0, 0);
    assert_eq!(r, Dispatch::Done(0x1008));
    assert_eq!(handle_syscall(&mut a, SYS_FREE, 0x1008, 0, 0), Dispatch::Done(0));
    assert!(a.live_allocations().is_empty());
}

#[test]
fn alloc_out_of_memory_is_invalid_argument() {
    let mut a = fresh();
    assert_eq!(sys_alloc(&mut a, 5000), Err(ERROR_INVALID_ARGUMENT));
    assert_eq!(sys_alloc(&mut a, 64), Ok(0x1008));
}

#[test]
fn write_requests_are_vetted() {
    let mut a = fresh();
    assert_eq!(handle_syscall(&mut a, SYS_WRITE, 1, 0x5000, 10), Dispatch::Write { buffer: 0x5000, size: 10 });
    assert_eq!(handle_syscall(&mut a, SYS_WRITE, 2, 0x5000, 10), Dispatch::Done(-2));
    assert_eq!(handle_syscall(&mut a, SYS_WRITE, 1, 0, 10), Dispatch::Done(-2));
    assert_eq!(handle_syscall(&mut a, SYS_WRITE, 1, 0x5000, 1025), Dispatch::Done(-2));
    assert!(write_permitted(1, 0x5000, 1024));
    assert!(!write_permitted(1, 0x5000, 1025));
}

#[test]
fn write_completion() {
    assert_eq!(finish_write(true, 5), Ok(5));
    assert_eq!(finish_write(false, 5), Err(ERROR_INVALID_ARGUMENT));
}

#[test]
fn results_become_return_values() {
    assert_eq!(syscall_return(Ok(7)), 7);
    assert_eq!(syscall_return(Err(ERROR_INVALID_SYSCALL)), -1);
    assert_eq!(syscall_return(Err(3)), -3);
}
