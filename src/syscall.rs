//! System calls: numbers, error codes, and the dispatcher that serves the
//! memory calls from the heap and vets write requests.
use vstd::prelude::*;
use crate::allocator::{allocate_post, deallocate_post, LinkedListAllocator, DEFAULT_ALIGN};
use crate::heap::{free, heap_alloc};

verus! {

pub const SYS_WRITE: u32 = 1;
pub const SYS_READ: u32 = 2;
pub const SYS_EXIT: u32 = 10;
pub const SYS_SLEEP: u32 = 11;
pub const SYS_ALLOC: u32 = 20;
pub const SYS_FREE: u32 = 21;

pub const ERROR_INVALID_SYSCALL: u32 = 1;
pub const ERROR_INVALID_ARGUMENT: u32 = 2;
pub const ERROR_NOT_IMPLEMENTED: u32 = 3;

/// Largest number of bytes one write may send.
pub const MAX_WRITE: u32 = 1024;

/// The only descriptor a write may target: standard output.
pub const STDOUT: u32 = 1;

pub type SyscallResult = Result<u32, u32>;

/// What a system call came to: a finished call with the value for the
/// caller, an accepted write that still has to be carried out, or an
/// unknown call number with the value for the caller.
#[derive(Clone, Copy, Debug, PartialEq, Eq, Structural)]
pub enum Dispatch {
    Done(i32),
    Write { buffer: u32, size: u32 },
    Unknown(i32),
}

/// The value a caller receives: the result itself on success, the negated
/// error code on failure.
pub open spec fn return_value(result: SyscallResult) -> int {
    match result {
        Ok(v) => (v as i32) as int,
        Err(e) => -(e as int),
    }
}

/// Turns a result into the value a caller receives.
pub fn syscall_return(result: SyscallResult) -> (r: i32)
    requires
        result is Err ==> result->Err_0 <= i32::MAX,
    ensures
        r == return_value(result),
{
    match result {
        Ok(val) => val as i32,
        Err(err) => -(err as i32),
    }
}

/// A write is carried out only to standard output, from a non-null buffer,
/// and for at most `MAX_WRITE` bytes.
pub fn write_permitted(fd: u32, buffer: u32, size: u32) -> (r: bool)
    ensures
        r == write_permitted_spec(fd, buffer, size),
{
    fd == STDOUT && buffer != 0 && size <= MAX_WRITE
}

/// The result of a permitted write: the byte count when the buffer held
/// valid UTF-8 and was sent, else an invalid argument.
pub fn finish_write(sent: bool, size: u32) -> (r: SyscallResult)
    ensures
        sent ==> r == Ok::<u32, u32>(size),
        !sent ==> r == Err::<u32, u32>(ERROR_INVALID_ARGUMENT),
{
    if sent {
        Ok(size)
    } else {
        Err(ERROR_INVALID_ARGUMENT)
    }
}

/// Serves an allocation request of `size` bytes: an invalid argument for a
/// size of 0 or when the heap is out of memory, else the address.
pub fn sys_alloc(heap: &mut LinkedListAllocator, size: u32) -> (r: SyscallResult)
    requires
        old(heap).wf(),
    ensures
        final(heap).wf(),
        final(heap).start() == old(heap).start(),
        final(heap).end() == old(heap).end(),
        sys_alloc_post(*old(heap), *final(heap), size, r),
{
    if size == 0 {
        return Err(ERROR_INVALID_ARGUMENT);
    }
    let ptr = heap_alloc(heap, size as usize);
    if ptr == 0 {
        Err(ERROR_INVALID_ARGUMENT)
    } else {
        Ok(ptr as u32)
    }
}

/// Serves a release request: an invalid argument for a null pointer, else
/// the allocation is handed back and the call succeeds.
pub fn sys_free(heap: &mut LinkedListAllocator, ptr: u32) -> (r: SyscallResult)
    requires
        old(heap).wf(),
    ensures
        final(heap).wf(),
        final(heap).start() == old(heap).start(),
        final(heap).end() == old(heap).end(),
        sys_free_post(*old(heap), *final(heap), ptr, r),
{
    if ptr == 0 {
        return Err(ERROR_INVALID_ARGUMENT);
    }
    free(heap, ptr as usize);
    Ok(0)
}

/// Dispatches system call `number` with its arguments. Memory calls are
/// served here; a write is vetted and, if permitted, handed back to be
/// carried out; any other number is unknown.
pub fn handle_syscall(heap: &mut LinkedListAllocator, number: u32, arg1: u32, arg2: u32, arg3: u32) -> (r: Dispatch)
    requires
        old(heap).wf(),
    ensures
        final(heap).wf(),
        final(heap).start() == old(heap).start(),
        final(heap).end() == old(heap).end(),
        number == SYS_WRITE ==> *final(heap) == *old(heap) && if write_permitted_spec(arg1, arg2, arg3) {
            r == Dispatch::Write { buffer: arg2, size: arg3 }
        } else {
            r == Dispatch::Done((-(ERROR_INVALID_ARGUMENT as int)) as i32)
        },
        number == SYS_ALLOC ==> exists|res: SyscallResult|
            sys_alloc_post(*old(heap), *final(heap), arg1, res) && r == Dispatch::Done(return_value(res) as i32),
        number == SYS_FREE ==> exists|res: SyscallResult|
            sys_free_post(*old(heap), *final(heap), arg1, res) && r == Dispatch::Done(return_value(res) as i32),
        number != SYS_WRITE && number != SYS_ALLOC && number != SYS_FREE ==> r == Dispatch::Unknown(
            (-(ERROR_INVALID_SYSCALL as int)) as i32,
        ) && *final(heap) == *old(heap),
{
    if number == SYS_WRITE {
        if write_permitted(arg1, arg2, arg3) {
            Dispatch::Write { buffer: arg2, size: arg3 }
        } else {
            Dispatch::Done(syscall_return(Err(ERROR_INVALID_ARGUMENT)))
        }
    } else if number == SYS_ALLOC {
        let res = sys_alloc(heap, arg1);
        Dispatch::Done(syscall_return(res))
    } else if number == SYS_FREE {
        let res = sys_free(heap, arg1);
        Dispatch::Done(syscall_return(res))
    } else {
        Dispatch::Unknown(syscall_return(Err(ERROR_INVALID_SYSCALL)))
    }
}

/// An allocation call for `size` bytes: a size of 0 changes nothing and is
/// an invalid argument; else the heap serves `size` bytes at the default
/// alignment, and a null address is an invalid argument.
pub open spec fn sys_alloc_post(pre: LinkedListAllocator, post: LinkedListAllocator, size: u32, r: SyscallResult) -> bool {
    if size == 0 {
        r == Err::<u32, u32>(ERROR_INVALID_ARGUMENT) && post == pre
    } else {
        exists|p: usize|
            {
                &&& allocate_post(pre, post, size as int, DEFAULT_ALIGN as int, p as int)
                &&& p == 0 ==> r == Err::<u32, u32>(ERROR_INVALID_ARGUMENT)
                &&& p != 0 ==> r == Ok::<u32, u32>(p as u32)
            }
    }
}

/// A release call for `ptr`: a null pointer changes nothing and is an
/// invalid argument; else the allocation at `ptr` goes back and the call
/// returns 0.
pub open spec fn sys_free_post(pre: LinkedListAllocator, post: LinkedListAllocator, ptr: u32, r: SyscallResult) -> bool {
    if ptr == 0 {
        r == Err::<u32, u32>(ERROR_INVALID_ARGUMENT) && post == pre
    } else {
        r == Ok::<u32, u32>(0) && exists|b: bool| deallocate_post(pre, post, ptr as int, b)
    }
}

/// Whether a write to `fd` of `size` bytes from `buffer` is carried out.
pub open spec fn write_permitted_spec(fd: u32, buffer: u32, size: u32) -> bool {
    fd == STDOUT && buffer != 0 && size <= MAX_WRITE
}

} // verus!
