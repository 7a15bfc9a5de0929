//! The process requests that decide something before the kernel acts: the
//! checks on a mapping request, the time of day from the two clocks, the
//! record of a task's accounting, and the result of moving the program
//! break.

use crate::error::{SysError, FAILURE};
use vstd::prelude::*;

verus! {

/// The size of a page of memory, in bytes.
pub const PAGE_SIZE: usize = 0x1000;

/// The number of request kinds that are counted per task.
pub const MAX_SYSCALL_NUM: usize = 500;

/// A time of day: whole seconds, and the microseconds within the second.
#[derive(Clone, Copy, Debug, PartialEq, Eq, Structural)]
pub struct TimeVal {
    pub sec: usize,
    pub usec: usize,
}

/// Where a task is in its life cycle.
#[derive(Clone, Copy, Debug, PartialEq, Eq, Structural)]
pub enum TaskStatus {
    Ready,
    Running,
    Blocked,
}

/// The accounting of one task.
pub struct TaskInfo {
    /// Where the task is in its life cycle.
    pub status: TaskStatus,
    /// How often the task has made each kind of request.
    pub syscall_times: [u32; MAX_SYSCALL_NUM],
    /// For how long the task has been running.
    pub time: usize,
}

/// `addr` is the first byte of a page.
pub open spec fn page_aligned(addr: usize) -> bool {
    addr % PAGE_SIZE == 0
}

/// `prot` asks for at least one of read, write and execute, and for nothing
/// else: of its bits only the lowest three may be set, and one of them must
/// be.
pub open spec fn valid_prot(prot: usize) -> bool {
    1 <= prot <= 7
}

/// The time of day from the millisecond clock and the microsecond clock: the
/// seconds are taken from the one, the microseconds within the second from
/// the other.
pub fn sys_get_time(time_us: usize, time_ms: usize) -> (tv: TimeVal)
    ensures
        tv.sec == time_ms / 1000,
        tv.usec == time_us % 1_000_000,
{
    let usec: usize = time_us % 1_000_000;
    let sec: usize = time_ms / 1_000;
    TimeVal { sec, usec }
}

/// The record of a task's accounting.
pub fn sys_task_info(status: TaskStatus, syscall_times: [u32; MAX_SYSCALL_NUM], time: usize) -> (ti:
    TaskInfo)
    ensures
        ti.status == status,
        ti.syscall_times == syscall_times,
        ti.time == time,
{
    TaskInfo { status, syscall_times, time }
}

/// Checks a request to map `len` bytes at `start` with the permissions in
/// `prot`. The request is accepted, and is then handed on as it is, exactly
/// when `start` is page-aligned and `prot` is valid.
pub fn sys_mmap(start: usize, len: usize, prot: usize) -> (r: Result<(), SysError>)
    ensures
        r is Ok <==> page_aligned(start) && valid_prot(prot),
        r is Err ==> r->Err_0 == SysError::InvalidArgument,
{
    if start % PAGE_SIZE != 0 {
        return Err(SysError::InvalidArgument);
    }
    assert((prot & !0x7usize != 0usize) <==> prot > 7) by (bit_vector);
    assert((prot & 0x7usize == 0usize) ==> (prot == 0 || prot > 7)) by (bit_vector);
    assert(prot == 0 ==> (prot & 0x7usize == 0usize)) by (bit_vector);
    if (prot & !0x7usize != 0usize) || (prot & 0x7usize == 0usize) {
        return Err(SysError::InvalidArgument);
    }
    Ok(())
}

/// Checks a request to unmap `len` bytes at `start`. The request is
/// accepted, and is then handed on as it is, exactly when `start` is
/// page-aligned.
pub fn sys_munmap(start: usize, len: usize) -> (r: Result<(), SysError>)
    ensures
        r is Ok <==> page_aligned(start),
        r is Err ==> r->Err_0 == SysError::InvalidArgument,
{
    if start % PAGE_SIZE != 0 {
        return Err(SysError::InvalidArgument);
    }
    Ok(())
}

/// The result of a request to move the program break, from what the memory
/// manager answered: the old break where it moved the break, failure where
/// it did not.
pub fn sys_sbrk(old_brk: Option<usize>) -> (r: isize)
    ensures
        old_brk is None ==> r == FAILURE,
        old_brk matches Some(b) ==> r == b as isize,
{
    match old_brk {
        Some(b) => {
            #[verifier::truncate]
            let r: isize = b as isize;
            r
        },
        None => FAILURE,
    }
}

} // verus!
