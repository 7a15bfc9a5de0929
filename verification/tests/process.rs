use os_sync::error::SysError;
use os_sync::syscall::process::{
    sys_get_time, sys_mmap, sys_munmap, sys_sbrk, sys_task_info, TaskStatus, TimeVal,
    MAX_SYSCALL_NUM, PAGE_SIZE,
};

#[test]
fn time_of_day_from_the_two_clocks() {
    assert_eq!(sys_get_time(3_250_000, 3_250), TimeVal { sec: 3, usec: 250_000 });
    assert_eq!(sys_get_time(999_999, 999), TimeVal { sec: 0, usec: 999_999 });
    assert_eq!(sys_get_time(1_000_000, 1_000), TimeVal { sec: 1, usec: 0 });
    // Each part comes from its own clock.
    assert_eq!(sys_get_time(7, 5_000), TimeVal { sec: 5, usec: 7 });
}

#[test]
fn task_info_holds_what_it_was_given() {
    let mut counts = [0u32; MAX_SYSCALL_NUM];
    counts[64] = 3;
    counts[169] = 1;
    let info = sys_task_info(TaskStatus::Running, counts, 42);
    assert_eq!(info.status, TaskStatus::Running);
    assert_eq!(info.time, 42);
    assert_eq!(info.syscall_times[64], 3);
    assert_eq!(info.syscall_times[169], 1);
    assert_eq!(info.syscall_times[0], 0);
    assert_eq!(info.syscall_times.len(), 500);
}

#[test]
fn mapping_needs_an_aligned_start_and_a_valid_port() {
    assert_eq!(PAGE_SIZE, 4096);
    for prot in 1..=7 {
        assert_eq!(sys_mmap(0x1000_0000, 4096, prot), Ok(()));
    }
    assert_eq!(sys_mmap(0, 1, 3), Ok(()));
    assert_eq!(sys_mmap(0x1000_0000, 4096, 0), Err(SysError::InvalidArgument));
    assert_eq!(sys_mmap(0x1000_0000, 4096, 8), Err(SysError::InvalidArgument));
    assert_eq!(sys_mmap(0x1000_0000, 4096, 9), Err(SysError::InvalidArgument));
    assert_eq!(sys_mmap(0x1000_0000, 4096, usize::MAX), Err(SysError::InvalidArgument));
    assert_eq!(sys_mmap(0x1000_0001, 4096, 3), Err(SysError::InvalidArgument));
    assert_eq!(sys_mmap(0x0fff, 4096, 3), Err(SysError::InvalidArgument));
    assert_eq!(sys_mmap(0x1000_0001, 4096, 0), Err(SysError::InvalidArgument));
}

#[test]
fn unmapping_needs_an_aligned_start() {
    assert_eq!(sys_munmap(0x2000, 4096), Ok(()));
    assert_eq!(sys_munmap(0, 0), Ok(()));
    assert_eq!(sys_munmap(0x2001, 4096), Err(SysError::InvalidArgument));
    assert_eq!(sys_munmap(usize::MAX, 1), Err(SysError::InvalidArgument));
}

#[test]
fn program_break_result() {
    assert_eq!(sys_sbrk(Some(0x8000)), 0x8000);
    assert_eq!(sys_sbrk(Some(0)), 0);
    assert_eq!(sys_sbrk(None), -1);
}
