use os_sync::error::{result_code, SysError, DEADLOCK, FAILURE, SUCCESS};
use os_sync::mutex::Acquire;
use os_sync::syscall::sync::{
    sys_condvar_create, sys_condvar_resume, sys_condvar_signal, sys_condvar_wait,
    sys_enable_deadlock_detect, sys_mutex_create, sys_mutex_lock, sys_mutex_unlock,
    sys_semaphore_create, sys_semaphore_down, sys_semaphore_up, sys_sleep, ResourceTable,
};

const A: usize = 1;
const B: usize = 2;
const C: usize = 3;

fn column_total(table: &ResourceTable, mutexes: bool, id: usize) -> usize {
    let books = if mutexes { table.mutex_books() } else { table.semaphore_books() };
    let mut total = books.available(id);
    for t in 0..books.num_tasks() {
        total += books.allocation(t, id);
    }
    total
}

#[test]
fn two_tasks_one_mutex() {
    let mut table = ResourceTable::new();
    let m = sys_mutex_create(&mut table, true);
    assert_eq!(sys_mutex_lock(&mut table, A, m), Ok(Acquire::Granted));
    assert_eq!(sys_mutex_lock(&mut table, B, m), Ok(Acquire::Blocked));
    assert_eq!(table.mutex_books().allocation(A, m), 1);
    assert_eq!(table.mutex_books().allocation(B, m), 0);
    assert_eq!(table.mutex_books().need(B, m), 1);
    // A releases: the lock passes to B, whose blocked call thereby succeeds.
    assert_eq!(sys_mutex_unlock(&mut table, A, m), Ok(Some(B)));
    assert_eq!(table.mutex_books().allocation(A, m), 0);
    assert_eq!(table.mutex_books().allocation(B, m), 1);
    assert_eq!(table.mutex_books().need(B, m), 0);
    assert!(table.lookup_mutex(m).unwrap().is_locked());
    assert_eq!(sys_mutex_unlock(&mut table, B, m), Ok(None));
    assert!(!table.lookup_mutex(m).unwrap().is_locked());
    assert_eq!(table.mutex_books().available(m), 1);
}

#[test]
fn circular_wait_is_refused() {
    let mut table = ResourceTable::new();
    assert_eq!(sys_enable_deadlock_detect(&mut table, 1), Ok(()));
    let m0 = sys_mutex_create(&mut table, true);
    let m1 = sys_mutex_create(&mut table, true);
    assert_eq!(sys_mutex_lock(&mut table, A, m0), Ok(Acquire::Granted));
    assert_eq!(sys_mutex_lock(&mut table, B, m1), Ok(Acquire::Granted));
    // A asks for B's mutex: B can still finish and release it, so A waits.
    assert_eq!(sys_mutex_lock(&mut table, A, m1), Ok(Acquire::Blocked));
    // B asks for A's mutex: now neither could ever finish.
    let refused = sys_mutex_lock(&mut table, B, m0);
    assert_eq!(refused, Err(SysError::DeadlockRefused));
    assert_eq!(result_code(&refused), -0xDEAD);
    // B is still runnable and can release what it holds, which wakes A.
    assert_eq!(sys_mutex_unlock(&mut table, B, m1), Ok(Some(A)));
    assert_eq!(table.mutex_books().allocation(A, m1), 1);
}

#[test]
fn circular_wait_closing_request_is_refused_either_way() {
    // Whichever task closes the circle is the one that is refused.
    let mut table = ResourceTable::new();
    assert_eq!(sys_enable_deadlock_detect(&mut table, 1), Ok(()));
    let m0 = sys_mutex_create(&mut table, true);
    let m1 = sys_mutex_create(&mut table, true);
    assert_eq!(sys_mutex_lock(&mut table, A, m0), Ok(Acquire::Granted));
    assert_eq!(sys_mutex_lock(&mut table, B, m1), Ok(Acquire::Granted));
    assert_eq!(sys_mutex_lock(&mut table, B, m0), Ok(Acquire::Blocked));
    assert_eq!(sys_mutex_lock(&mut table, A, m1), Err(SysError::DeadlockRefused));
}

#[test]
fn locking_a_held_mutex_again_is_refused() {
    let mut table = ResourceTable::new();
    assert_eq!(sys_enable_deadlock_detect(&mut table, 1), Ok(()));
    let m = sys_mutex_create(&mut table, true);
    assert_eq!(sys_mutex_lock(&mut table, 0, m), Ok(Acquire::Granted));
    assert_eq!(sys_mutex_lock(&mut table, 0, m), Err(SysError::DeadlockRefused));
    assert_eq!(sys_mutex_unlock(&mut table, 0, m), Ok(None));
}

#[test]
fn without_detection_a_circular_wait_is_admitted() {
    let mut table = ResourceTable::new();
    let m0 = sys_mutex_create(&mut table, true);
    let m1 = sys_mutex_create(&mut table, true);
    assert_eq!(sys_mutex_lock(&mut table, A, m0), Ok(Acquire::Granted));
    assert_eq!(sys_mutex_lock(&mut table, B, m1), Ok(Acquire::Granted));
    assert_eq!(sys_mutex_lock(&mut table, A, m1), Ok(Acquire::Blocked));
    assert_eq!(sys_mutex_lock(&mut table, B, m0), Ok(Acquire::Blocked));
}

#[test]
fn semaphore_of_two_admits_two() {
    let mut table = ResourceTable::new();
    let s = sys_semaphore_create(&mut table, 2);
    assert_eq!(sys_semaphore_down(&mut table, A, s), Ok(Acquire::Granted));
    assert_eq!(sys_semaphore_down(&mut table, B, s), Ok(Acquire::Granted));
    assert_eq!(sys_semaphore_down(&mut table, C, s), Ok(Acquire::Blocked));
    assert_eq!(table.lookup_semaphore(s).unwrap().count(), 0);
    assert_eq!(table.lookup_semaphore(s).unwrap().num_waiters(), 1);
    assert_eq!(table.semaphore_books().available(s), 0);
    // One up: the third task is handed the unit.
    assert_eq!(sys_semaphore_up(&mut table, A, s), Ok(Some(C)));
    assert_eq!(table.lookup_semaphore(s).unwrap().count(), 0);
    assert_eq!(table.semaphore_books().allocation(C, s), 1);
    assert_eq!(table.semaphore_books().allocation(A, s), 0);
    assert_eq!(table.semaphore_books().need(C, s), 0);
}

#[test]
fn condvar_wait_releases_the_mutex() {
    let mut table = ResourceTable::new();
    let m = sys_mutex_create(&mut table, true);
    let c = sys_condvar_create(&mut table);
    assert_eq!(sys_mutex_lock(&mut table, A, m), Ok(Acquire::Granted));
    assert_eq!(sys_condvar_wait(&mut table, A, c, m), Ok(None));
    assert!(!table.lookup_mutex(m).unwrap().is_locked());
    assert_eq!(table.lookup_condvar(c).unwrap().num_waiters(), 1);
    assert_eq!(table.mutex_books().allocation(A, m), 0);
    // A second task takes the mutex while the first waits.
    assert_eq!(sys_mutex_lock(&mut table, B, m), Ok(Acquire::Granted));
    // The signal wakes A, and does not take the mutex for it.
    assert_eq!(sys_condvar_signal(&mut table, c), Ok(Some(A)));
    assert_eq!(table.mutex_books().allocation(A, m), 0);
    assert_eq!(table.mutex_books().allocation(B, m), 1);
    assert_eq!(table.lookup_condvar(c).unwrap().num_waiters(), 0);
    // A asks for the mutex again itself.
    assert_eq!(sys_mutex_lock(&mut table, A, m), Ok(Acquire::Blocked));
    assert_eq!(sys_mutex_unlock(&mut table, B, m), Ok(Some(A)));
}

#[test]
fn condvar_wait_hands_the_mutex_to_a_waiter() {
    let mut table = ResourceTable::new();
    let m = sys_mutex_create(&mut table, true);
    let c = sys_condvar_create(&mut table);
    assert_eq!(sys_mutex_lock(&mut table, A, m), Ok(Acquire::Granted));
    assert_eq!(sys_mutex_lock(&mut table, B, m), Ok(Acquire::Blocked));
    assert_eq!(sys_condvar_wait(&mut table, A, c, m), Ok(Some(B)));
    assert!(table.lookup_mutex(m).unwrap().is_locked());
    assert_eq!(table.mutex_books().allocation(B, m), 1);
}

#[test]
fn condvar_signal_wakes_one_in_arrival_order() {
    let mut table = ResourceTable::new();
    let m = sys_mutex_create(&mut table, true);
    let c = sys_condvar_create(&mut table);
    for t in [A, B, C] {
        assert_eq!(sys_mutex_lock(&mut table, t, m), Ok(Acquire::Granted));
        assert_eq!(sys_condvar_wait(&mut table, t, c, m), Ok(None));
    }
    assert_eq!(sys_condvar_signal(&mut table, c), Ok(Some(A)));
    assert_eq!(sys_condvar_signal(&mut table, c), Ok(Some(B)));
    assert_eq!(sys_condvar_signal(&mut table, c), Ok(Some(C)));
    assert_eq!(sys_condvar_signal(&mut table, c), Ok(None));
}

#[test]
fn detection_switch_rejects_other_values() {
    let mut table = ResourceTable::new();
    assert!(!table.deadlock_detect());
    let r = sys_enable_deadlock_detect(&mut table, 2);
    assert_eq!(r, Err(SysError::InvalidArgument));
    assert_eq!(result_code(&r), -1);
    assert!(!table.deadlock_detect());
    assert_eq!(sys_enable_deadlock_detect(&mut table, 1), Ok(()));
    assert!(table.deadlock_detect());
    assert_eq!(sys_enable_deadlock_detect(&mut table, usize::MAX), Err(SysError::InvalidArgument));
    assert!(table.deadlock_detect());
    let ok = sys_enable_deadlock_detect(&mut table, 0);
    assert_eq!(result_code(&ok), 0);
    assert!(!table.deadlock_detect());
}

#[test]
fn waiters_are_woken_in_arrival_order() {
    let mut table = ResourceTable::new();
    let m = sys_mutex_create(&mut table, true);
    assert_eq!(sys_mutex_lock(&mut table, 0, m), Ok(Acquire::Granted));
    assert_eq!(sys_mutex_lock(&mut table, A, m), Ok(Acquire::Blocked));
    assert_eq!(sys_mutex_lock(&mut table, B, m), Ok(Acquire::Blocked));
    assert_eq!(sys_mutex_lock(&mut table, C, m), Ok(Acquire::Blocked));
    assert_eq!(table.lookup_mutex(m).unwrap().num_waiters(), 3);
    assert_eq!(sys_mutex_unlock(&mut table, 0, m), Ok(Some(A)));
    assert_eq!(sys_mutex_unlock(&mut table, A, m), Ok(Some(B)));
    assert_eq!(sys_mutex_unlock(&mut table, B, m), Ok(Some(C)));
    assert_eq!(sys_mutex_unlock(&mut table, C, m), Ok(None));
}

#[test]
fn semaphore_waiters_are_woken_in_arrival_order() {
    let mut table = ResourceTable::new();
    let s = sys_semaphore_create(&mut table, 1);
    assert_eq!(sys_semaphore_down(&mut table, 0, s), Ok(Acquire::Granted));
    assert_eq!(sys_semaphore_down(&mut table, C, s), Ok(Acquire::Blocked));
    assert_eq!(sys_semaphore_down(&mut table, A, s), Ok(Acquire::Blocked));
    assert_eq!(sys_semaphore_down(&mut table, B, s), Ok(Acquire::Blocked));
    assert_eq!(sys_semaphore_up(&mut table, 0, s), Ok(Some(C)));
    assert_eq!(sys_semaphore_up(&mut table, C, s), Ok(Some(A)));
    assert_eq!(sys_semaphore_up(&mut table, A, s), Ok(Some(B)));
    assert_eq!(sys_semaphore_up(&mut table, B, s), Ok(None));
    assert_eq!(table.lookup_semaphore(s).unwrap().count(), 1);
}

#[test]
fn refused_request_leaves_need_as_it_was() {
    let mut table = ResourceTable::new();
    assert_eq!(sys_enable_deadlock_detect(&mut table, 1), Ok(()));
    let m0 = sys_mutex_create(&mut table, true);
    let m1 = sys_mutex_create(&mut table, true);
    assert_eq!(sys_mutex_lock(&mut table, A, m0), Ok(Acquire::Granted));
    assert_eq!(sys_mutex_lock(&mut table, B, m1), Ok(Acquire::Granted));
    assert_eq!(sys_mutex_lock(&mut table, A, m1), Ok(Acquire::Blocked));
    for _ in 0..3 {
        assert_eq!(sys_mutex_lock(&mut table, B, m0), Err(SysError::DeadlockRefused));
        assert_eq!(table.mutex_books().need(B, m0), 0);
        assert_eq!(table.mutex_books().need(B, m1), 0);
        assert_eq!(table.mutex_books().need(A, m1), 1);
        assert_eq!(table.mutex_books().need(A, m0), 0);
        assert_eq!(table.mutex_books().available(m0), 0);
        assert_eq!(table.mutex_books().allocation(A, m0), 1);
        assert_eq!(table.lookup_mutex(m0).unwrap().num_waiters(), 0);
    }
}

#[test]
fn refused_down_leaves_need_as_it_was() {
    let mut table = ResourceTable::new();
    assert_eq!(sys_enable_deadlock_detect(&mut table, 1), Ok(()));
    let s = sys_semaphore_create(&mut table, 1);
    assert_eq!(sys_semaphore_down(&mut table, A, s), Ok(Acquire::Granted));
    for _ in 0..3 {
        assert_eq!(sys_semaphore_down(&mut table, A, s), Err(SysError::DeadlockRefused));
        assert_eq!(table.semaphore_books().need(A, s), 0);
        assert_eq!(table.semaphore_books().allocation(A, s), 1);
        assert_eq!(table.lookup_semaphore(s).unwrap().num_waiters(), 0);
    }
}

#[test]
fn books_balance_after_every_step() {
    let mut table = ResourceTable::new();
    let m = sys_mutex_create(&mut table, true);
    let s = sys_semaphore_create(&mut table, 3);
    assert_eq!(column_total(&table, true, m), 1);
    assert_eq!(column_total(&table, false, s), 3);
    let steps: [(bool, bool, usize); 10] = [
        (true, true, A),
        (true, true, B),
        (false, true, A),
        (false, true, B),
        (false, true, C),
        (false, true, 0),
        (true, false, A),
        (false, false, B),
        (false, false, A),
        (true, false, B),
    ];
    for (on_mutex, acquire, tid) in steps {
        match (on_mutex, acquire) {
            (true, true) => {
                sys_mutex_lock(&mut table, tid, m).unwrap();
            }
            (true, false) => {
                sys_mutex_unlock(&mut table, tid, m).unwrap();
            }
            (false, true) => {
                sys_semaphore_down(&mut table, tid, s).unwrap();
            }
            (false, false) => {
                sys_semaphore_up(&mut table, tid, s).unwrap();
            }
        }
        assert_eq!(column_total(&table, true, m), 1);
        assert_eq!(column_total(&table, false, s), 3);
        let holders = (0..table.mutex_books().num_tasks())
            .filter(|t| table.mutex_books().allocation(*t, m) == 1)
            .count();
        assert!(holders <= 1);
        let held: usize = (0..table.semaphore_books().num_tasks())
            .map(|t| table.semaphore_books().allocation(t, s))
            .sum();
        assert!(held <= 3);
    }
}

#[test]
fn spin_mutex_is_retried() {
    let mut table = ResourceTable::new();
    let m = sys_mutex_create(&mut table, false);
    assert!(!table.lookup_mutex(m).unwrap().is_blocking());
    assert_eq!(sys_mutex_lock(&mut table, A, m), Ok(Acquire::Granted));
    assert_eq!(sys_mutex_lock(&mut table, B, m), Ok(Acquire::Busy));
    assert_eq!(table.mutex_books().need(B, m), 1);
    // Asking again does not enter the request a second time.
    assert_eq!(sys_mutex_lock(&mut table, B, m), Ok(Acquire::Busy));
    assert_eq!(table.mutex_books().need(B, m), 1);
    assert_eq!(table.lookup_mutex(m).unwrap().num_waiters(), 0);
    assert_eq!(sys_mutex_unlock(&mut table, A, m), Ok(None));
    assert_eq!(sys_mutex_lock(&mut table, B, m), Ok(Acquire::Granted));
    assert_eq!(table.mutex_books().need(B, m), 0);
    assert_eq!(table.mutex_books().allocation(B, m), 1);
}

#[test]
fn spinning_request_counts_for_the_safety_check() {
    let mut table = ResourceTable::new();
    assert_eq!(sys_enable_deadlock_detect(&mut table, 1), Ok(()));
    let m0 = sys_mutex_create(&mut table, false);
    let m1 = sys_mutex_create(&mut table, false);
    assert_eq!(sys_mutex_lock(&mut table, A, m0), Ok(Acquire::Granted));
    assert_eq!(sys_mutex_lock(&mut table, B, m1), Ok(Acquire::Granted));
    assert_eq!(sys_mutex_lock(&mut table, A, m1), Ok(Acquire::Busy));
    assert_eq!(sys_mutex_lock(&mut table, B, m0), Err(SysError::DeadlockRefused));
    // A's retry is not checked again.
    assert_eq!(sys_mutex_lock(&mut table, A, m1), Ok(Acquire::Busy));
}

#[test]
fn blocked_task_asking_again_is_not_queued_twice() {
    let mut table = ResourceTable::new();
    let m = sys_mutex_create(&mut table, true);
    assert_eq!(sys_mutex_lock(&mut table, A, m), Ok(Acquire::Granted));
    assert_eq!(sys_mutex_lock(&mut table, B, m), Ok(Acquire::Blocked));
    assert_eq!(sys_mutex_lock(&mut table, B, m), Ok(Acquire::Blocked));
    assert_eq!(table.lookup_mutex(m).unwrap().num_waiters(), 1);
    assert_eq!(table.mutex_books().need(B, m), 1);
}

#[test]
fn semaphore_used_as_a_signal() {
    let mut table = ResourceTable::new();
    let s = sys_semaphore_create(&mut table, 0);
    // The consumer waits; the producer, which holds nothing, signals.
    assert_eq!(sys_semaphore_down(&mut table, A, s), Ok(Acquire::Blocked));
    assert_eq!(sys_semaphore_up(&mut table, B, s), Ok(Some(A)));
    assert_eq!(table.semaphore_books().need(A, s), 0);
    assert_eq!(table.semaphore_books().allocation(A, s), 0);
    assert_eq!(column_total(&table, false, s), 0);
    // A signal with nobody waiting is kept in the count.
    assert_eq!(sys_semaphore_up(&mut table, B, s), Ok(None));
    assert_eq!(table.lookup_semaphore(s).unwrap().count(), 1);
    assert_eq!(table.semaphore_books().available(s), 0);
    assert_eq!(sys_semaphore_down(&mut table, A, s), Ok(Acquire::Granted));
    assert_eq!(table.lookup_semaphore(s).unwrap().count(), 0);
    assert_eq!(table.semaphore_books().allocation(A, s), 0);
    assert_eq!(column_total(&table, false, s), 0);
}

#[test]
fn unknown_identifiers_are_rejected() {
    let mut table = ResourceTable::with_slots(1, 1, 1);
    for id in [0usize, 1, 99] {
        assert_eq!(sys_mutex_lock(&mut table, A, id), Err(SysError::InvalidHandle));
        assert_eq!(sys_mutex_unlock(&mut table, A, id), Err(SysError::InvalidHandle));
        assert_eq!(sys_semaphore_down(&mut table, A, id), Err(SysError::InvalidHandle));
        assert_eq!(sys_semaphore_up(&mut table, A, id), Err(SysError::InvalidHandle));
        assert_eq!(sys_condvar_signal(&mut table, id), Err(SysError::InvalidHandle));
        assert_eq!(sys_condvar_wait(&mut table, A, id, id), Err(SysError::InvalidHandle));
        assert!(table.lookup_mutex(id).is_err());
        assert!(table.lookup_semaphore(id).is_err());
        assert!(table.lookup_condvar(id).is_err());
    }
    assert_eq!(table.mutex_books().num_tasks(), 0);
    let m = sys_mutex_create(&mut table, true);
    assert_eq!(sys_condvar_wait(&mut table, A, 0, m), Err(SysError::InvalidHandle));
    let c = sys_condvar_create(&mut table);
    assert_eq!(sys_condvar_wait(&mut table, A, c, 5), Err(SysError::InvalidHandle));
    assert_eq!(table.lookup_condvar(c).unwrap().num_waiters(), 0);
}

#[test]
fn result_codes() {
    assert_eq!(SUCCESS, 0);
    assert_eq!(FAILURE, -1);
    assert_eq!(DEADLOCK, -57005);
    assert_eq!(SysError::DeadlockRefused.code(), -0xDEAD);
    assert_eq!(SysError::InvalidHandle.code(), -1);
    assert_eq!(SysError::InvalidArgument.code(), -1);
    assert_eq!(result_code(&Ok::<Acquire, SysError>(Acquire::Blocked)), 0);
    assert_eq!(result_code(&Err::<(), SysError>(SysError::DeadlockRefused)), -0xDEAD);
}

#[test]
fn sleep_expires_after_the_given_time() {
    assert_eq!(sys_sleep(1_000, 250), 1_250);
    assert_eq!(sys_sleep(0, 0), 0);
    assert_eq!(sys_sleep(usize::MAX - 1, 1), usize::MAX);
}

/// A holds `m0` and waits on a condition variable with `m`; meanwhile B has
/// taken `m` and queued for `m0`. Returns the table, `m` and the condition
/// variable, with A still waiting.
fn waiter_in_a_circle() -> (ResourceTable, usize, usize) {
    let mut table = ResourceTable::new();
    assert_eq!(sys_enable_deadlock_detect(&mut table, 1), Ok(()));
    let m0 = sys_mutex_create(&mut table, true);
    let m = sys_mutex_create(&mut table, true);
    let c = sys_condvar_create(&mut table);
    assert_eq!(sys_mutex_lock(&mut table, A, m0), Ok(Acquire::Granted));
    assert_eq!(sys_mutex_lock(&mut table, A, m), Ok(Acquire::Granted));
    assert_eq!(sys_condvar_wait(&mut table, A, c, m), Ok(None));
    assert_eq!(sys_mutex_lock(&mut table, B, m), Ok(Acquire::Granted));
    assert_eq!(sys_mutex_lock(&mut table, B, m0), Ok(Acquire::Blocked));
    (table, m, c)
}

#[test]
fn ending_a_wait_is_never_refused() {
    // Asked for in the ordinary way, the mutex would be refused.
    let (mut table, m, c) = waiter_in_a_circle();
    assert_eq!(sys_condvar_signal(&mut table, c), Ok(Some(A)));
    assert_eq!(sys_mutex_lock(&mut table, A, m), Err(SysError::DeadlockRefused));
    // The end of a wait is not put to the check: the task queues.
    let (mut table, m, c) = waiter_in_a_circle();
    assert_eq!(sys_condvar_signal(&mut table, c), Ok(Some(A)));
    assert_eq!(sys_condvar_resume(&mut table, A, m), Ok(Acquire::Blocked));
    assert!(table.deadlock_detect());
    assert_eq!(table.mutex_books().need(A, m), 1);
    assert_eq!(table.lookup_mutex(m).unwrap().num_waiters(), 1);
    assert_eq!(sys_condvar_resume(&mut table, A, 9), Err(SysError::InvalidHandle));
}

#[test]
fn ending_a_wait_takes_a_free_mutex() {
    let mut table = ResourceTable::new();
    let m = sys_mutex_create(&mut table, true);
    let c = sys_condvar_create(&mut table);
    assert_eq!(sys_mutex_lock(&mut table, A, m), Ok(Acquire::Granted));
    assert_eq!(sys_condvar_wait(&mut table, A, c, m), Ok(None));
    assert_eq!(sys_condvar_signal(&mut table, c), Ok(Some(A)));
    assert_eq!(sys_condvar_resume(&mut table, A, m), Ok(Acquire::Granted));
    assert!(!table.deadlock_detect());
    assert_eq!(table.mutex_books().allocation(A, m), 1);
    assert_eq!(table.mutex_books().available(m), 0);
}
