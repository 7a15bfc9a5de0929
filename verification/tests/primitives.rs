use os_sync::condvar::Condvar;
use os_sync::mutex::{Acquire, Mutex, MutexBlocking, MutexSpin};
use os_sync::semaphore::Semaphore;

#[test]
fn spin_mutex_claims_or_reports_busy() {
    let mut m = MutexSpin::new();
    assert!(!m.is_locked());
    assert_eq!(m.lock(), Acquire::Granted);
    assert!(m.is_locked());
    assert_eq!(m.lock(), Acquire::Busy);
    m.unlock();
    assert!(!m.is_locked());
    assert_eq!(m.lock(), Acquire::Granted);
}

#[test]
fn blocking_mutex_hands_over_in_order() {
    let mut m = MutexBlocking::new();
    assert_eq!(m.lock(10), Acquire::Granted);
    assert_eq!(m.lock(11), Acquire::Blocked);
    assert_eq!(m.lock(12), Acquire::Blocked);
    assert_eq!(m.num_waiters(), 2);
    assert_eq!(m.unlock(), Some(11));
    assert!(m.is_locked());
    assert_eq!(m.unlock(), Some(12));
    assert!(m.is_locked());
    assert_eq!(m.unlock(), None);
    assert!(!m.is_locked());
    assert_eq!(m.unlock(), None);
    assert!(!m.is_locked());
}

#[test]
fn mutex_of_either_strategy() {
    let mut spin = Mutex::new(false);
    let mut blocking = Mutex::new(true);
    assert!(!spin.is_blocking());
    assert!(blocking.is_blocking());
    assert_eq!(spin.lock(1), Acquire::Granted);
    assert_eq!(blocking.lock(1), Acquire::Granted);
    assert_eq!(spin.lock(2), Acquire::Busy);
    assert_eq!(blocking.lock(2), Acquire::Blocked);
    assert_eq!(spin.num_waiters(), 0);
    assert_eq!(blocking.num_waiters(), 1);
    assert_eq!(spin.unlock(), None);
    assert_eq!(blocking.unlock(), Some(2));
    assert!(!spin.is_locked());
    assert!(blocking.is_locked());
}

#[test]
fn semaphore_counts_down_and_queues() {
    let mut s = Semaphore::new(2);
    assert_eq!(s.count(), 2);
    assert_eq!(s.down(1), Acquire::Granted);
    assert_eq!(s.down(2), Acquire::Granted);
    assert_eq!(s.count(), 0);
    assert_eq!(s.down(3), Acquire::Blocked);
    assert_eq!(s.down(4), Acquire::Blocked);
    assert_eq!(s.count(), 0);
    assert_eq!(s.num_waiters(), 2);
    assert_eq!(s.up(), Some(3));
    assert_eq!(s.count(), 0);
    assert_eq!(s.up(), Some(4));
    assert_eq!(s.up(), None);
    assert_eq!(s.count(), 1);
}

#[test]
fn condvar_wait_unlocks_and_signal_wakes_one() {
    let mut c = Condvar::new();
    let mut m = Mutex::new(true);
    assert_eq!(c.signal(), None);
    assert_eq!(m.lock(1), Acquire::Granted);
    assert_eq!(m.lock(2), Acquire::Blocked);
    assert_eq!(c.wait(1, &mut m), Some(2));
    assert!(m.is_locked());
    assert_eq!(c.wait(2, &mut m), None);
    assert!(!m.is_locked());
    assert_eq!(c.num_waiters(), 2);
    assert_eq!(c.signal(), Some(1));
    assert_eq!(c.num_waiters(), 1);
    assert_eq!(c.signal(), Some(2));
    assert_eq!(c.signal(), None);
    c.enqueue(7);
    assert_eq!(c.signal(), Some(7));
}
