use os_sync::mutex::Acquire;
use os_sync::syscall::sync::{
    sys_condvar_create, sys_mutex_create, sys_mutex_lock, sys_mutex_unlock, sys_semaphore_create,
    sys_semaphore_down, ResourceTable,
};

#[test]
fn new_table_is_empty() {
    let table = ResourceTable::new();
    assert!(!table.deadlock_detect());
    assert_eq!(table.mutex_books().num_resources(), 0);
    assert_eq!(table.mutex_books().num_tasks(), 0);
    assert_eq!(table.semaphore_books().num_resources(), 0);
    assert_eq!(table.semaphore_books().num_tasks(), 0);
    assert!(table.lookup_mutex(0).is_err());
}

#[test]
fn slots_are_numbered_in_order() {
    let mut table = ResourceTable::new();
    assert_eq!(sys_mutex_create(&mut table, true), 0);
    assert_eq!(sys_mutex_create(&mut table, false), 1);
    assert_eq!(sys_mutex_create(&mut table, true), 2);
    assert_eq!(sys_semaphore_create(&mut table, 4), 0);
    assert_eq!(sys_semaphore_create(&mut table, 0), 1);
    assert_eq!(sys_condvar_create(&mut table), 0);
    assert_eq!(sys_condvar_create(&mut table), 1);
    assert!(table.lookup_mutex(0).unwrap().is_blocking());
    assert!(!table.lookup_mutex(1).unwrap().is_blocking());
    assert_eq!(table.mutex_books().num_resources(), 3);
    assert_eq!(table.mutex_books().available(0), 1);
    assert_eq!(table.mutex_books().available(2), 1);
    assert_eq!(table.semaphore_books().available(0), 4);
    assert_eq!(table.semaphore_books().available(1), 0);
    assert_eq!(table.lookup_semaphore(0).unwrap().count(), 4);
}

#[test]
fn lowest_empty_slot_is_reused() {
    let mut table = ResourceTable::with_slots(2, 3, 1);
    assert!(table.lookup_mutex(0).is_err());
    assert_eq!(table.mutex_books().num_resources(), 2);
    assert_eq!(sys_mutex_create(&mut table, true), 0);
    assert_eq!(sys_mutex_create(&mut table, true), 1);
    assert_eq!(sys_mutex_create(&mut table, true), 2);
    assert_eq!(table.mutex_books().num_resources(), 3);
    assert_eq!(sys_semaphore_create(&mut table, 5), 0);
    assert_eq!(sys_semaphore_create(&mut table, 6), 1);
    assert_eq!(table.semaphore_books().num_resources(), 3);
    assert_eq!(table.semaphore_books().available(0), 5);
    assert_eq!(table.semaphore_books().available(1), 6);
    assert!(table.lookup_semaphore(2).is_err());
    assert_eq!(sys_condvar_create(&mut table), 0);
    assert_eq!(sys_condvar_create(&mut table), 1);
}

#[test]
fn reused_slot_starts_with_a_clean_column() {
    let mut table = ResourceTable::with_slots(0, 2, 0);
    assert_eq!(sys_semaphore_create(&mut table, 1), 0);
    assert_eq!(sys_semaphore_down(&mut table, 3, 0), Ok(Acquire::Granted));
    assert_eq!(sys_semaphore_down(&mut table, 1, 0), Ok(Acquire::Blocked));
    // The second slot is still empty: a new semaphore goes there, and the
    // rows that exist by now show nothing held or asked for in its column.
    assert_eq!(sys_semaphore_create(&mut table, 7), 1);
    assert_eq!(table.semaphore_books().num_tasks(), 4);
    for t in 0..4 {
        assert_eq!(table.semaphore_books().allocation(t, 1), 0);
        assert_eq!(table.semaphore_books().need(t, 1), 0);
    }
    assert_eq!(table.semaphore_books().available(1), 7);
    assert_eq!(table.semaphore_books().allocation(3, 0), 1);
    assert_eq!(table.semaphore_books().need(1, 0), 1);
}

#[test]
fn first_create_makes_the_first_row() {
    let mut table = ResourceTable::new();
    assert_eq!(sys_mutex_create(&mut table, true), 0);
    assert_eq!(table.mutex_books().num_tasks(), 1);
    assert_eq!(table.mutex_books().num_resources(), 1);
    assert_eq!(sys_mutex_create(&mut table, true), 1);
    // Still one row, now two columns wide, all zeros.
    assert_eq!(table.mutex_books().num_tasks(), 1);
    assert_eq!(table.mutex_books().num_resources(), 2);
    for m in 0..2 {
        assert_eq!(table.mutex_books().available(m), 1);
        assert_eq!(table.mutex_books().allocation(0, m), 0);
        assert_eq!(table.mutex_books().need(0, m), 0);
    }
    // The semaphore books are kept apart and have no row yet.
    assert_eq!(table.semaphore_books().num_tasks(), 0);
    assert_eq!(sys_semaphore_create(&mut table, 2), 0);
    assert_eq!(table.semaphore_books().num_tasks(), 1);
    assert_eq!(table.semaphore_books().num_resources(), 1);
    assert_eq!(table.semaphore_books().available(0), 2);
    assert_eq!(table.semaphore_books().allocation(0, 0), 0);
    assert_eq!(table.semaphore_books().need(0, 0), 0);
}

#[test]
fn first_create_in_an_empty_slot_makes_the_first_row() {
    let mut table = ResourceTable::with_slots(3, 0, 0);
    assert_eq!(table.mutex_books().num_tasks(), 0);
    assert_eq!(sys_mutex_create(&mut table, false), 0);
    assert_eq!(table.mutex_books().num_tasks(), 1);
    assert_eq!(table.mutex_books().num_resources(), 3);
    for m in 0..3 {
        assert_eq!(table.mutex_books().allocation(0, m), 0);
        assert_eq!(table.mutex_books().need(0, m), 0);
    }
    assert_eq!(table.mutex_books().available(0), 1);
}

#[test]
fn later_rows_appear_with_the_first_request() {
    let mut table = ResourceTable::new();
    let m0 = sys_mutex_create(&mut table, true);
    assert_eq!(table.mutex_books().num_tasks(), 1);
    assert_eq!(table.mutex_books().allocation(5, m0), 0);
    assert_eq!(sys_mutex_lock(&mut table, 2, m0), Ok(Acquire::Granted));
    assert_eq!(table.mutex_books().num_tasks(), 3);
    assert_eq!(table.semaphore_books().num_tasks(), 0);
    // A column added later reaches every row that exists, and adds no row.
    let m1 = sys_mutex_create(&mut table, true);
    assert_eq!(table.mutex_books().num_resources(), 2);
    assert_eq!(table.mutex_books().num_tasks(), 3);
    for t in 0..3 {
        assert_eq!(table.mutex_books().allocation(t, m1), 0);
        assert_eq!(table.mutex_books().need(t, m1), 0);
    }
    assert_eq!(sys_mutex_lock(&mut table, 0, m1), Ok(Acquire::Granted));
    assert_eq!(table.mutex_books().num_tasks(), 3);
    assert_eq!(sys_mutex_lock(&mut table, 6, m1), Ok(Acquire::Blocked));
    assert_eq!(table.mutex_books().num_tasks(), 7);
    assert_eq!(table.mutex_books().need(6, m1), 1);
    assert_eq!(table.mutex_books().allocation(2, m0), 1);
}

#[test]
fn release_by_a_task_that_holds_nothing_leaves_the_books() {
    let mut table = ResourceTable::new();
    let m = sys_mutex_create(&mut table, true);
    assert_eq!(sys_mutex_lock(&mut table, 0, m), Ok(Acquire::Granted));
    assert_eq!(sys_mutex_unlock(&mut table, 1, m), Ok(None));
    assert!(!table.lookup_mutex(m).unwrap().is_locked());
    assert_eq!(table.mutex_books().available(m), 0);
    assert_eq!(table.mutex_books().allocation(0, m), 1);
    assert_eq!(table.mutex_books().allocation(1, m), 0);
    // Releasing a free mutex changes nothing.
    assert_eq!(sys_mutex_unlock(&mut table, 1, m), Ok(None));
    assert!(!table.lookup_mutex(m).unwrap().is_locked());
}
