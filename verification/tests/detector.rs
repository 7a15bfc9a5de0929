use os_sync::detect::is_safe;
use os_sync::ledger::Ledger;
use os_sync::matrix::Matrix;

fn matrix(rows: &[&[usize]], cols: usize) -> Matrix {
    let mut m = Matrix::new(cols);
    for (t, row) in rows.iter().enumerate() {
        m.push_zero_row();
        for (r, v) in row.iter().enumerate() {
            m.set(t, r, *v);
        }
    }
    m
}

#[test]
fn no_tasks_is_safe() {
    assert!(is_safe(&vec![], &Matrix::new(0), &Matrix::new(0)));
    assert!(is_safe(&vec![0, 0], &Matrix::new(2), &Matrix::new(2)));
}

#[test]
fn tasks_without_need_are_safe() {
    let allocation = matrix(&[&[1, 0], &[0, 1]], 2);
    let need = matrix(&[&[0, 0], &[0, 0]], 2);
    assert!(is_safe(&vec![0, 0], &allocation, &need));
}

#[test]
fn chain_of_waits_is_safe() {
    // Task 2 can finish at once; what it gives back lets task 1 finish, and
    // what that gives back lets task 0 finish. The search needs three passes.
    let allocation = matrix(&[&[1, 0, 0], &[0, 1, 0], &[0, 0, 1]], 3);
    let need = matrix(&[&[0, 1, 0], &[0, 0, 1], &[0, 0, 0]], 3);
    assert!(is_safe(&vec![0, 0, 0], &allocation, &need));
}

#[test]
fn circle_of_waits_is_unsafe() {
    let allocation = matrix(&[&[1, 0], &[0, 1]], 2);
    let need = matrix(&[&[0, 1], &[1, 0]], 2);
    assert!(!is_safe(&vec![0, 0], &allocation, &need));
}

#[test]
fn one_stuck_task_makes_the_state_unsafe() {
    let allocation = matrix(&[&[0], &[0], &[0]], 1);
    let need = matrix(&[&[1], &[3], &[2]], 1);
    assert!(!is_safe(&vec![2], &allocation, &need));
    assert!(is_safe(&vec![3], &allocation, &need));
}

#[test]
fn classic_five_task_state() {
    let allocation = matrix(
        &[&[0, 1, 0], &[2, 0, 0], &[3, 0, 2], &[2, 1, 1], &[0, 0, 2]],
        3,
    );
    let need = matrix(
        &[&[7, 4, 3], &[1, 2, 2], &[6, 0, 0], &[0, 1, 1], &[4, 3, 1]],
        3,
    );
    assert!(is_safe(&vec![3, 3, 2], &allocation, &need));
    assert!(!is_safe(&vec![0, 1, 0], &allocation, &need));
}

#[test]
fn matrix_grows_by_rows_and_columns() {
    let mut m = Matrix::new(2);
    assert_eq!(m.num_rows(), 0);
    assert_eq!(m.num_cols(), 2);
    m.ensure_rows(3);
    assert_eq!(m.num_rows(), 3);
    m.ensure_rows(1);
    assert_eq!(m.num_rows(), 3);
    m.set(1, 1, 9);
    m.set(2, 0, 4);
    m.push_zero_col();
    assert_eq!(m.num_cols(), 3);
    assert_eq!(m.get(1, 1), 9);
    assert_eq!(m.get(1, 2), 0);
    assert_eq!(m.get(2, 0), 4);
    m.clear_col(1);
    assert_eq!(m.get(1, 1), 0);
    assert_eq!(m.get(2, 0), 4);
    m.push_zero_row();
    assert_eq!(m.num_rows(), 4);
    assert_eq!(m.get(3, 2), 0);
}

#[test]
fn ledger_records_requests_grants_and_releases() {
    let mut books = Ledger::new();
    assert_eq!(books.add_resource(2), 0);
    assert_eq!(books.add_resource(1), 1);
    books.ensure_task(1);
    assert_eq!(books.num_tasks(), 2);
    books.record_need_delta(1, 0, true);
    assert_eq!(books.need(1, 0), 1);
    assert!(books.is_safe());
    books.record_alloc(1, 0);
    assert_eq!(books.available(0), 1);
    assert_eq!(books.allocation(1, 0), 1);
    assert_eq!(books.need(1, 0), 0);
    books.record_need_delta(0, 1, true);
    books.record_need_delta(0, 1, false);
    assert_eq!(books.need(0, 1), 0);
    books.record_release(1, 0);
    assert_eq!(books.available(0), 2);
    assert_eq!(books.allocation(1, 0), 0);
    books.reset_resource(0, 5);
    assert_eq!(books.available(0), 5);
    assert_eq!(books.available(1), 1);
    // A task without a row holds and wants nothing.
    assert_eq!(books.allocation(9, 1), 0);
    assert_eq!(books.need(9, 1), 0);
}

#[test]
fn ledger_check_sees_a_request_that_cannot_be_met() {
    let mut books = Ledger::new();
    books.add_resource(1);
    books.ensure_task(0);
    books.record_need_delta(0, 0, true);
    books.record_alloc(0, 0);
    assert!(books.is_safe());
    books.record_need_delta(0, 0, true);
    assert!(!books.is_safe());
    books.record_need_delta(0, 0, false);
    assert!(books.is_safe());
}

fn can_finish_in(order: &[usize], available: &[usize], allocation: &[Vec<usize>], need: &[Vec<usize>]) -> bool {
    let mut work = available.to_vec();
    for &t in order {
        if (0..work.len()).any(|r| need[t][r] > work[r]) {
            return false;
        }
        for r in 0..work.len() {
            work[r] += allocation[t][r];
        }
    }
    true
}

fn some_order_finishes(
    chosen: &mut Vec<usize>,
    tasks: usize,
    available: &[usize],
    allocation: &[Vec<usize>],
    need: &[Vec<usize>],
) -> bool {
    if chosen.len() == tasks {
        return can_finish_in(chosen, available, allocation, need);
    }
    for t in 0..tasks {
        if !chosen.contains(&t) {
            chosen.push(t);
            let found = some_order_finishes(chosen, tasks, available, allocation, need);
            chosen.pop();
            if found {
                return true;
            }
        }
    }
    false
}

#[test]
fn verdict_is_that_some_order_finishes() {
    // Every state of three tasks and two resources with small counts: the
    // check says safe exactly when trying all orders finds one.
    let mut safe_states = 0;
    for code in 0..(1usize << 14) {
        let bit = |k: usize| (code >> k) & 1;
        let available = vec![bit(0), bit(1)];
        let allocation: Vec<Vec<usize>> =
            (0..3).map(|t| vec![bit(2 + 2 * t), bit(3 + 2 * t)]).collect();
        let need: Vec<Vec<usize>> =
            (0..3).map(|t| vec![bit(8 + 2 * t), 2 * bit(9 + 2 * t)]).collect();
        let held: Vec<&[usize]> = allocation.iter().map(|r| r.as_slice()).collect();
        let wanted: Vec<&[usize]> = need.iter().map(|r| r.as_slice()).collect();
        let expected = some_order_finishes(&mut Vec::new(), 3, &available, &allocation, &need);
        assert_eq!(is_safe(&available, &matrix(&held, 2), &matrix(&wanted, 2)), expected);
        if expected {
            safe_states += 1;
        }
    }
    assert!(0 < safe_states && safe_states < (1 << 14));
}
