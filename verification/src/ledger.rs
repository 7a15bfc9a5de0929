//! The books kept for one kind of resource: what is free of each resource,
//! what each task holds, and what each task has asked for and not yet been
//! given.

use crate::detect::{counts, is_safe, safe};
use crate::matrix::{
    col_sum, lemma_col_sum_bound, lemma_col_sum_with_cell, lemma_col_sum_with_cleared_col,
    lemma_col_sum_with_rows, lemma_col_sum_with_zero_col, rectangular, with_cell,
    with_cleared_col, with_rows, with_zero_col, Matrix,
};
use vstd::prelude::*;

verus! {

/// The books as mathematical values. Row `t` of a table belongs to task `t`,
/// column `r` to resource `r`.
pub struct LedgerView {
    /// Units of each resource that no task holds.
    pub available: Seq<nat>,
    /// Units of each resource held by each task.
    pub allocation: Seq<Seq<nat>>,
    /// Units of each resource asked for by each task and not yet granted.
    pub need: Seq<Seq<nat>>,
    /// Units of each resource that exist.
    pub capacity: Seq<nat>,
}

impl LedgerView {
    /// Books without resources or tasks.
    pub open spec fn empty() -> LedgerView {
        LedgerView {
            available: Seq::empty(),
            allocation: Seq::empty(),
            need: Seq::empty(),
            capacity: Seq::empty(),
        }
    }

    /// The number of resources.
    pub open spec fn resources(self) -> nat {
        self.available.len()
    }

    /// The number of tasks that have a row.
    pub open spec fn tasks(self) -> nat {
        self.allocation.len()
    }

    /// What task `t` holds of resource `r`; nothing, where it has no row.
    pub open spec fn held_by(self, t: int, r: int) -> nat {
        if 0 <= t < self.allocation.len() {
            self.allocation[t][r]
        } else {
            0
        }
    }

    /// What task `t` has asked for of resource `r` and not been given;
    /// nothing, where it has no row.
    pub open spec fn wanted_by(self, t: int, r: int) -> nat {
        if 0 <= t < self.need.len() {
            self.need[t][r]
        } else {
            0
        }
    }

    /// What all tasks together hold of resource `r`.
    pub open spec fn held(self, r: int) -> nat {
        col_sum(self.allocation, r)
    }

    /// The tables are rectangular and of one shape, and of every resource
    /// what is free and what is held add up to what exists.
    pub open spec fn wf(self) -> bool {
        &&& self.capacity.len() == self.available.len()
        &&& self.need.len() == self.allocation.len()
        &&& rectangular(self.allocation, self.resources())
        &&& rectangular(self.need, self.resources())
        &&& forall|r: int|
            0 <= r < self.resources() ==> self.available[r] + self.held(r)
                == #[trigger] self.capacity[r]
    }

    /// Whether some order exists in which every task can finish.
    pub open spec fn safe(self) -> bool {
        safe(self.available, self.allocation, self.need)
    }

    /// The books once task `tid` has a row: rows of zeros are appended as
    /// far as needed.
    pub open spec fn with_task(self, tid: nat) -> LedgerView {
        LedgerView {
            available: self.available,
            allocation: with_rows(self.allocation, tid + 1, self.resources()),
            need: with_rows(self.need, tid + 1, self.resources()),
            capacity: self.capacity,
        }
    }

    /// Task `t` asks for one more unit of resource `r`.
    pub open spec fn request(self, t: int, r: int) -> LedgerView {
        LedgerView {
            available: self.available,
            allocation: self.allocation,
            need: with_cell(self.need, t, r, self.need[t][r] + 1),
            capacity: self.capacity,
        }
    }

    /// Task `t` takes back a request for one unit of resource `r`.
    pub open spec fn withdraw(self, t: int, r: int) -> LedgerView {
        LedgerView {
            available: self.available,
            allocation: self.allocation,
            need: with_cell(self.need, t, r, (self.need[t][r] - 1) as nat),
            capacity: self.capacity,
        }
    }

    /// A unit of resource `r` that task `t` asked for passes from the free
    /// units to the task.
    pub open spec fn grant(self, t: int, r: int) -> LedgerView {
        LedgerView {
            available: self.available.update(r, (self.available[r] - 1) as nat),
            allocation: with_cell(self.allocation, t, r, self.allocation[t][r] + 1),
            need: with_cell(self.need, t, r, (self.need[t][r] - 1) as nat),
            capacity: self.capacity,
        }
    }

    /// Task `t` gives back a unit of resource `r`.
    pub open spec fn release(self, t: int, r: int) -> LedgerView {
        LedgerView {
            available: self.available.update(r, self.available[r] + 1),
            allocation: with_cell(self.allocation, t, r, (self.allocation[t][r] - 1) as nat),
            need: self.need,
            capacity: self.capacity,
        }
    }

    /// Whether task `t` has no request for resource `r` outstanding, so that
    /// a request it makes now is a new one.
    pub open spec fn fresh(self, t: int, r: int) -> bool {
        self.wanted_by(t, r) == 0
    }

    /// The books with task `t`'s request for resource `r` on them: a new
    /// request is entered, one that is outstanding already is not entered
    /// again.
    pub open spec fn pending(self, t: int, r: int) -> LedgerView {
        if self.fresh(t, r) {
            self.with_task(t as nat).request(t, r)
        } else {
            self.with_task(t as nat)
        }
    }

    /// The books once task `t`'s outstanding request for a unit of resource
    /// `r` has been met. Where the books show a free unit, that unit passes
    /// to the task. Where they show none, the unit was given back by a task
    /// that did not hold it on the books: the request leaves the books and
    /// nothing else changes.
    pub open spec fn met(self, t: int, r: int) -> LedgerView {
        if self.available[r] >= 1 {
            self.grant(t, r)
        } else {
            self.withdraw(t, r)
        }
    }

    /// The books after task `t` has given back a unit of resource `r` and
    /// the unit has passed to `woken`, if a task was woken. A unit that the
    /// task holds on the books returns to the free units; of a task that
    /// holds none the books record nothing. The request of the woken task is
    /// then met.
    pub open spec fn handed_on(self, t: int, r: int, woken: Option<usize>) -> LedgerView {
        let given = if self.held_by(t, r) >= 1 {
            self.release(t, r)
        } else {
            self
        };
        match woken {
            Some(w) => given.met(w as int, r),
            None => given,
        }
    }

    /// A new resource with `cap` units, all free, takes the next column.
    pub open spec fn add_resource(self, cap: nat) -> LedgerView {
        LedgerView {
            available: self.available.push(cap),
            allocation: with_zero_col(self.allocation),
            need: with_zero_col(self.need),
            capacity: self.capacity.push(cap),
        }
    }

    /// Column `r` starts afresh for a new resource with `cap` units, all
    /// free: nothing of it is held or asked for.
    pub open spec fn reset_resource(self, r: int, cap: nat) -> LedgerView {
        LedgerView {
            available: self.available.update(r, cap),
            allocation: with_cleared_col(self.allocation, r),
            need: with_cleared_col(self.need, r),
            capacity: self.capacity.update(r, cap),
        }
    }
}

/// Conservation: of every resource, the free units and the units held by
/// all tasks together are the units that exist.
pub proof fn lemma_conservation(l: LedgerView, r: int)
    requires
        l.wf(),
        0 <= r < l.resources(),
    ensures
        l.available[r] + col_sum(l.allocation, r) == l.capacity[r],
{
    assert(l.available[r] + l.held(r) == l.capacity[r]);
}

/// No task, and no group of tasks, holds more of a resource than exists:
/// what is held never exceeds the capacity, and neither does any single
/// task's share.
pub proof fn lemma_held_within_capacity(l: LedgerView, t: int, r: int)
    requires
        l.wf(),
        0 <= r < l.resources(),
    ensures
        col_sum(l.allocation, r) <= l.capacity[r],
        l.held_by(t, r) <= l.capacity[r],
{
    lemma_conservation(l, r);
    if 0 <= t < l.allocation.len() {
        lemma_col_sum_bound(l.allocation, t, r);
    }
}

/// Of a resource with a single unit, two different tasks never both hold
/// it.
pub proof fn lemma_single_unit_exclusive(l: LedgerView, r: int, t1: int, t2: int)
    requires
        l.wf(),
        0 <= r < l.resources(),
        l.capacity[r] == 1,
        l.held_by(t1, r) >= 1,
        l.held_by(t2, r) >= 1,
    ensures
        t1 == t2,
{
    lemma_conservation(l, r);
    if t1 != t2 {
        let a = l.allocation;
        let b = with_cell(a, t1, r, 0);
        assert(a[t1].len() == l.resources());
        lemma_col_sum_with_cell(a, t1, r, 0, r);
        assert(b[t2] == a[t2]);
        lemma_col_sum_bound(b, t2, r);
    }
}

/// Giving a task a row keeps the books balanced and changes nothing that
/// any task holds or has asked for.
pub proof fn lemma_with_task_wf(l: LedgerView, tid: nat)
    requires
        l.wf(),
    ensures
        l.with_task(tid).wf(),
        l.with_task(tid).tasks() > tid,
        l.with_task(tid).tasks() >= l.tasks(),
        forall|r: int| 0 <= r < l.resources() ==> l.with_task(tid).held(r) == l.held(r),
        forall|t: int, r: int|
            0 <= r < l.resources() ==> #[trigger] l.with_task(tid).held_by(t, r) == l.held_by(
                t,
                r,
            ),
        forall|t: int, r: int|
            0 <= r < l.resources() ==> #[trigger] l.with_task(tid).wanted_by(t, r) == l.wanted_by(
                t,
                r,
            ),
{
    let w = l.with_task(tid);
    assert forall|r: int| 0 <= r < l.resources() implies w.held(r) == l.held(r) by {
        lemma_col_sum_with_rows(l.allocation, tid + 1, l.resources(), r);
    }
    assert forall|r: int| 0 <= r < w.resources() implies w.available[r] + w.held(r)
        == #[trigger] w.capacity[r] by {
        assert(l.available[r] + l.held(r) == l.capacity[r]);
    }
}

/// Entering a request keeps the books balanced, adds one to what the task
/// has asked for of the resource and changes nothing else; taking the
/// request back undoes it exactly.
pub proof fn lemma_request_wf(l: LedgerView, t: int, r: int)
    requires
        l.wf(),
        0 <= t < l.tasks(),
        0 <= r < l.resources(),
    ensures
        l.request(t, r).wf(),
        l.request(t, r).withdraw(t, r) == l,
        forall|t2: int, c: int|
            0 <= c < l.resources() ==> #[trigger] l.request(t, r).wanted_by(t2, c) == l.wanted_by(
                t2,
                c,
            ) + if t2 == t && c == r {
                1int
            } else {
                0int
            },
{
    let q = l.request(t, r);
    assert(l.need[t].len() == l.resources());
    assert forall|t2: int, c: int| 0 <= c < l.resources() implies #[trigger] q.wanted_by(t2, c)
        == l.wanted_by(t2, c) + if t2 == t && c == r {
        1int
    } else {
        0int
    } by {
        if 0 <= t2 < l.need.len() {
            assert(l.need[t2].len() == l.resources());
        }
    }
    assert(rectangular(q.need, q.resources())) by {
        assert forall|i: int| 0 <= i < q.need.len() implies (#[trigger] q.need[i]).len()
            == q.resources() by {
            assert(l.need[i].len() == l.resources());
        }
    }
    assert(q.withdraw(t, r).need =~~= l.need);
}

/// Taking a request back keeps the books balanced, takes one from what the
/// task has asked for of the resource and changes nothing else.
pub proof fn lemma_withdraw_wf(l: LedgerView, t: int, r: int)
    requires
        l.wf(),
        0 <= t < l.tasks(),
        0 <= r < l.resources(),
        l.need[t][r] >= 1,
    ensures
        l.withdraw(t, r).wf(),
        l.withdraw(t, r).request(t, r) == l,
        forall|t2: int, c: int|
            0 <= c < l.resources() ==> #[trigger] l.withdraw(t, r).wanted_by(t2, c) == l.wanted_by(
                t2,
                c,
            ) - if t2 == t && c == r {
                1int
            } else {
                0int
            },
{
    let q = l.withdraw(t, r);
    assert(l.need[t].len() == l.resources());
    assert(rectangular(q.need, q.resources())) by {
        assert forall|i: int| 0 <= i < q.need.len() implies (#[trigger] q.need[i]).len()
            == q.resources() by {
            assert(l.need[i].len() == l.resources());
        }
    }
    assert(q.request(t, r).need =~~= l.need);
    assert forall|t2: int, c: int| 0 <= c < l.resources() implies #[trigger] q.wanted_by(t2, c)
        == l.wanted_by(t2, c) - if t2 == t && c == r {
        1int
    } else {
        0int
    } by {
        if 0 <= t2 < l.need.len() {
            assert(l.need[t2].len() == l.resources());
        }
    }
}

/// Granting a unit keeps the books balanced: the unit passes from the free
/// units to the task, the task's request is met, and nothing else changes.
pub proof fn lemma_grant_wf(l: LedgerView, t: int, r: int)
    requires
        l.wf(),
        0 <= t < l.tasks(),
        0 <= r < l.resources(),
        l.available[r] >= 1,
        l.need[t][r] >= 1,
    ensures
        l.grant(t, r).wf(),
        forall|t2: int, c: int|
            0 <= c < l.resources() ==> #[trigger] l.grant(t, r).wanted_by(t2, c) == l.wanted_by(
                t2,
                c,
            ) - if t2 == t && c == r {
                1int
            } else {
                0int
            },
        forall|t2: int, c: int|
            0 <= c < l.resources() ==> #[trigger] l.grant(t, r).held_by(t2, c) == l.held_by(t2, c)
                + if t2 == t && c == r {
                1int
            } else {
                0int
            },
{
    let g = l.grant(t, r);
    assert(l.need[t].len() == l.resources());
    assert(l.allocation[t].len() == l.resources());
    assert forall|t2: int, c: int| 0 <= c < l.resources() implies #[trigger] g.wanted_by(t2, c)
        == l.wanted_by(t2, c) - if t2 == t && c == r {
        1int
    } else {
        0int
    } by {
        if 0 <= t2 < l.need.len() {
            assert(l.need[t2].len() == l.resources());
        }
    }
    assert forall|t2: int, c: int| 0 <= c < l.resources() implies #[trigger] g.held_by(t2, c)
        == l.held_by(t2, c) + if t2 == t && c == r {
        1int
    } else {
        0int
    } by {
        if 0 <= t2 < l.allocation.len() {
            assert(l.allocation[t2].len() == l.resources());
        }
    }
    assert(rectangular(g.need, g.resources())) by {
        assert forall|i: int| 0 <= i < g.need.len() implies (#[trigger] g.need[i]).len()
            == g.resources() by {
            assert(l.need[i].len() == l.resources());
        }
    }
    assert(rectangular(g.allocation, g.resources())) by {
        assert forall|i: int| 0 <= i < g.allocation.len() implies (#[trigger] g.allocation[i]).len()
            == g.resources() by {
            assert(l.allocation[i].len() == l.resources());
        }
    }
    assert forall|c: int| 0 <= c < g.resources() implies g.available[c] + g.held(c)
        == #[trigger] g.capacity[c] by {
        assert(l.available[c] + l.held(c) == l.capacity[c]);
        lemma_col_sum_with_cell(l.allocation, t, r, l.allocation[t][r] + 1, c);
    }
}

/// Giving a unit back keeps the books balanced: the unit passes from the
/// task to the free units, and nothing else changes.
pub proof fn lemma_release_wf(l: LedgerView, t: int, r: int)
    requires
        l.wf(),
        0 <= t < l.tasks(),
        0 <= r < l.resources(),
        l.allocation[t][r] >= 1,
    ensures
        l.release(t, r).wf(),
        forall|t2: int, c: int|
            0 <= c < l.resources() ==> #[trigger] l.release(t, r).held_by(t2, c) == l.held_by(
                t2,
                c,
            ) - if t2 == t && c == r {
                1int
            } else {
                0int
            },
{
    let g = l.release(t, r);
    assert(l.allocation[t].len() == l.resources());
    assert forall|t2: int, c: int| 0 <= c < l.resources() implies #[trigger] g.held_by(t2, c)
        == l.held_by(t2, c) - if t2 == t && c == r {
        1int
    } else {
        0int
    } by {
        if 0 <= t2 < l.allocation.len() {
            assert(l.allocation[t2].len() == l.resources());
        }
    }
    assert(rectangular(g.allocation, g.resources())) by {
        assert forall|i: int| 0 <= i < g.allocation.len() implies (#[trigger] g.allocation[i]).len()
            == g.resources() by {
            assert(l.allocation[i].len() == l.resources());
        }
    }
    assert forall|c: int| 0 <= c < g.resources() implies g.available[c] + g.held(c)
        == #[trigger] g.capacity[c] by {
        assert(l.available[c] + l.held(c) == l.capacity[c]);
        lemma_col_sum_with_cell(l.allocation, t, r, (l.allocation[t][r] - 1) as nat, c);
    }
}

/// Appending a resource keeps the books balanced: nothing of it is held or
/// asked for, and the other columns are as they were.
pub proof fn lemma_add_resource_wf(l: LedgerView, cap: nat)
    requires
        l.wf(),
    ensures
        l.add_resource(cap).wf(),
        forall|t2: int, c: int|
            0 <= c <= l.resources() ==> #[trigger] l.add_resource(cap).wanted_by(t2, c) == if c
                < l.resources() {
                l.wanted_by(t2, c)
            } else {
                0
            },
        forall|t2: int, c: int|
            0 <= c <= l.resources() ==> #[trigger] l.add_resource(cap).held_by(t2, c) == if c
                < l.resources() {
                l.held_by(t2, c)
            } else {
                0
            },
{
    let g = l.add_resource(cap);
    assert forall|t2: int, c: int| 0 <= c <= l.resources() implies #[trigger] g.wanted_by(t2, c)
        == if c < l.resources() {
        l.wanted_by(t2, c)
    } else {
        0
    } by {
        if 0 <= t2 < l.need.len() {
            assert(l.need[t2].len() == l.resources());
        }
    }
    assert forall|t2: int, c: int| 0 <= c <= l.resources() implies #[trigger] g.held_by(t2, c)
        == if c < l.resources() {
        l.held_by(t2, c)
    } else {
        0
    } by {
        if 0 <= t2 < l.allocation.len() {
            assert(l.allocation[t2].len() == l.resources());
        }
    }
    assert(rectangular(g.allocation, g.resources())) by {
        assert forall|i: int| 0 <= i < g.allocation.len() implies (#[trigger] g.allocation[i]).len()
            == g.resources() by {
            assert(l.allocation[i].len() == l.resources());
        }
    }
    assert(rectangular(g.need, g.resources())) by {
        assert forall|i: int| 0 <= i < g.need.len() implies (#[trigger] g.need[i]).len()
            == g.resources() by {
            assert(l.need[i].len() == l.resources());
        }
    }
    assert forall|c: int| 0 <= c < g.resources() implies g.available[c] + g.held(c)
        == #[trigger] g.capacity[c] by {
        lemma_col_sum_with_zero_col(l.allocation, l.resources(), c);
        if c < l.resources() {
            assert(l.available[c] + l.held(c) == l.capacity[c]);
        }
    }
}

/// Starting a column afresh keeps the books balanced: nothing of the new
/// resource is held or asked for, and the other columns are as they were.
pub proof fn lemma_reset_resource_wf(l: LedgerView, r: int, cap: nat)
    requires
        l.wf(),
        0 <= r < l.resources(),
    ensures
        l.reset_resource(r, cap).wf(),
        forall|t2: int, c: int|
            0 <= c < l.resources() ==> #[trigger] l.reset_resource(r, cap).wanted_by(t2, c) == if c
                == r {
                0
            } else {
                l.wanted_by(t2, c)
            },
        forall|t2: int, c: int|
            0 <= c < l.resources() ==> #[trigger] l.reset_resource(r, cap).held_by(t2, c) == if c
                == r {
                0
            } else {
                l.held_by(t2, c)
            },
{
    let g = l.reset_resource(r, cap);
    assert forall|t2: int, c: int| 0 <= c < l.resources() implies #[trigger] g.wanted_by(t2, c)
        == if c == r {
        0
    } else {
        l.wanted_by(t2, c)
    } by {
        if 0 <= t2 < l.need.len() {
            assert(l.need[t2].len() == l.resources());
        }
    }
    assert forall|t2: int, c: int| 0 <= c < l.resources() implies #[trigger] g.held_by(t2, c)
        == if c == r {
        0
    } else {
        l.held_by(t2, c)
    } by {
        if 0 <= t2 < l.allocation.len() {
            assert(l.allocation[t2].len() == l.resources());
        }
    }
    assert(rectangular(g.allocation, g.resources())) by {
        assert forall|i: int| 0 <= i < g.allocation.len() implies (#[trigger] g.allocation[i]).len()
            == g.resources() by {
            assert(l.allocation[i].len() == l.resources());
        }
    }
    assert(rectangular(g.need, g.resources())) by {
        assert forall|i: int| 0 <= i < g.need.len() implies (#[trigger] g.need[i]).len()
            == g.resources() by {
            assert(l.need[i].len() == l.resources());
        }
    }
    assert forall|c: int| 0 <= c < g.resources() implies g.available[c] + g.held(c)
        == #[trigger] g.capacity[c] by {
        lemma_col_sum_with_cleared_col(l.allocation, l.resources(), r, c);
        assert(l.available[c] + l.held(c) == l.capacity[c]);
    }
}

/// What entering a request changes on the books: nothing is freed or taken,
/// no request is lost, and the requesting task has a row and a request
/// outstanding.
pub proof fn lemma_pending(books: LedgerView, t: int, id: int)
    requires
        books.wf(),
        0 <= t,
        0 <= id < books.resources(),
    ensures
        books.pending(t, id).wf(),
        books.with_task(t as nat).wf(),
        books.pending(t, id).available == books.available,
        books.pending(t, id).capacity == books.capacity,
        books.pending(t, id).allocation == books.with_task(t as nat).allocation,
        books.with_task(t as nat).available == books.available,
        books.with_task(t as nat).capacity == books.capacity,
        books.pending(t, id).tasks() > t,
        books.with_task(t as nat).tasks() > t,
        books.pending(t, id).need[t][id] >= 1,
        books.pending(t, id).need[t][id] == books.pending(t, id).wanted_by(t, id),
        forall|t2: int, c: int|
            0 <= c < books.resources() ==> #[trigger] books.pending(t, id).wanted_by(
                t2,
                c,
            ) == books.wanted_by(t2, c) + if t2 == t && c == id && books.fresh(t, id) {
                1int
            } else {
                0int
            },
        forall|t2: int, c: int|
            0 <= c < books.resources() ==> #[trigger] books.pending(t, id).held_by(
                t2,
                c,
            ) == books.held_by(t2, c),
        forall|t2: int, c: int|
            0 <= c < books.resources() ==> #[trigger] books.with_task(t as nat).wanted_by(t2, c)
                == books.wanted_by(t2, c),
        forall|t2: int, c: int|
            0 <= c < books.resources() ==> #[trigger] books.with_task(t as nat).held_by(t2, c)
                == books.held_by(t2, c),
{
    let w = books.with_task(t as nat);
    lemma_with_task_wf(books, t as nat);
    lemma_request_wf(w, t, id);
    let p = books.pending(t, id);
    assert forall|t2: int, c: int| 0 <= c < books.resources() implies #[trigger] p.wanted_by(t2, c)
        == books.wanted_by(t2, c) + if t2 == t && c == id && books.fresh(t, id) {
        1int
    } else {
        0int
    } by {
        assert(w.wanted_by(t2, c) == books.wanted_by(t2, c));
        if books.fresh(t, id) {
            assert(w.request(t, id).wanted_by(t2, c) == w.wanted_by(t2, c) + if t2 == t
                && c == id {
                1int
            } else {
                0int
            });
        }
    }
    assert forall|t2: int, c: int| 0 <= c < books.resources() implies #[trigger] p.held_by(t2, c)
        == books.held_by(t2, c) by {
        assert(w.held_by(t2, c) == books.held_by(t2, c));
    }
    assert(p.wanted_by(t, id) >= 1) by {
        assert(w.wanted_by(t, id) == books.wanted_by(t, id));
    }
}

/// What meeting a request changes on the books: the books still balance,
/// the request is off the books, a free unit of the resource, where the
/// books showed one, is taken, and nothing else changes.
pub proof fn lemma_met(books: LedgerView, t: int, id: int)
    requires
        books.wf(),
        0 <= id < books.resources(),
        books.wanted_by(t, id) >= 1,
    ensures
        0 <= t < books.tasks(),
        books.met(t, id).wf(),
        books.met(t, id).resources() == books.resources(),
        books.met(t, id).tasks() == books.tasks(),
        books.met(t, id).capacity == books.capacity,
        books.met(t, id).available[id] == if books.available[id] >= 1 {
            books.available[id] - 1
        } else {
            0
        },
        forall|c: int|
            0 <= c < books.resources() && c != id ==> #[trigger] books.met(t, id).available[c]
                == books.available[c],
        forall|t2: int, c: int|
            0 <= c < books.resources() ==> #[trigger] books.met(t, id).wanted_by(t2, c)
                == books.wanted_by(t2, c) - if t2 == t && c == id {
                1int
            } else {
                0int
            },
        forall|t2: int, c: int|
            0 <= c < books.resources() ==> #[trigger] books.met(t, id).held_by(t2, c)
                == books.held_by(t2, c) + if t2 == t && c == id && books.available[id] >= 1 {
                1int
            } else {
                0int
            },
{
    if books.available[id] >= 1 {
        lemma_grant_wf(books, t, id);
    } else {
        lemma_withdraw_wf(books, t, id);
    }
}

/// The books of one kind of resource.
pub struct Ledger {
    available: Vec<usize>,
    allocation: Matrix,
    need: Matrix,
    capacity: Ghost<Seq<nat>>,
}

impl Ledger {
    /// The books as values.
    pub closed spec fn view(&self) -> LedgerView {
        LedgerView {
            available: counts(self.available@),
            allocation: self.allocation@,
            need: self.need@,
            capacity: self.capacity@,
        }
    }

    /// The tables are of the shape that the view shows.
    pub closed spec fn shaped(&self) -> bool {
        &&& self.allocation.wf()
        &&& self.need.wf()
        &&& self.allocation.cols() == self.available@.len()
        &&& self.need.cols() == self.available@.len()
    }

    /// The books balance, and no resource has more units than a machine word
    /// can count.
    pub open spec fn wf(&self) -> bool {
        &&& self.shaped()
        &&& self@.wf()
        &&& self@.resources() <= usize::MAX
        &&& self@.tasks() <= usize::MAX
        &&& forall|r: int| 0 <= r < self@.resources() ==> #[trigger] self@.capacity[r] <= usize::MAX
        &&& forall|t: int, r: int|
            0 <= t < self@.tasks() && 0 <= r < self@.resources() ==> #[trigger] self@.need[t][r]
                <= usize::MAX
    }

    /// Books without resources or tasks.
    pub fn new() -> (l: Ledger)
        ensures
            l.wf(),
            l@ == LedgerView::empty(),
    {
        let l = Ledger {
            available: Vec::new(),
            allocation: Matrix::new(0),
            need: Matrix::new(0),
            capacity: Ghost(Seq::empty()),
        };
        assert(l@.available =~= Seq::<nat>::empty());
        l
    }

    /// The number of resources.
    pub fn num_resources(&self) -> (n: usize)
        ensures
            n == self@.resources(),
    {
        self.available.len()
    }

    /// The number of tasks that have a row.
    pub fn num_tasks(&self) -> (n: usize)
        ensures
            n == self@.tasks(),
    {
        self.allocation.num_rows()
    }

    /// The free units of resource `r`.
    pub fn available(&self, r: usize) -> (n: usize)
        requires
            r < self@.resources(),
        ensures
            n == self@.available[r as int],
    {
        self.available[r]
    }

    /// The units of resource `r` that task `t` holds.
    pub fn allocation(&self, t: usize, r: usize) -> (n: usize)
        requires
            self.wf(),
            r < self@.resources(),
        ensures
            n == self@.held_by(t as int, r as int),
    {
        if t < self.allocation.num_rows() {
            self.allocation.get(t, r)
        } else {
            0
        }
    }

    /// The units of resource `r` that task `t` has asked for and not been
    /// given.
    pub fn need(&self, t: usize, r: usize) -> (n: usize)
        requires
            self.wf(),
            r < self@.resources(),
        ensures
            n == self@.wanted_by(t as int, r as int),
    {
        if t < self.need.num_rows() {
            self.need.get(t, r)
        } else {
            0
        }
    }

    /// Appends a resource with `cap` units, all free, and returns its
    /// number.
    pub fn add_resource(&mut self, cap: usize) -> (id: usize)
        requires
            old(self).wf(),
            old(self)@.resources() < usize::MAX,
        ensures
            final(self).wf(),
            final(self)@ == old(self)@.add_resource(cap as nat),
            id == old(self)@.resources(),
    {
        let id: usize = self.available.len();
        self.available.push(cap);
        self.allocation.push_zero_col();
        self.need.push_zero_col();
        self.capacity = Ghost(self.capacity@.push(cap as nat));
        proof {
            assert(self@.available =~= old(self)@.available.push(cap as nat));
            lemma_add_resource_wf(old(self)@, cap as nat);
            assert forall|r: int| 0 <= r < self@.resources() implies #[trigger] self@.capacity[r]
                <= usize::MAX by {
                if r < old(self)@.resources() {
                    assert(old(self)@.capacity[r] <= usize::MAX);
                }
            }
            assert forall|t: int, r: int|
                0 <= t < self@.tasks() && 0 <= r < self@.resources() implies #[trigger] self@.need[t][r]
                <= usize::MAX by {
                if r < old(self)@.resources() {
                    assert(old(self)@.need[t][r] <= usize::MAX);
                }
            }
        }
        id
    }

    /// Starts column `r` afresh for a new resource with `cap` units, all
    /// free.
    pub fn reset_resource(&mut self, r: usize, cap: usize)
        requires
            old(self).wf(),
            r < old(self)@.resources(),
        ensures
            final(self).wf(),
            final(self)@ == old(self)@.reset_resource(r as int, cap as nat),
    {
        self.available[r] = cap;
        self.allocation.clear_col(r);
        self.need.clear_col(r);
        self.capacity = Ghost(self.capacity@.update(r as int, cap as nat));
        proof {
            assert(self@.available =~= old(self)@.available.update(r as int, cap as nat));
            lemma_reset_resource_wf(old(self)@, r as int, cap as nat);
            assert forall|c: int| 0 <= c < self@.resources() implies #[trigger] self@.capacity[c]
                <= usize::MAX by {
                assert(old(self)@.capacity[c] <= usize::MAX);
            }
            assert forall|t: int, c: int|
                0 <= t < self@.tasks() && 0 <= c < self@.resources() implies #[trigger] self@.need[t][c]
                <= usize::MAX by {
                assert(old(self)@.need[t][c] <= usize::MAX);
            }
        }
    }

    /// Gives task `tid` a row, appending rows of zeros as far as needed.
    pub fn ensure_task(&mut self, tid: usize)
        requires
            old(self).wf(),
            tid < usize::MAX,
        ensures
            final(self).wf(),
            final(self)@ == old(self)@.with_task(tid as nat),
            final(self)@.tasks() > tid,
    {
        self.allocation.ensure_rows(tid + 1);
        self.need.ensure_rows(tid + 1);
        proof {
            lemma_with_task_wf(old(self)@, tid as nat);
            assert forall|t: int, c: int|
                0 <= t < self@.tasks() && 0 <= c < self@.resources() implies #[trigger] self@.need[t][c]
                <= usize::MAX by {
                if t < old(self)@.tasks() {
                    assert(old(self)@.need[t][c] <= usize::MAX);
                }
            }
        }
    }

    /// Records that task `t` asks for one more unit of resource `r`, or,
    /// with `increase` false, that it takes such a request back.
    pub fn record_need_delta(&mut self, t: usize, r: usize, increase: bool)
        requires
            old(self).wf(),
            t < old(self)@.tasks(),
            r < old(self)@.resources(),
            increase ==> old(self)@.need[t as int][r as int] < usize::MAX,
            !increase ==> old(self)@.need[t as int][r as int] >= 1,
        ensures
            final(self).wf(),
            increase ==> final(self)@ == old(self)@.request(t as int, r as int),
            !increase ==> final(self)@ == old(self)@.withdraw(t as int, r as int),
    {
        let n: usize = self.need.get(t, r);
        if increase {
            self.need.set(t, r, n + 1);
        } else {
            self.need.set(t, r, n - 1);
        }
        proof {
            let l = old(self)@;
            assert(l.need[t as int].len() == l.resources());
            assert(rectangular(self@.need, self@.resources()));
            assert forall|i: int, c: int|
                0 <= i < self@.tasks() && 0 <= c < self@.resources() implies #[trigger] self@.need[i][c]
                <= usize::MAX by {
                assert(l.need[i][c] <= usize::MAX);
                assert(l.need[i].len() == l.resources());
            }
        }
    }

    /// Records that a unit of resource `r` that task `t` asked for is now
    /// held by it.
    pub fn record_alloc(&mut self, t: usize, r: usize)
        requires
            old(self).wf(),
            t < old(self)@.tasks(),
            r < old(self)@.resources(),
            old(self)@.available[r as int] >= 1,
            old(self)@.need[t as int][r as int] >= 1,
        ensures
            final(self).wf(),
            final(self)@ == old(self)@.grant(t as int, r as int),
    {
        proof {
            lemma_col_sum_bound(self@.allocation, t as int, r as int);
            lemma_conservation(self@, r as int);
            assert(self@.capacity[r as int] <= usize::MAX);
        }
        let a: usize = self.available[r];
        self.available[r] = a - 1;
        let h: usize = self.allocation.get(t, r);
        self.allocation.set(t, r, h + 1);
        let n: usize = self.need.get(t, r);
        self.need.set(t, r, n - 1);
        proof {
            let l = old(self)@;
            assert(self@.available =~= l.grant(t as int, r as int).available);
            lemma_grant_wf(l, t as int, r as int);
            assert forall|i: int, c: int|
                0 <= i < self@.tasks() && 0 <= c < self@.resources() implies #[trigger] self@.need[i][c]
                <= usize::MAX by {
                assert(l.need[i][c] <= usize::MAX);
                assert(l.need[i].len() == l.resources());
            }
        }
    }

    /// Records that task `t` gives back a unit of resource `r`.
    pub fn record_release(&mut self, t: usize, r: usize)
        requires
            old(self).wf(),
            t < old(self)@.tasks(),
            r < old(self)@.resources(),
            old(self)@.allocation[t as int][r as int] >= 1,
        ensures
            final(self).wf(),
            final(self)@ == old(self)@.release(t as int, r as int),
    {
        proof {
            lemma_col_sum_bound(self@.allocation, t as int, r as int);
            lemma_conservation(self@, r as int);
            assert(self@.capacity[r as int] <= usize::MAX);
        }
        let a: usize = self.available[r];
        self.available[r] = a + 1;
        let h: usize = self.allocation.get(t, r);
        self.allocation.set(t, r, h - 1);
        proof {
            let l = old(self)@;
            assert(self@.available =~= l.release(t as int, r as int).available);
            lemma_release_wf(l, t as int, r as int);
        }
    }

    /// The safety check on the books as they stand.
    pub fn is_safe(&self) -> (ok: bool)
        requires
            self.wf(),
        ensures
            ok == self@.safe(),
    {
        proof {
            assert forall|r: int| 0 <= r < self.available@.len() implies self.available@[r]
                + col_sum(self.allocation@, r) <= usize::MAX by {
                lemma_conservation(self@, r);
                assert(self@.capacity[r] <= usize::MAX);
            }
        }
        is_safe(&self.available, &self.allocation, &self.need)
    }
}

} // verus!
