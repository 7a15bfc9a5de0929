//! What a process's resource table is, as mathematical values: its slots of
//! mutexes, semaphores and condition variables, the books kept for the
//! mutexes and for the semaphores, and the rules that tie them together.

use crate::detect::{is_finishing_order, lemma_circular_wait_unsafe};
use crate::error::SysError;
use crate::ledger::{
    lemma_add_resource_wf, lemma_conservation, lemma_held_within_capacity, lemma_met,
    lemma_pending, lemma_release_wf, lemma_reset_resource_wf, lemma_single_unit_exclusive,
    lemma_with_task_wf, LedgerView,
};
use crate::matrix::{col_sum, lemma_col_sum_bound, zero_row};
use crate::mutex::{Acquire, MutexState};
use crate::semaphore::SemaphoreState;
use vstd::prelude::*;

verus! {

/// An occupied mutex slot: the strategy chosen for the mutex, and its state.
pub struct MutexSlot {
    pub blocking: bool,
    pub state: MutexState,
}

/// The resource table of one process.
pub struct TableView {
    /// The mutex slots; `None` is an empty slot.
    pub mutexes: Seq<Option<MutexSlot>>,
    /// The semaphore slots.
    pub semaphores: Seq<Option<SemaphoreState>>,
    /// The slots of condition variables, each a queue of waiting tasks.
    pub condvars: Seq<Option<Seq<usize>>>,
    /// The books kept for the mutexes, one column per slot.
    pub mutex_books: LedgerView,
    /// The books kept for the semaphores, one column per slot.
    pub semaphore_books: LedgerView,
    /// Whether requests are put to the safety check.
    pub detect: bool,
}

/// `id` is where the next primitive goes: the lowest empty slot, or the end
/// of the slots where none is empty.
pub open spec fn first_free<T>(slots: Seq<Option<T>>, id: int) -> bool {
    &&& 0 <= id <= slots.len()
    &&& forall|j: int| 0 <= j < id ==> (#[trigger] slots[j]) is Some
    &&& id < slots.len() ==> slots[id] is None
}

/// `slots` with `value` placed in slot `id`, which is appended where `id` is
/// the end of the slots.
pub open spec fn place<T>(slots: Seq<Option<T>>, id: int, value: T) -> Seq<Option<T>> {
    if id < slots.len() {
        slots.update(id, Some(value))
    } else {
        slots.push(Some(value))
    }
}

/// The books once a resource with `cap` units has been placed in column
/// `id`. Books without a row get their first row, of zeros; then an existing
/// column starts afresh, or a new one is appended to every row.
pub open spec fn place_resource(books: LedgerView, id: int, cap: nat) -> LedgerView {
    let rows = books.with_task(0);
    if id < rows.resources() {
        rows.reset_resource(id, cap)
    } else {
        rows.add_resource(cap)
    }
}

/// The tasks queued for resource `id` are queued once each, and each has an
/// outstanding request for it on the books.
pub open spec fn waiting_ok(waiters: Seq<usize>, books: LedgerView, id: int) -> bool {
    &&& waiters.no_duplicates()
    &&& forall|i: int|
        0 <= i < waiters.len() ==> books.wanted_by((#[trigger] waiters[i]) as int, id) >= 1
}

/// A mutex slot is in order: its column of the books has one unit, only a
/// held blocking mutex has waiters, and each waiter's request is on the
/// books.
pub open spec fn mutex_slot_ok(m: MutexSlot, books: LedgerView, id: int) -> bool {
    &&& books.capacity[id] == 1
    &&& !m.blocking ==> m.state.waiters.len() == 0
    &&& !m.state.locked ==> m.state.waiters.len() == 0
    &&& waiting_ok(m.state.waiters, books, id)
}

/// A semaphore slot is in order: nobody waits while a unit is free, and
/// each waiter's request is on the books.
pub open spec fn semaphore_slot_ok(s: SemaphoreState, books: LedgerView, id: int) -> bool {
    &&& s.wf()
    &&& waiting_ok(s.waiters, books, id)
}

impl TableView {
    /// The table of a process that has made nothing yet: no slots, books
    /// without resources or tasks, and detection off.
    pub open spec fn empty() -> TableView {
        TableView {
            mutexes: Seq::empty(),
            semaphores: Seq::empty(),
            condvars: Seq::empty(),
            mutex_books: LedgerView::empty(),
            semaphore_books: LedgerView::empty(),
            detect: false,
        }
    }

    /// Both sets of books balance, each has one column per slot, and every
    /// slot is in order.
    pub open spec fn wf(self) -> bool {
        &&& self.mutex_books.wf()
        &&& self.semaphore_books.wf()
        &&& self.mutexes.len() == self.mutex_books.resources()
        &&& self.semaphores.len() == self.semaphore_books.resources()
        &&& forall|id: int|
            0 <= id < self.mutexes.len() && (#[trigger] self.mutexes[id]) is Some
                ==> mutex_slot_ok(self.mutexes[id]->0, self.mutex_books, id)
        &&& forall|id: int|
            0 <= id < self.semaphores.len() && (#[trigger] self.semaphores[id]) is Some
                ==> semaphore_slot_ok(self.semaphores[id]->0, self.semaphore_books, id)
    }

    /// The books are in step with the primitives: a mutex is held exactly
    /// when the books show its unit taken, and a semaphore's count is what
    /// the books show as free. This holds as long as every unit that is
    /// given back is given back by a task that holds it.
    pub open spec fn in_step(self) -> bool {
        &&& forall|id: int|
            0 <= id < self.mutexes.len() && (#[trigger] self.mutexes[id]) is Some ==> ((
            self.mutexes[id]->0).state.locked <==> self.mutex_books.available[id] == 0)
        &&& forall|id: int|
            0 <= id < self.semaphores.len() && (#[trigger] self.semaphores[id]) is Some ==> (
            self.semaphores[id]->0).count == self.semaphore_books.available[id]
    }

    /// `id` names an occupied mutex slot.
    pub open spec fn has_mutex(self, id: int) -> bool {
        0 <= id < self.mutexes.len() && self.mutexes[id] is Some
    }

    /// `id` names an occupied semaphore slot.
    pub open spec fn has_semaphore(self, id: int) -> bool {
        0 <= id < self.semaphores.len() && self.semaphores[id] is Some
    }

    /// `id` names an occupied slot of a condition variable.
    pub open spec fn has_condvar(self, id: int) -> bool {
        0 <= id < self.condvars.len() && self.condvars[id] is Some
    }

    /// Task `tid` holds mutex `id`.
    pub open spec fn holds_mutex(self, tid: int, id: int) -> bool {
        self.mutex_books.held_by(tid, id) >= 1
    }

    /// Task `tid` holds a unit of semaphore `id`.
    pub open spec fn holds_semaphore(self, tid: int, id: int) -> bool {
        self.semaphore_books.held_by(tid, id) >= 1
    }

    /// The table with other mutex slots and mutex books.
    pub open spec fn with_mutexes(
        self,
        mutexes: Seq<Option<MutexSlot>>,
        books: LedgerView,
    ) -> TableView {
        TableView {
            mutexes,
            semaphores: self.semaphores,
            condvars: self.condvars,
            mutex_books: books,
            semaphore_books: self.semaphore_books,
            detect: self.detect,
        }
    }

    /// The table with other semaphore slots and semaphore books.
    pub open spec fn with_semaphores(
        self,
        semaphores: Seq<Option<SemaphoreState>>,
        books: LedgerView,
    ) -> TableView {
        TableView {
            mutexes: self.mutexes,
            semaphores,
            condvars: self.condvars,
            mutex_books: self.mutex_books,
            semaphore_books: books,
            detect: self.detect,
        }
    }

    /// The table with other slots of condition variables.
    pub open spec fn with_condvars(self, condvars: Seq<Option<Seq<usize>>>) -> TableView {
        TableView {
            mutexes: self.mutexes,
            semaphores: self.semaphores,
            condvars,
            mutex_books: self.mutex_books,
            semaphore_books: self.semaphore_books,
            detect: self.detect,
        }
    }

    /// The table with detection switched on or off.
    pub open spec fn with_detect(self, detect: bool) -> TableView {
        TableView {
            mutexes: self.mutexes,
            semaphores: self.semaphores,
            condvars: self.condvars,
            mutex_books: self.mutex_books,
            semaphore_books: self.semaphore_books,
            detect,
        }
    }

    /// The table after a mutex of the given strategy has been made in slot
    /// `id`: the slot holds a free mutex, and its column of the books one
    /// free unit. Where the books had no row, they now have one.
    pub open spec fn after_mutex_create(self, blocking: bool, id: int) -> TableView {
        self.with_mutexes(
            place(
                self.mutexes,
                id,
                MutexSlot {
                    blocking,
                    state: MutexState { locked: false, waiters: Seq::empty() },
                },
            ),
            place_resource(self.mutex_books, id, 1),
        )
    }

    /// The table after a semaphore with `count` units has been made in slot
    /// `id`: the slot holds the semaphore, and its column of the books
    /// `count` free units. Where the books had no row, they now have one.
    pub open spec fn after_semaphore_create(self, count: nat, id: int) -> TableView {
        self.with_semaphores(
            place(self.semaphores, id, SemaphoreState { count, waiters: Seq::empty() }),
            place_resource(self.semaphore_books, id, count),
        )
    }

    /// The table after a condition variable has been made in slot `id`.
    pub open spec fn after_condvar_create(self, id: int) -> TableView {
        self.with_condvars(place(self.condvars, id, Seq::empty()))
    }

    /// Whether the safety check refuses task `tid`'s request for resource
    /// `id`: detection is on, the request is new, and with it on the books
    /// no order exists in which every task can finish.
    pub open spec fn refuses(self, books: LedgerView, tid: usize, id: int) -> bool {
        self.detect && books.fresh(tid as int, id) && !books.pending(tid as int, id).safe()
    }

    /// How a request of task `tid` for mutex `id` ends.
    pub open spec fn mutex_lock_result(self, tid: usize, id: int) -> Result<Acquire, SysError> {
        if !self.has_mutex(id) {
            Err(SysError::InvalidHandle)
        } else if self.refuses(self.mutex_books, tid, id) {
            Err(SysError::DeadlockRefused)
        } else if !(self.mutexes[id]->0).state.locked {
            Ok(Acquire::Granted)
        } else if (self.mutexes[id]->0).blocking {
            Ok(Acquire::Blocked)
        } else {
            Ok(Acquire::Busy)
        }
    }

    /// The table after task `tid` has asked for mutex `id`.
    ///
    /// A refused request leaves no trace but the task's row. A granted one
    /// locks the mutex, and the request on the books is met. A new request
    /// that finds a blocking mutex held joins the queue. Every request that
    /// is neither refused nor granted stays on the books.
    pub open spec fn after_mutex_lock(self, tid: usize, id: int) -> TableView {
        let m = self.mutexes[id]->0;
        let pending = self.mutex_books.pending(tid as int, id);
        match self.mutex_lock_result(tid, id) {
            Err(SysError::DeadlockRefused) => self.with_mutexes(
                self.mutexes,
                self.mutex_books.with_task(tid as nat),
            ),
            Err(_) => self,
            Ok(Acquire::Granted) => self.with_mutexes(
                self.mutexes.update(
                    id,
                    Some(MutexSlot { blocking: m.blocking, state: m.state.lock(tid) }),
                ),
                pending.met(tid as int, id),
            ),
            Ok(Acquire::Blocked) => if self.mutex_books.fresh(tid as int, id) {
                self.with_mutexes(
                    self.mutexes.update(
                        id,
                        Some(MutexSlot { blocking: m.blocking, state: m.state.lock(tid) }),
                    ),
                    pending,
                )
            } else {
                self.with_mutexes(self.mutexes, pending)
            },
            Ok(Acquire::Busy) => self.with_mutexes(self.mutexes, pending),
        }
    }

    /// What a release of mutex `id` returns: the task that is handed the
    /// mutex and is to be woken, if any.
    pub open spec fn mutex_unlock_result(self, id: int) -> Result<Option<usize>, SysError> {
        if !self.has_mutex(id) {
            Err(SysError::InvalidHandle)
        } else {
            Ok((self.mutexes[id]->0).state.next())
        }
    }

    /// The table after task `tid` has released mutex `id`.
    pub open spec fn after_mutex_unlock(self, tid: usize, id: int) -> TableView {
        if !self.has_mutex(id) {
            self
        } else {
            let m = self.mutexes[id]->0;
            self.with_mutexes(
                self.mutexes.update(
                    id,
                    Some(MutexSlot { blocking: m.blocking, state: m.state.unlock() }),
                ),
                self.mutex_books.handed_on(tid as int, id, m.state.next()),
            )
        }
    }

    /// How a `down` of task `tid` on semaphore `id` ends.
    pub open spec fn semaphore_down_result(
        self,
        tid: usize,
        id: int,
    ) -> Result<Acquire, SysError> {
        if !self.has_semaphore(id) {
            Err(SysError::InvalidHandle)
        } else if self.refuses(self.semaphore_books, tid, id) {
            Err(SysError::DeadlockRefused)
        } else if (self.semaphores[id]->0).count > 0 {
            Ok(Acquire::Granted)
        } else {
            Ok(Acquire::Blocked)
        }
    }

    /// The table after task `tid` has called `down` on semaphore `id`.
    pub open spec fn after_semaphore_down(self, tid: usize, id: int) -> TableView {
        let s = self.semaphores[id]->0;
        let pending = self.semaphore_books.pending(tid as int, id);
        match self.semaphore_down_result(tid, id) {
            Err(SysError::DeadlockRefused) => self.with_semaphores(
                self.semaphores,
                self.semaphore_books.with_task(tid as nat),
            ),
            Err(_) => self,
            Ok(Acquire::Granted) => self.with_semaphores(
                self.semaphores.update(id, Some(s.down(tid))),
                pending.met(tid as int, id),
            ),
            Ok(_) => if self.semaphore_books.fresh(tid as int, id) {
                self.with_semaphores(self.semaphores.update(id, Some(s.down(tid))), pending)
            } else {
                self.with_semaphores(self.semaphores, pending)
            },
        }
    }

    /// What an `up` on semaphore `id` returns: the task that is handed the
    /// unit and is to be woken, if any.
    pub open spec fn semaphore_up_result(self, id: int) -> Result<Option<usize>, SysError> {
        if !self.has_semaphore(id) {
            Err(SysError::InvalidHandle)
        } else {
            Ok((self.semaphores[id]->0).next())
        }
    }

    /// The table after task `tid` has called `up` on semaphore `id`.
    pub open spec fn after_semaphore_up(self, tid: usize, id: int) -> TableView {
        if !self.has_semaphore(id) {
            self
        } else {
            let s = self.semaphores[id]->0;
            self.with_semaphores(
                self.semaphores.update(id, Some(s.up())),
                self.semaphore_books.handed_on(tid as int, id, s.next()),
            )
        }
    }

    /// What a signal on condition variable `id` returns: the longest-waiting
    /// task, if any task waits.
    pub open spec fn condvar_signal_result(self, id: int) -> Result<Option<usize>, SysError> {
        if !self.has_condvar(id) {
            Err(SysError::InvalidHandle)
        } else if (self.condvars[id]->0).len() > 0 {
            Ok(Some((self.condvars[id]->0)[0]))
        } else {
            Ok(None)
        }
    }

    /// The table after a signal on condition variable `id`.
    pub open spec fn after_condvar_signal(self, id: int) -> TableView {
        if self.has_condvar(id) && (self.condvars[id]->0).len() > 0 {
            self.with_condvars(self.condvars.update(id, Some((self.condvars[id]->0).drop_first())))
        } else {
            self
        }
    }

    /// What a wait on condition variable `condvar` with mutex `mutex`
    /// returns: the task that the release of the mutex wakes, if any.
    pub open spec fn condvar_wait_result(
        self,
        condvar: int,
        mutex: int,
    ) -> Result<Option<usize>, SysError> {
        if !self.has_condvar(condvar) || !self.has_mutex(mutex) {
            Err(SysError::InvalidHandle)
        } else {
            Ok((self.mutexes[mutex]->0).state.next())
        }
    }

    /// The table after task `tid` has begun to wait on condition variable
    /// `condvar`: it has released mutex `mutex` and joined the queue.
    pub open spec fn after_condvar_wait(self, tid: usize, condvar: int, mutex: int) -> TableView {
        if !self.has_condvar(condvar) || !self.has_mutex(mutex) {
            self
        } else {
            self.after_mutex_unlock(tid, mutex).with_condvars(
                self.condvars.update(condvar, Some((self.condvars[condvar]->0).push(tid))),
            )
        }
    }
}

/// The tasks queued for a resource stay in order when the books change
/// nothing of what they asked for.
proof fn lemma_waiting_ok_frame(
    waiters: Seq<usize>,
    before: LedgerView,
    after: LedgerView,
    id: int,
)
    requires
        waiting_ok(waiters, before, id),
        forall|i: int|
            0 <= i < waiters.len() ==> after.wanted_by((#[trigger] waiters[i]) as int, id)
                >= before.wanted_by(waiters[i] as int, id),
    ensures
        waiting_ok(waiters, after, id),
{
}

/// Matrix conservation, for mutexes: of every mutex slot, the free units and
/// the units held by all tasks together are the units that exist, and an
/// occupied slot has exactly one.
pub proof fn lemma_mutex_conservation(v: TableView, m: int)
    requires
        v.wf(),
        0 <= m < v.mutexes.len(),
    ensures
        v.mutex_books.available[m] + col_sum(v.mutex_books.allocation, m)
            == v.mutex_books.capacity[m],
        v.has_mutex(m) ==> v.mutex_books.capacity[m] == 1,
{
    lemma_conservation(v.mutex_books, m);
    if v.has_mutex(m) {
        assert(mutex_slot_ok(v.mutexes[m]->0, v.mutex_books, m));
    }
}

/// Matrix conservation, for semaphores: of every semaphore slot, the free
/// units and the units held by all tasks together are the units that exist.
pub proof fn lemma_semaphore_conservation(v: TableView, s: int)
    requires
        v.wf(),
        0 <= s < v.semaphores.len(),
    ensures
        v.semaphore_books.available[s] + col_sum(v.semaphore_books.allocation, s)
            == v.semaphore_books.capacity[s],
{
    lemma_conservation(v.semaphore_books, s);
}

/// Mutual exclusion: a mutex is held by at most one task, and by that task
/// once.
pub proof fn lemma_mutual_exclusion(v: TableView, m: int, t1: int, t2: int)
    requires
        v.wf(),
        v.has_mutex(m),
        v.holds_mutex(t1, m),
        v.holds_mutex(t2, m),
    ensures
        t1 == t2,
        v.mutex_books.held_by(t1, m) == 1,
{
    assert(mutex_slot_ok(v.mutexes[m]->0, v.mutex_books, m));
    lemma_single_unit_exclusive(v.mutex_books, m, t1, t2);
    lemma_held_within_capacity(v.mutex_books, t1, m);
}

/// With the books in step, a mutex that a task holds is locked.
pub proof fn lemma_held_mutex_is_locked(v: TableView, m: int, tid: int)
    requires
        v.wf(),
        v.in_step(),
        v.has_mutex(m),
        v.holds_mutex(tid, m),
    ensures
        (v.mutexes[m]->0).state.locked,
{
    assert(mutex_slot_ok(v.mutexes[m]->0, v.mutex_books, m));
    lemma_conservation(v.mutex_books, m);
    lemma_col_sum_bound(v.mutex_books.allocation, tid, m);
}

/// Semaphore bound: the tasks together never hold more units of a semaphore
/// than it was made with.
pub proof fn lemma_semaphore_bound(v: TableView, s: int)
    requires
        v.wf(),
        0 <= s < v.semaphores.len(),
    ensures
        col_sum(v.semaphore_books.allocation, s) <= v.semaphore_books.capacity[s],
{
    lemma_held_within_capacity(v.semaphore_books, 0, s);
}

/// Mutexes whose column of the books is left alone stay in order.
proof fn lemma_mutex_slots_frame(
    slots: Seq<Option<MutexSlot>>,
    before: LedgerView,
    after: LedgerView,
    except: int,
)
    requires
        slots.len() == before.resources(),
        after.resources() >= before.resources(),
        forall|id: int|
            0 <= id < slots.len() && (#[trigger] slots[id]) is Some ==> mutex_slot_ok(
                slots[id]->0,
                before,
                id,
            ),
        forall|c: int|
            0 <= c < before.resources() && c != except ==> #[trigger] after.capacity[c]
                == before.capacity[c],
        forall|t2: int, c: int|
            0 <= c < before.resources() && c != except ==> #[trigger] after.wanted_by(t2, c)
                >= before.wanted_by(t2, c),
    ensures
        forall|id: int|
            0 <= id < slots.len() && id != except && (#[trigger] slots[id]) is Some
                ==> mutex_slot_ok(slots[id]->0, after, id),
{
    assert forall|id: int|
        0 <= id < slots.len() && id != except && (#[trigger] slots[id]) is Some implies mutex_slot_ok(
        slots[id]->0,
        after,
        id,
    ) by {
        let m = slots[id]->0;
        assert(mutex_slot_ok(m, before, id));
        assert(after.capacity[id] == before.capacity[id]);
        assert forall|i: int| 0 <= i < m.state.waiters.len() implies after.wanted_by(
            (#[trigger] m.state.waiters[i]) as int,
            id,
        ) >= 1 by {
            assert(after.wanted_by(m.state.waiters[i] as int, id) >= before.wanted_by(
                m.state.waiters[i] as int,
                id,
            ));
        }
    }
}

/// Semaphores whose column of the books is left alone stay in order.
proof fn lemma_semaphore_slots_frame(
    slots: Seq<Option<SemaphoreState>>,
    before: LedgerView,
    after: LedgerView,
    except: int,
)
    requires
        slots.len() == before.resources(),
        after.resources() >= before.resources(),
        forall|id: int|
            0 <= id < slots.len() && (#[trigger] slots[id]) is Some ==> semaphore_slot_ok(
                slots[id]->0,
                before,
                id,
            ),
        forall|t2: int, c: int|
            0 <= c < before.resources() && c != except ==> #[trigger] after.wanted_by(t2, c)
                >= before.wanted_by(t2, c),
    ensures
        forall|id: int|
            0 <= id < slots.len() && id != except && (#[trigger] slots[id]) is Some
                ==> semaphore_slot_ok(slots[id]->0, after, id),
{
    assert forall|id: int|
        0 <= id < slots.len() && id != except && (#[trigger] slots[id]) is Some implies semaphore_slot_ok(
        slots[id]->0,
        after,
        id,
    ) by {
        let s = slots[id]->0;
        assert(semaphore_slot_ok(s, before, id));
        assert forall|i: int| 0 <= i < s.waiters.len() implies after.wanted_by(
            (#[trigger] s.waiters[i]) as int,
            id,
        ) >= 1 by {
            assert(after.wanted_by(s.waiters[i] as int, id) >= before.wanted_by(
                s.waiters[i] as int,
                id,
            ));
        }
    }
}

/// A task without an outstanding request for a resource is not in the
/// resource's queue, so it can join the queue without being in it twice.
proof fn lemma_waiting_ok_push(
    waiters: Seq<usize>,
    before: LedgerView,
    after: LedgerView,
    id: int,
    tid: usize,
)
    requires
        waiting_ok(waiters, before, id),
        before.wanted_by(tid as int, id) == 0,
        after.wanted_by(tid as int, id) >= 1,
        forall|i: int|
            0 <= i < waiters.len() ==> after.wanted_by((#[trigger] waiters[i]) as int, id)
                >= before.wanted_by(waiters[i] as int, id),
    ensures
        waiting_ok(waiters.push(tid), after, id),
{
    let q = waiters.push(tid);
    assert forall|i: int, j: int| 0 <= i < q.len() && 0 <= j < q.len() && i != j implies q[i]
        != q[j] by {
        if i < waiters.len() {
            assert(before.wanted_by(waiters[i] as int, id) >= 1);
        }
        if j < waiters.len() {
            assert(before.wanted_by(waiters[j] as int, id) >= 1);
        }
    }
    assert forall|i: int| 0 <= i < q.len() implies after.wanted_by((#[trigger] q[i]) as int, id)
        >= 1 by {
        if i < waiters.len() {
            assert(q[i] == waiters[i]);
            assert(before.wanted_by(waiters[i] as int, id) >= 1);
        }
    }
}

/// When the head of a queue is handed what it asked for, the tasks behind
/// it are still queued once each, with their requests outstanding.
proof fn lemma_waiting_ok_pop(
    waiters: Seq<usize>,
    before: LedgerView,
    after: LedgerView,
    id: int,
)
    requires
        waiting_ok(waiters, before, id),
        waiters.len() > 0,
        forall|t2: int|
            t2 != waiters[0] ==> #[trigger] after.wanted_by(t2, id) >= before.wanted_by(t2, id),
    ensures
        waiting_ok(waiters.drop_first(), after, id),
{
    let q = waiters.drop_first();
    assert forall|i: int, j: int| 0 <= i < q.len() && 0 <= j < q.len() && i != j implies q[i]
        != q[j] by {
        assert(q[i] == waiters[i + 1]);
        assert(q[j] == waiters[j + 1]);
    }
    assert forall|i: int| 0 <= i < q.len() implies after.wanted_by((#[trigger] q[i]) as int, id)
        >= 1 by {
        assert(q[i] == waiters[i + 1]);
        assert(waiters[i + 1] != waiters[0]);
        assert(before.wanted_by(waiters[i + 1] as int, id) >= 1);
        assert(after.wanted_by(waiters[i + 1] as int, id) >= before.wanted_by(
            waiters[i + 1] as int,
            id,
        ));
    }
}

/// What a release changes on the books, with the unit handed on to the head
/// of the queue where there is one: the books still balance, the tasks
/// behind the head are still queued in order, and no other column is
/// touched.
proof fn lemma_handed_on(books: LedgerView, tid: usize, id: int, waiters: Seq<usize>)
    requires
        books.wf(),
        0 <= id < books.resources(),
        waiting_ok(waiters, books, id),
    ensures
        ({
            let woken = if waiters.len() > 0 {
                Some(waiters[0])
            } else {
                None
            };
            let rest = if waiters.len() > 0 {
                waiters.drop_first()
            } else {
                waiters
            };
            let given = books.available[id] + if books.held_by(tid as int, id) >= 1 {
                1int
            } else {
                0int
            };
            let h = books.handed_on(tid as int, id, woken);
            &&& h.wf()
            &&& h.resources() == books.resources()
            &&& h.tasks() == books.tasks()
            &&& h.capacity == books.capacity
            &&& h.available[id] == if waiters.len() > 0 && given >= 1 {
                given - 1
            } else {
                given
            }
            &&& forall|c: int|
                0 <= c < books.resources() && c != id ==> #[trigger] h.available[c]
                    == books.available[c]
            &&& forall|t2: int, c: int|
                0 <= c < books.resources() && c != id ==> #[trigger] h.wanted_by(t2, c)
                    == books.wanted_by(t2, c)
            &&& waiting_ok(rest, h, id)
        }),
{
    let holder = books.held_by(tid as int, id) >= 1;
    let given = if holder {
        books.release(tid as int, id)
    } else {
        books
    };
    if holder {
        lemma_col_sum_bound(books.allocation, tid as int, id);
        lemma_release_wf(books, tid as int, id);
    }
    assert forall|t2: int, c: int| 0 <= c < books.resources() implies #[trigger] given.wanted_by(
        t2,
        c,
    ) == books.wanted_by(t2, c) by {}
    if waiters.len() > 0 {
        let w = waiters[0];
        assert(books.wanted_by(w as int, id) >= 1);
        assert(given.wanted_by(w as int, id) >= 1);
        lemma_met(given, w as int, id);
        let h = given.met(w as int, id);
        assert forall|t2: int| t2 != waiters[0] implies #[trigger] h.wanted_by(t2, id)
            >= books.wanted_by(t2, id) by {
            assert(given.wanted_by(t2, id) == books.wanted_by(t2, id));
        }
        lemma_waiting_ok_pop(waiters, books, h, id);
        assert forall|t2: int, c: int|
            0 <= c < books.resources() && c != id implies #[trigger] h.wanted_by(t2, c)
            == books.wanted_by(t2, c) by {
            assert(given.wanted_by(t2, c) == books.wanted_by(t2, c));
        }
    } else {
        lemma_waiting_ok_frame(waiters, books, given, id);
    }
}

/// What placing a resource changes on the books: the books still balance;
/// books without a row have one row afterwards, and the number of rows is
/// otherwise as it was; the column holds the new resource's units, all free
/// and none asked for; no other column is touched.
proof fn lemma_place_resource(books: LedgerView, id: int, cap: nat)
    requires
        books.wf(),
        0 <= id <= books.resources(),
    ensures
        ({
            let p = place_resource(books, id, cap);
            &&& p.wf()
            &&& p.resources() == if id < books.resources() {
                books.resources()
            } else {
                books.resources() + 1
            }
            &&& p.tasks() == if books.tasks() == 0 {
                1
            } else {
                books.tasks()
            }
            &&& p.available[id] == cap
            &&& p.capacity[id] == cap
            &&& forall|c: int|
                0 <= c < books.resources() && c != id ==> #[trigger] p.available[c]
                    == books.available[c]
            &&& forall|c: int|
                0 <= c < books.resources() && c != id ==> #[trigger] p.capacity[c]
                    == books.capacity[c]
            &&& forall|t2: int, c: int|
                0 <= c < books.resources() && c != id ==> #[trigger] p.wanted_by(t2, c)
                    == books.wanted_by(t2, c)
            &&& forall|t2: int, c: int|
                0 <= c < books.resources() && c != id ==> #[trigger] p.held_by(t2, c)
                    == books.held_by(t2, c)
            &&& forall|t2: int| #[trigger] p.wanted_by(t2, id) == 0
            &&& forall|t2: int| #[trigger] p.held_by(t2, id) == 0
        }),
{
    let rows = books.with_task(0);
    lemma_with_task_wf(books, 0);
    let p = place_resource(books, id, cap);
    if id < rows.resources() {
        lemma_reset_resource_wf(rows, id, cap);
        assert forall|t2: int| #[trigger] p.wanted_by(t2, id) == 0 by {
            assert(rows.reset_resource(id, cap).wanted_by(t2, id) == 0);
        }
        assert forall|t2: int| #[trigger] p.held_by(t2, id) == 0 by {
            assert(rows.reset_resource(id, cap).held_by(t2, id) == 0);
        }
    } else {
        lemma_add_resource_wf(rows, cap);
        assert forall|t2: int| #[trigger] p.wanted_by(t2, id) == 0 by {
            assert(rows.add_resource(cap).wanted_by(t2, id) == 0);
        }
        assert forall|t2: int| #[trigger] p.held_by(t2, id) == 0 by {
            assert(rows.add_resource(cap).held_by(t2, id) == 0);
        }
    }
    assert forall|t2: int, c: int|
        0 <= c < books.resources() && c != id implies #[trigger] p.wanted_by(t2, c)
        == books.wanted_by(t2, c) by {
        assert(rows.wanted_by(t2, c) == books.wanted_by(t2, c));
    }
    assert forall|t2: int, c: int|
        0 <= c < books.resources() && c != id implies #[trigger] p.held_by(t2, c)
        == books.held_by(t2, c) by {
        assert(rows.held_by(t2, c) == books.held_by(t2, c));
    }
}

/// Making a mutex leaves the table in order, and the books in step where
/// they were.
pub proof fn lemma_mutex_create_wf(v: TableView, blocking: bool, id: int)
    requires
        v.wf(),
        first_free(v.mutexes, id),
    ensures
        v.after_mutex_create(blocking, id).wf(),
        v.in_step() ==> v.after_mutex_create(blocking, id).in_step(),
{
    let a = v.after_mutex_create(blocking, id);
    lemma_place_resource(v.mutex_books, id, 1);
    lemma_mutex_slots_frame(v.mutexes, v.mutex_books, a.mutex_books, id);
    assert forall|j: int|
        0 <= j < a.mutexes.len() && (#[trigger] a.mutexes[j]) is Some implies mutex_slot_ok(
        a.mutexes[j]->0,
        a.mutex_books,
        j,
    ) by {
        if j != id {
            assert(a.mutexes[j] == v.mutexes[j]);
        }
    }
    if v.in_step() {
        assert forall|j: int|
            0 <= j < a.mutexes.len() && (#[trigger] a.mutexes[j]) is Some implies ((
        a.mutexes[j]->0).state.locked <==> a.mutex_books.available[j] == 0) by {
            if j != id {
                assert(a.mutexes[j] == v.mutexes[j]);
                assert(a.mutex_books.available[j] == v.mutex_books.available[j]);
            }
        }
    }
}

/// Making a semaphore leaves the table in order, and the books in step
/// where they were.
pub proof fn lemma_semaphore_create_wf(v: TableView, count: nat, id: int)
    requires
        v.wf(),
        first_free(v.semaphores, id),
    ensures
        v.after_semaphore_create(count, id).wf(),
        v.in_step() ==> v.after_semaphore_create(count, id).in_step(),
{
    let a = v.after_semaphore_create(count, id);
    lemma_place_resource(v.semaphore_books, id, count);
    lemma_semaphore_slots_frame(v.semaphores, v.semaphore_books, a.semaphore_books, id);
    assert forall|j: int|
        0 <= j < a.semaphores.len() && (#[trigger] a.semaphores[j]) is Some implies semaphore_slot_ok(
        a.semaphores[j]->0,
        a.semaphore_books,
        j,
    ) by {
        if j != id {
            assert(a.semaphores[j] == v.semaphores[j]);
        }
    }
    if v.in_step() {
        assert forall|j: int|
            0 <= j < a.semaphores.len() && (#[trigger] a.semaphores[j]) is Some implies (
        a.semaphores[j]->0).count == a.semaphore_books.available[j] by {
            if j != id {
                assert(a.semaphores[j] == v.semaphores[j]);
                assert(a.semaphore_books.available[j] == v.semaphore_books.available[j]);
            }
        }
    }
}

/// A request for a mutex, however it ends, leaves the table in order, and
/// the books in step where they were.
pub proof fn lemma_mutex_lock_wf(v: TableView, tid: usize, id: int)
    requires
        v.wf(),
    ensures
        v.after_mutex_lock(tid, id).wf(),
        v.in_step() ==> v.after_mutex_lock(tid, id).in_step(),
{
    if v.has_mutex(id) {
        let m = v.mutexes[id]->0;
        let b = v.mutex_books;
        let p = b.pending(tid as int, id);
        let w = b.with_task(tid as nat);
        let a = v.after_mutex_lock(tid, id);
        lemma_pending(b, tid as int, id);
        lemma_conservation(b, id);
        assert(mutex_slot_ok(m, b, id));
        match v.mutex_lock_result(tid, id) {
            Err(_) => {
                lemma_mutex_slots_frame(v.mutexes, b, w, -1);
            },
            Ok(Acquire::Granted) => {
                lemma_met(p, tid as int, id);
                let g = p.met(tid as int, id);
                lemma_mutex_slots_frame(v.mutexes, b, g, id);
                assert(waiting_ok(m.state.lock(tid).waiters, g, id));
                assert(mutex_slot_ok(a.mutexes[id]->0, g, id));
                assert forall|j: int|
                    0 <= j < a.mutexes.len() && (#[trigger] a.mutexes[j]) is Some implies mutex_slot_ok(
                    a.mutexes[j]->0,
                    a.mutex_books,
                    j,
                ) by {
                    if j != id {
                        assert(a.mutexes[j] == v.mutexes[j]);
                    }
                }
            },
            Ok(Acquire::Blocked) => {
                lemma_mutex_slots_frame(v.mutexes, b, p, id);
                if b.fresh(tid as int, id) {
                    lemma_waiting_ok_push(m.state.waiters, b, p, id, tid);
                } else {
                    lemma_waiting_ok_frame(m.state.waiters, b, p, id);
                }
                assert(mutex_slot_ok(a.mutexes[id]->0, p, id));
                assert forall|j: int|
                    0 <= j < a.mutexes.len() && (#[trigger] a.mutexes[j]) is Some implies mutex_slot_ok(
                    a.mutexes[j]->0,
                    a.mutex_books,
                    j,
                ) by {
                    if j != id {
                        assert(a.mutexes[j] == v.mutexes[j]);
                    }
                }
            },
            Ok(Acquire::Busy) => {
                lemma_mutex_slots_frame(v.mutexes, b, p, id);
                lemma_waiting_ok_frame(m.state.waiters, b, p, id);
                assert(mutex_slot_ok(m, p, id));
            },
        }
        if v.in_step() {
            assert forall|j: int|
                0 <= j < a.mutexes.len() && (#[trigger] a.mutexes[j]) is Some implies ((
            a.mutexes[j]->0).state.locked <==> a.mutex_books.available[j] == 0) by {
                assert(v.mutexes[j] is Some);
                assert((v.mutexes[j]->0).state.locked <==> b.available[j] == 0);
                if j != id {
                    assert(a.mutexes[j] == v.mutexes[j]);
                    assert(a.mutex_books.available[j] == b.available[j]);
                }
            }
        }
    }
}

/// A release of a mutex leaves the table in order, and the books in step
/// where they were and the task held the mutex.
pub proof fn lemma_mutex_unlock_wf(v: TableView, tid: usize, id: int)
    requires
        v.wf(),
    ensures
        v.after_mutex_unlock(tid, id).wf(),
        v.in_step() && v.holds_mutex(tid as int, id) ==> v.after_mutex_unlock(tid, id).in_step(),
{
    if v.has_mutex(id) {
        let m = v.mutexes[id]->0;
        let b = v.mutex_books;
        let a = v.after_mutex_unlock(tid, id);
        assert(mutex_slot_ok(m, b, id));
        lemma_handed_on(b, tid, id, m.state.waiters);
        lemma_mutex_slots_frame(v.mutexes, b, a.mutex_books, id);
        assert(mutex_slot_ok(a.mutexes[id]->0, a.mutex_books, id));
        assert forall|j: int|
            0 <= j < a.mutexes.len() && (#[trigger] a.mutexes[j]) is Some implies mutex_slot_ok(
            a.mutexes[j]->0,
            a.mutex_books,
            j,
        ) by {
            if j != id {
                assert(a.mutexes[j] == v.mutexes[j]);
            }
        }
        if v.in_step() && v.holds_mutex(tid as int, id) {
            lemma_conservation(b, id);
            lemma_col_sum_bound(b.allocation, tid as int, id);
            assert forall|j: int|
                0 <= j < a.mutexes.len() && (#[trigger] a.mutexes[j]) is Some implies ((
            a.mutexes[j]->0).state.locked <==> a.mutex_books.available[j] == 0) by {
                assert(v.mutexes[j] is Some);
                assert((v.mutexes[j]->0).state.locked <==> b.available[j] == 0);
                if j != id {
                    assert(a.mutexes[j] == v.mutexes[j]);
                    assert(a.mutex_books.available[j] == b.available[j]);
                }
            }
        }
    }
}

/// A `down` on a semaphore, however it ends, leaves the table in order, and
/// the books in step where they were.
pub proof fn lemma_semaphore_down_wf(v: TableView, tid: usize, id: int)
    requires
        v.wf(),
    ensures
        v.after_semaphore_down(tid, id).wf(),
        v.in_step() ==> v.after_semaphore_down(tid, id).in_step(),
{
    if v.has_semaphore(id) {
        let s = v.semaphores[id]->0;
        let b = v.semaphore_books;
        let p = b.pending(tid as int, id);
        let w = b.with_task(tid as nat);
        let a = v.after_semaphore_down(tid, id);
        lemma_pending(b, tid as int, id);
        assert(semaphore_slot_ok(s, b, id));
        match v.semaphore_down_result(tid, id) {
            Err(_) => {
                lemma_semaphore_slots_frame(v.semaphores, b, w, -1);
            },
            Ok(Acquire::Granted) => {
                lemma_met(p, tid as int, id);
                let g = p.met(tid as int, id);
                lemma_semaphore_slots_frame(v.semaphores, b, g, id);
                assert(waiting_ok(s.down(tid).waiters, g, id));
                assert(semaphore_slot_ok(a.semaphores[id]->0, g, id));
                assert forall|j: int|
                    0 <= j < a.semaphores.len() && (#[trigger] a.semaphores[j]) is Some implies semaphore_slot_ok(
                    a.semaphores[j]->0,
                    a.semaphore_books,
                    j,
                ) by {
                    if j != id {
                        assert(a.semaphores[j] == v.semaphores[j]);
                    }
                }
            },
            Ok(_) => {
                lemma_semaphore_slots_frame(v.semaphores, b, p, id);
                if b.fresh(tid as int, id) {
                    lemma_waiting_ok_push(s.waiters, b, p, id, tid);
                } else {
                    lemma_waiting_ok_frame(s.waiters, b, p, id);
                }
                assert(semaphore_slot_ok(a.semaphores[id]->0, p, id));
                assert forall|j: int|
                    0 <= j < a.semaphores.len() && (#[trigger] a.semaphores[j]) is Some implies semaphore_slot_ok(
                    a.semaphores[j]->0,
                    a.semaphore_books,
                    j,
                ) by {
                    if j != id {
                        assert(a.semaphores[j] == v.semaphores[j]);
                    }
                }
            },
        }
        if v.in_step() {
            assert forall|j: int|
                0 <= j < a.semaphores.len() && (#[trigger] a.semaphores[j]) is Some implies (
            a.semaphores[j]->0).count == a.semaphore_books.available[j] by {
                assert(v.semaphores[j] is Some);
                assert((v.semaphores[j]->0).count == b.available[j]);
                if j != id {
                    assert(a.semaphores[j] == v.semaphores[j]);
                    assert(a.semaphore_books.available[j] == b.available[j]);
                }
            }
        }
    }
}

/// An `up` on a semaphore leaves the table in order, and the books in step
/// where they were and the task held a unit.
pub proof fn lemma_semaphore_up_wf(v: TableView, tid: usize, id: int)
    requires
        v.wf(),
    ensures
        v.after_semaphore_up(tid, id).wf(),
        v.in_step() && v.holds_semaphore(tid as int, id) ==> v.after_semaphore_up(
            tid,
            id,
        ).in_step(),
{
    if v.has_semaphore(id) {
        let s = v.semaphores[id]->0;
        let b = v.semaphore_books;
        let a = v.after_semaphore_up(tid, id);
        assert(semaphore_slot_ok(s, b, id));
        lemma_handed_on(b, tid, id, s.waiters);
        lemma_semaphore_slots_frame(v.semaphores, b, a.semaphore_books, id);
        assert(semaphore_slot_ok(a.semaphores[id]->0, a.semaphore_books, id));
        assert forall|j: int|
            0 <= j < a.semaphores.len() && (#[trigger] a.semaphores[j]) is Some implies semaphore_slot_ok(
            a.semaphores[j]->0,
            a.semaphore_books,
            j,
        ) by {
            if j != id {
                assert(a.semaphores[j] == v.semaphores[j]);
            }
        }
        if v.in_step() && v.holds_semaphore(tid as int, id) {
            assert forall|j: int|
                0 <= j < a.semaphores.len() && (#[trigger] a.semaphores[j]) is Some implies (
            a.semaphores[j]->0).count == a.semaphore_books.available[j] by {
                assert(v.semaphores[j] is Some);
                assert((v.semaphores[j]->0).count == b.available[j]);
                if j != id {
                    assert(a.semaphores[j] == v.semaphores[j]);
                    assert(a.semaphore_books.available[j] == b.available[j]);
                }
            }
        }
    }
}

/// A wait on a condition variable leaves the table in order, and the books
/// in step where they were and the task held the mutex.
pub proof fn lemma_condvar_wait_wf(v: TableView, tid: usize, condvar: int, mutex: int)
    requires
        v.wf(),
    ensures
        v.after_condvar_wait(tid, condvar, mutex).wf(),
        v.in_step() && v.holds_mutex(tid as int, mutex) ==> v.after_condvar_wait(
            tid,
            condvar,
            mutex,
        ).in_step(),
{
    lemma_mutex_unlock_wf(v, tid, mutex);
}

/// Rollback: a refused request leaves every task's outstanding need, every
/// task's holdings and every free unit exactly as they were before the
/// request, and no primitive changes.
pub proof fn lemma_refusal_leaves_no_trace(v: TableView, tid: usize, id: int)
    requires
        v.wf(),
    ensures
        v.mutex_lock_result(tid, id) == Err::<Acquire, SysError>(SysError::DeadlockRefused) ==> {
            let a = v.after_mutex_lock(tid, id);
            &&& a.mutexes == v.mutexes
            &&& a.semaphores == v.semaphores
            &&& a.condvars == v.condvars
            &&& a.semaphore_books == v.semaphore_books
            &&& a.detect == v.detect
            &&& a.mutex_books.available == v.mutex_books.available
            &&& a.mutex_books.capacity == v.mutex_books.capacity
            &&& forall|t: int, r: int|
                0 <= r < v.mutexes.len() ==> #[trigger] a.mutex_books.wanted_by(t, r)
                    == v.mutex_books.wanted_by(t, r)
            &&& forall|t: int, r: int|
                0 <= r < v.mutexes.len() ==> #[trigger] a.mutex_books.held_by(t, r)
                    == v.mutex_books.held_by(t, r)
        },
        v.semaphore_down_result(tid, id) == Err::<Acquire, SysError>(
            SysError::DeadlockRefused,
        ) ==> {
            let a = v.after_semaphore_down(tid, id);
            &&& a.mutexes == v.mutexes
            &&& a.semaphores == v.semaphores
            &&& a.condvars == v.condvars
            &&& a.mutex_books == v.mutex_books
            &&& a.detect == v.detect
            &&& a.semaphore_books.available == v.semaphore_books.available
            &&& a.semaphore_books.capacity == v.semaphore_books.capacity
            &&& forall|t: int, r: int|
                0 <= r < v.semaphores.len() ==> #[trigger] a.semaphore_books.wanted_by(t, r)
                    == v.semaphore_books.wanted_by(t, r)
            &&& forall|t: int, r: int|
                0 <= r < v.semaphores.len() ==> #[trigger] a.semaphore_books.held_by(t, r)
                    == v.semaphore_books.held_by(t, r)
        },
{
    lemma_with_task_wf(v.mutex_books, tid as nat);
    lemma_with_task_wf(v.semaphore_books, tid as nat);
}

/// Safety soundness: with detection on, a new request that is not refused
/// leaves behind it books on which, as they stood when the check was made,
/// some order exists in which every task can finish.
pub proof fn lemma_admitted_request_is_safe(v: TableView, tid: usize, id: int)
    requires
        v.wf(),
        v.detect,
    ensures
        v.mutex_lock_result(tid, id) is Ok && v.mutex_books.fresh(tid as int, id) ==> exists|
            order: Seq<int>,
        |
            is_finishing_order(
                v.mutex_books.pending(tid as int, id).available,
                v.mutex_books.pending(tid as int, id).allocation,
                v.mutex_books.pending(tid as int, id).need,
                order,
            ),
        v.semaphore_down_result(tid, id) is Ok && v.semaphore_books.fresh(tid as int, id)
            ==> exists|order: Seq<int>|
            is_finishing_order(
                v.semaphore_books.pending(tid as int, id).available,
                v.semaphore_books.pending(tid as int, id).allocation,
                v.semaphore_books.pending(tid as int, id).need,
                order,
            ),
{
}

/// With detection on, the request that would close a circle is refused:
/// when task `tid` asks for a mutex while the task that holds it waits for a
/// mutex that `tid` holds, the request is refused. With `other` the task
/// `tid` itself and `held` the mutex `id`, this is the request of a task for
/// a mutex that it holds already.
pub proof fn lemma_closing_a_circle_is_refused(
    v: TableView,
    tid: usize,
    id: int,
    other: int,
    held: int,
)
    requires
        v.wf(),
        v.detect,
        v.has_mutex(id),
        v.has_mutex(held),
        v.mutex_books.fresh(tid as int, id),
        v.holds_mutex(other, id),
        v.holds_mutex(tid as int, held),
        v.mutex_books.pending(tid as int, id).wanted_by(other, held) >= 1,
    ensures
        v.mutex_lock_result(tid, id) == Err::<Acquire, SysError>(SysError::DeadlockRefused),
{
    let b = v.mutex_books;
    let p = b.pending(tid as int, id);
    lemma_pending(b, tid as int, id);
    lemma_with_task_wf(b, tid as nat);
    assert(mutex_slot_ok(v.mutexes[id]->0, b, id));
    assert(mutex_slot_ok(v.mutexes[held]->0, b, held));
    lemma_conservation(p, id);
    lemma_conservation(p, held);
    assert(p.held_by(other, id) == b.held_by(other, id));
    assert(p.held_by(tid as int, held) == b.held_by(tid as int, held));
    lemma_col_sum_bound(p.allocation, other, id);
    lemma_col_sum_bound(p.allocation, tid as int, held);
    lemma_circular_wait_unsafe(p.available, p.allocation, p.need, tid as int, other, id, held);
}

/// What exists of a resource is settled when the resource is made: asking
/// for it, giving it back and waiting change the capacity of no mutex and of
/// no semaphore.
pub proof fn lemma_capacity_is_fixed(v: TableView, tid: usize, id: int, condvar: int)
    requires
        v.wf(),
    ensures
        v.after_mutex_lock(tid, id).mutex_books.capacity == v.mutex_books.capacity,
        v.after_mutex_lock(tid, id).semaphore_books.capacity == v.semaphore_books.capacity,
        v.after_mutex_unlock(tid, id).mutex_books.capacity == v.mutex_books.capacity,
        v.after_mutex_unlock(tid, id).semaphore_books.capacity == v.semaphore_books.capacity,
        v.after_semaphore_down(tid, id).mutex_books.capacity == v.mutex_books.capacity,
        v.after_semaphore_down(tid, id).semaphore_books.capacity == v.semaphore_books.capacity,
        v.after_semaphore_up(tid, id).mutex_books.capacity == v.mutex_books.capacity,
        v.after_semaphore_up(tid, id).semaphore_books.capacity == v.semaphore_books.capacity,
        v.after_condvar_wait(tid, condvar, id).mutex_books.capacity == v.mutex_books.capacity,
        v.after_condvar_wait(tid, condvar, id).semaphore_books.capacity
            == v.semaphore_books.capacity,
        v.after_condvar_signal(condvar).mutex_books.capacity == v.mutex_books.capacity,
        v.after_condvar_signal(condvar).semaphore_books.capacity == v.semaphore_books.capacity,
{
    if v.has_mutex(id) {
        let b = v.mutex_books;
        lemma_pending(b, tid as int, id);
        lemma_met(b.pending(tid as int, id), tid as int, id);
        assert(mutex_slot_ok(v.mutexes[id]->0, b, id));
        lemma_handed_on(b, tid, id, (v.mutexes[id]->0).state.waiters);
    }
    if v.has_semaphore(id) {
        let b = v.semaphore_books;
        lemma_pending(b, tid as int, id);
        lemma_met(b.pending(tid as int, id), tid as int, id);
        assert(semaphore_slot_ok(v.semaphores[id]->0, b, id));
        lemma_handed_on(b, tid, id, (v.semaphores[id]->0).waiters);
    }
}

/// A mutex is made with one unit and a semaphore with its count, all of it
/// free, and making one changes the capacity of no other.
pub proof fn lemma_capacity_when_made(v: TableView, blocking: bool, count: nat, id: int)
    requires
        v.wf(),
    ensures
        first_free(v.mutexes, id) ==> {
            let a = v.after_mutex_create(blocking, id);
            &&& a.mutex_books.capacity[id] == 1
            &&& a.mutex_books.available[id] == 1
            &&& forall|c: int|
                0 <= c < v.mutexes.len() && c != id ==> #[trigger] a.mutex_books.capacity[c]
                    == v.mutex_books.capacity[c]
        },
        first_free(v.semaphores, id) ==> {
            let a = v.after_semaphore_create(count, id);
            &&& a.semaphore_books.capacity[id] == count
            &&& a.semaphore_books.available[id] == count
            &&& forall|c: int|
                0 <= c < v.semaphores.len() && c != id ==> #[trigger] a.semaphore_books.capacity[c]
                    == v.semaphore_books.capacity[c]
        },
{
    if first_free(v.mutexes, id) {
        lemma_place_resource(v.mutex_books, id, 1);
    }
    if first_free(v.semaphores, id) {
        lemma_place_resource(v.semaphore_books, id, count);
    }
}

/// First come, first served, request by request: a new request that blocks
/// joins the back of the queue of its mutex or semaphore, no other request
/// changes the order of a queue, and a release wakes the head of the queue
/// and leaves the tasks behind it in their order.
pub proof fn lemma_queue_discipline(v: TableView, tid: usize, id: int)
    requires
        v.wf(),
    ensures
        v.has_mutex(id) ==> {
            let before = (v.mutexes[id]->0).state.waiters;
            let locked = (v.after_mutex_lock(tid, id).mutexes[id]->0).state.waiters;
            let unlocked = (v.after_mutex_unlock(tid, id).mutexes[id]->0).state.waiters;
            &&& locked == if v.mutex_lock_result(tid, id) == Ok::<Acquire, SysError>(
                Acquire::Blocked,
            ) && v.mutex_books.fresh(tid as int, id) {
                before.push(tid)
            } else {
                before
            }
            &&& before.len() > 0 ==> v.mutex_unlock_result(id) == Ok::<Option<usize>, SysError>(
                Some(before[0]),
            ) && unlocked == before.drop_first()
            &&& before.len() == 0 ==> v.mutex_unlock_result(id) == Ok::<Option<usize>, SysError>(
                None,
            ) && unlocked == before
        },
        v.has_semaphore(id) ==> {
            let before = (v.semaphores[id]->0).waiters;
            let downed = (v.after_semaphore_down(tid, id).semaphores[id]->0).waiters;
            let upped = (v.after_semaphore_up(tid, id).semaphores[id]->0).waiters;
            &&& downed == if v.semaphore_down_result(tid, id) == Ok::<Acquire, SysError>(
                Acquire::Blocked,
            ) && v.semaphore_books.fresh(tid as int, id) {
                before.push(tid)
            } else {
                before
            }
            &&& before.len() > 0 ==> v.semaphore_up_result(id) == Ok::<Option<usize>, SysError>(
                Some(before[0]),
            ) && upped == before.drop_first()
            &&& before.len() == 0 ==> v.semaphore_up_result(id) == Ok::<Option<usize>, SysError>(
                None,
            ) && upped == before
        },
{
    if v.has_mutex(id) {
        assert(mutex_slot_ok(v.mutexes[id]->0, v.mutex_books, id));
    }
    if v.has_semaphore(id) {
        assert(semaphore_slot_ok(v.semaphores[id]->0, v.semaphore_books, id));
    }
}

/// With the books in step, what the primitives grant is what the books
/// record: a task whose request is granted holds one unit more than before,
/// a task that gives back a unit it holds holds one less, and the task that
/// is woken by that release holds one more.
pub proof fn lemma_grants_are_recorded(v: TableView, tid: usize, id: int)
    requires
        v.wf(),
        v.in_step(),
    ensures
        v.mutex_lock_result(tid, id) == Ok::<Acquire, SysError>(Acquire::Granted) ==> v.after_mutex_lock(
            tid,
            id,
        ).mutex_books.held_by(tid as int, id) == v.mutex_books.held_by(tid as int, id) + 1,
        v.semaphore_down_result(tid, id) == Ok::<Acquire, SysError>(Acquire::Granted)
            ==> v.after_semaphore_down(tid, id).semaphore_books.held_by(tid as int, id)
            == v.semaphore_books.held_by(tid as int, id) + 1,
        v.has_mutex(id) && v.holds_mutex(tid as int, id) ==> {
            let a = v.after_mutex_unlock(tid, id).mutex_books;
            match (v.mutexes[id]->0).state.next() {
                Some(w) => if w == tid {
                    a.held_by(tid as int, id) == v.mutex_books.held_by(tid as int, id)
                } else {
                    &&& a.held_by(tid as int, id) == v.mutex_books.held_by(tid as int, id) - 1
                    &&& a.held_by(w as int, id) == v.mutex_books.held_by(w as int, id) + 1
                },
                None => a.held_by(tid as int, id) == v.mutex_books.held_by(tid as int, id) - 1,
            }
        },
        v.has_semaphore(id) && v.holds_semaphore(tid as int, id) ==> {
            let a = v.after_semaphore_up(tid, id).semaphore_books;
            match (v.semaphores[id]->0).next() {
                Some(w) => if w == tid {
                    a.held_by(tid as int, id) == v.semaphore_books.held_by(tid as int, id)
                } else {
                    &&& a.held_by(tid as int, id) == v.semaphore_books.held_by(tid as int, id) - 1
                    &&& a.held_by(w as int, id) == v.semaphore_books.held_by(w as int, id) + 1
                },
                None => a.held_by(tid as int, id) == v.semaphore_books.held_by(tid as int, id)
                    - 1,
            }
        },
{
    if v.has_mutex(id) {
        let b = v.mutex_books;
        let m = v.mutexes[id]->0;
        assert(mutex_slot_ok(m, b, id));
        lemma_pending(b, tid as int, id);
        lemma_met(b.pending(tid as int, id), tid as int, id);
        if v.holds_mutex(tid as int, id) {
            lemma_col_sum_bound(b.allocation, tid as int, id);
            lemma_release_wf(b, tid as int, id);
            let given = b.release(tid as int, id);
            if m.state.waiters.len() > 0 {
                let w = m.state.waiters[0];
                assert(b.wanted_by(w as int, id) >= 1);
                assert(given.wanted_by(w as int, id) == b.wanted_by(w as int, id));
                lemma_met(given, w as int, id);
            }
        }
    }
    if v.has_semaphore(id) {
        let b = v.semaphore_books;
        let s = v.semaphores[id]->0;
        assert(semaphore_slot_ok(s, b, id));
        lemma_pending(b, tid as int, id);
        lemma_met(b.pending(tid as int, id), tid as int, id);
        if v.holds_semaphore(tid as int, id) {
            lemma_col_sum_bound(b.allocation, tid as int, id);
            lemma_release_wf(b, tid as int, id);
            let given = b.release(tid as int, id);
            if s.waiters.len() > 0 {
                let w = s.waiters[0];
                assert(b.wanted_by(w as int, id) >= 1);
                assert(given.wanted_by(w as int, id) == b.wanted_by(w as int, id));
                lemma_met(given, w as int, id);
            }
        }
    }
}

/// The rows of the books when a resource is placed. Books without a row
/// have exactly one row afterwards, all zeros and as wide as the columns
/// then are; otherwise the number of rows is as it was. Where a column is
/// appended, what is free grows by the new resource's units and every row
/// that was there is as it was with a zero appended. Where a column is used
/// again, it shows the new resource's units as free and a zero in every row,
/// and every other entry is as it was.
pub proof fn lemma_rows_when_placed(books: LedgerView, id: int, cap: nat)
    requires
        books.wf(),
        0 <= id <= books.resources(),
    ensures
        ({
            let p = place_resource(books, id, cap);
            &&& p.need.len() == p.allocation.len()
            &&& p.allocation.len() == if books.tasks() == 0 {
                1
            } else {
                books.tasks()
            }
            &&& books.tasks() == 0 ==> p.allocation == seq![zero_row(p.resources())] && p.need
                == seq![zero_row(p.resources())]
            &&& id == books.resources() ==> {
                &&& p.available == books.available.push(cap)
                &&& p.capacity == books.capacity.push(cap)
                &&& forall|t: int|
                    0 <= t < books.tasks() ==> #[trigger] p.allocation[t]
                        == books.allocation[t].push(0)
                &&& forall|t: int|
                    0 <= t < books.tasks() ==> #[trigger] p.need[t] == books.need[t].push(0)
            }
            &&& id < books.resources() ==> {
                &&& p.available == books.available.update(id, cap)
                &&& p.capacity == books.capacity.update(id, cap)
                &&& forall|t: int|
                    0 <= t < books.tasks() ==> #[trigger] p.allocation[t]
                        == books.allocation[t].update(id, 0)
                &&& forall|t: int|
                    0 <= t < books.tasks() ==> #[trigger] p.need[t] == books.need[t].update(id, 0)
            }
        }),
{
    let rows = books.with_task(0);
    let p = place_resource(books, id, cap);
    lemma_with_task_wf(books, 0);
    lemma_place_resource(books, id, cap);
    if books.tasks() == 0 {
        assert(p.allocation.len() == 1);
        assert(p.need.len() == 1);
        assert(p.allocation[0] =~= zero_row(p.resources()));
        assert(p.need[0] =~= zero_row(p.resources()));
        assert(p.allocation =~= seq![zero_row(p.resources())]);
        assert(p.need =~= seq![zero_row(p.resources())]);
    }
}

/// The rows of the books when a mutex or a semaphore is made: what
/// `lemma_rows_when_placed` says, of the mutex books with one unit and of
/// the semaphore books with the semaphore's count, and the books have one
/// column per slot afterwards.
pub proof fn lemma_rows_when_made(v: TableView, blocking: bool, count: nat, id: int)
    requires
        v.wf(),
    ensures
        first_free(v.mutexes, id) ==> {
            let a = v.after_mutex_create(blocking, id);
            &&& a.mutex_books == place_resource(v.mutex_books, id, 1)
            &&& a.mutex_books.resources() == a.mutexes.len()
            &&& a.mutex_books.tasks() == if v.mutex_books.tasks() == 0 {
                1
            } else {
                v.mutex_books.tasks()
            }
            &&& a.semaphore_books == v.semaphore_books
        },
        first_free(v.semaphores, id) ==> {
            let a = v.after_semaphore_create(count, id);
            &&& a.semaphore_books == place_resource(v.semaphore_books, id, count)
            &&& a.semaphore_books.resources() == a.semaphores.len()
            &&& a.semaphore_books.tasks() == if v.semaphore_books.tasks() == 0 {
                1
            } else {
                v.semaphore_books.tasks()
            }
            &&& a.mutex_books == v.mutex_books
        },
{
    if first_free(v.mutexes, id) {
        lemma_place_resource(v.mutex_books, id, 1);
    }
    if first_free(v.semaphores, id) {
        lemma_place_resource(v.semaphore_books, id, count);
    }
}

/// With the books in step, a granted mutex has exactly one holder: the task
/// whose request was granted holds it once, and no other task holds it.
pub proof fn lemma_granted_mutex_has_one_holder(v: TableView, tid: usize, id: int)
    requires
        v.wf(),
        v.in_step(),
        v.mutex_lock_result(tid, id) == Ok::<Acquire, SysError>(Acquire::Granted),
    ensures
        v.after_mutex_lock(tid, id).mutex_books.held_by(tid as int, id) == 1,
        forall|t: int|
            t != tid ==> #[trigger] v.after_mutex_lock(tid, id).mutex_books.held_by(t, id) == 0,
{
    let a = v.after_mutex_lock(tid, id);
    lemma_mutex_lock_wf(v, tid, id);
    lemma_grants_are_recorded(v, tid, id);
    lemma_mutual_exclusion(a, id, tid as int, tid as int);
    assert forall|t: int| t != tid implies #[trigger] a.mutex_books.held_by(t, id) == 0 by {
        if a.mutex_books.held_by(t, id) >= 1 {
            lemma_mutual_exclusion(a, id, t, tid as int);
        }
    }
}

/// The refusal is exact: a request for a mutex, or for a unit of a
/// semaphore, is refused exactly when the slot is occupied, detection is on,
/// the request is new, and over the books with the request entered no order
/// exists in which every task can finish.
pub proof fn lemma_refusal_is_exact(v: TableView, tid: usize, id: int)
    ensures
        v.mutex_lock_result(tid, id) == Err::<Acquire, SysError>(SysError::DeadlockRefused) <==> (
        v.has_mutex(id) && v.detect && v.mutex_books.fresh(tid as int, id) && !exists|
            order: Seq<int>,
        |
            is_finishing_order(
                v.mutex_books.pending(tid as int, id).available,
                v.mutex_books.pending(tid as int, id).allocation,
                v.mutex_books.pending(tid as int, id).need,
                order,
            )),
        v.semaphore_down_result(tid, id) == Err::<Acquire, SysError>(SysError::DeadlockRefused)
            <==> (v.has_semaphore(id) && v.detect && v.semaphore_books.fresh(tid as int, id)
            && !exists|order: Seq<int>|
            is_finishing_order(
                v.semaphore_books.pending(tid as int, id).available,
                v.semaphore_books.pending(tid as int, id).allocation,
                v.semaphore_books.pending(tid as int, id).need,
                order,
            )),
{
}

/// A refused request can be made again with the same outcome: it is refused
/// again, and the table is then as the first refusal left it.
pub proof fn lemma_refusal_repeats(v: TableView, tid: usize, id: int)
    requires
        v.wf(),
    ensures
        v.mutex_lock_result(tid, id) == Err::<Acquire, SysError>(SysError::DeadlockRefused) ==> {
            let a = v.after_mutex_lock(tid, id);
            &&& a.mutex_lock_result(tid, id) == Err::<Acquire, SysError>(
                SysError::DeadlockRefused,
            )
            &&& a.after_mutex_lock(tid, id) == a
        },
        v.semaphore_down_result(tid, id) == Err::<Acquire, SysError>(
            SysError::DeadlockRefused,
        ) ==> {
            let a = v.after_semaphore_down(tid, id);
            &&& a.semaphore_down_result(tid, id) == Err::<Acquire, SysError>(
                SysError::DeadlockRefused,
            )
            &&& a.after_semaphore_down(tid, id) == a
        },
{
    if v.mutex_lock_result(tid, id) == Err::<Acquire, SysError>(SysError::DeadlockRefused) {
        let b = v.mutex_books;
        let w = b.with_task(tid as nat);
        lemma_pending(b, tid as int, id);
        assert(w.with_task(tid as nat) == w);
        assert(w.wanted_by(tid as int, id) == b.wanted_by(tid as int, id));
        assert(w.pending(tid as int, id) == b.pending(tid as int, id));
    }
    if v.semaphore_down_result(tid, id) == Err::<Acquire, SysError>(SysError::DeadlockRefused) {
        let b = v.semaphore_books;
        let w = b.with_task(tid as nat);
        lemma_pending(b, tid as int, id);
        assert(w.with_task(tid as nat) == w);
        assert(w.wanted_by(tid as int, id) == b.wanted_by(tid as int, id));
        assert(w.pending(tid as int, id) == b.pending(tid as int, id));
    }
}

/// A wait frees the mutex. With the books in step, when a task that holds a
/// mutex for which nobody is queued begins to wait on a condition variable,
/// it joins the back of the queue of the condition variable, the mutex is
/// free, and the task holds it no longer; any request for the mutex that
/// the safety check does not refuse is then granted at once.
pub proof fn lemma_wait_frees_the_mutex(
    v: TableView,
    tid: usize,
    condvar: int,
    mutex: int,
    other: usize,
)
    requires
        v.wf(),
        v.in_step(),
        v.has_condvar(condvar),
        v.has_mutex(mutex),
        v.holds_mutex(tid as int, mutex),
        (v.mutexes[mutex]->0).state.waiters.len() == 0,
    ensures
        ({
            let a = v.after_condvar_wait(tid, condvar, mutex);
            &&& a.wf()
            &&& a.in_step()
            &&& a.condvars[condvar] == Some((v.condvars[condvar]->0).push(tid))
            &&& a.has_mutex(mutex)
            &&& !(a.mutexes[mutex]->0).state.locked
            &&& a.mutex_books.held_by(tid as int, mutex) == 0
            &&& a.mutex_books.available[mutex] == 1
            &&& !a.refuses(a.mutex_books, other, mutex) ==> a.mutex_lock_result(other, mutex)
                == Ok::<Acquire, SysError>(Acquire::Granted)
        }),
{
    lemma_condvar_wait_wf(v, tid, condvar, mutex);
    lemma_mutual_exclusion(v, mutex, tid as int, tid as int);
    lemma_grants_are_recorded(v, tid, mutex);
    assert(mutex_slot_ok(v.mutexes[mutex]->0, v.mutex_books, mutex));
    lemma_handed_on(v.mutex_books, tid, mutex, (v.mutexes[mutex]->0).state.waiters);
    lemma_held_mutex_is_locked(v, mutex, tid as int);
}

} // verus!
