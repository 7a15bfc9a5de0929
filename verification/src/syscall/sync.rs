//! The synchronization requests of a process: making mutexes, semaphores
//! and condition variables, asking for and giving back what they guard, and
//! switching deadlock detection on and off.
//!
//! Every request is one step on the process's resource table. Where a step
//! ends with the caller queued, or with another task handed what it waited
//! for, the result says so, and suspending and waking is left to the
//! scheduler.

use crate::condvar::Condvar;
use crate::error::SysError;
use crate::ledger::{lemma_pending, lemma_request_wf, Ledger};
use crate::mutex::{Acquire, Mutex};
use crate::semaphore::{Semaphore, SemaphoreState};
use crate::table::{
    first_free, lemma_condvar_wait_wf, lemma_mutex_create_wf, lemma_mutex_lock_wf,
    lemma_mutex_unlock_wf, lemma_semaphore_create_wf, lemma_semaphore_down_wf,
    lemma_semaphore_up_wf, mutex_slot_ok, semaphore_slot_ok, MutexSlot, TableView,
};
use vstd::prelude::*;

verus! {

/// The resource table of one process: its slots of mutexes, semaphores and
/// condition variables, the books kept for the mutexes and the semaphores,
/// and the switch for deadlock detection.
pub struct ResourceTable {
    mutex_list: Vec<Option<Mutex>>,
    semaphore_list: Vec<Option<Semaphore>>,
    condvar_list: Vec<Option<Condvar>>,
    mutexes: Ledger,
    semaphores: Ledger,
    deadlock_detect: bool,
}

/// What a mutex slot holds, as values.
pub open spec fn mutex_slot(slot: Option<Mutex>) -> Option<MutexSlot> {
    match slot {
        Some(m) => Some(MutexSlot { blocking: m.blocking(), state: m@ }),
        None => None,
    }
}

/// What a semaphore slot holds, as values.
pub open spec fn semaphore_slot(slot: Option<Semaphore>) -> Option<SemaphoreState> {
    match slot {
        Some(s) => Some(s@),
        None => None,
    }
}

/// What a slot of a condition variable holds, as values.
pub open spec fn condvar_slot(slot: Option<Condvar>) -> Option<Seq<usize>> {
    match slot {
        Some(c) => Some(c@),
        None => None,
    }
}

/// Every entry of `s` is zero.
pub open spec fn all_zero(s: Seq<nat>) -> bool {
    forall|i: int| 0 <= i < s.len() ==> s[i] == 0
}

/// Enters on `books` that task `t`'s outstanding request for a unit of
/// resource `id` has been met.
fn meet(books: &mut Ledger, t: usize, id: usize)
    requires
        old(books).wf(),
        id < old(books)@.resources(),
        old(books)@.wanted_by(t as int, id as int) >= 1,
    ensures
        final(books).wf(),
        final(books)@ == old(books)@.met(t as int, id as int),
{
    if books.available(id) >= 1 {
        books.record_alloc(t, id);
    } else {
        books.record_need_delta(t, id, false);
    }
}

/// Enters on `books` that task `tid` has given back a unit of resource `id`
/// and that the unit has passed to `woken`, if a task was woken.
fn hand_on(books: &mut Ledger, tid: usize, id: usize, woken: Option<usize>)
    requires
        old(books).wf(),
        id < old(books)@.resources(),
        woken matches Some(w) ==> old(books)@.wanted_by(w as int, id as int) >= 1,
    ensures
        final(books).wf(),
        final(books)@ == old(books)@.handed_on(tid as int, id as int, woken),
{
    if books.allocation(tid, id) >= 1 {
        books.record_release(tid, id);
    }
    match woken {
        Some(w) => {
            meet(books, w, id);
        },
        None => {},
    }
}

/// The lowest empty slot, or the number of slots where none is empty.
fn first_empty<T>(slots: &Vec<Option<T>>) -> (id: usize)
    ensures
        first_free(slots@, id as int),
{
    let mut i: usize = 0;
    while i < slots.len()
        invariant
            i <= slots@.len(),
            forall|j: int| 0 <= j < i ==> (#[trigger] slots@[j]) is Some,
        decreases slots.len() - i,
    {
        if slots[i].is_none() {
            return i;
        }
        i += 1;
    }
    i
}

impl ResourceTable {
    /// The table as values.
    pub closed spec fn view(&self) -> TableView {
        TableView {
            mutexes: Seq::new(self.mutex_list@.len(), |i: int| mutex_slot(self.mutex_list@[i])),
            semaphores: Seq::new(
                self.semaphore_list@.len(),
                |i: int| semaphore_slot(self.semaphore_list@[i]),
            ),
            condvars: Seq::new(
                self.condvar_list@.len(),
                |i: int| condvar_slot(self.condvar_list@[i]),
            ),
            mutex_books: self.mutexes@,
            semaphore_books: self.semaphores@,
            detect: self.deadlock_detect,
        }
    }

    /// The parts of the table are each in order.
    pub closed spec fn shaped(&self) -> bool {
        &&& self.mutexes.wf()
        &&& self.semaphores.wf()
        &&& forall|i: int|
            0 <= i < self.mutex_list@.len() && (#[trigger] self.mutex_list@[i]) is Some ==> (
            self.mutex_list@[i]->0).wf()
        &&& forall|i: int|
            0 <= i < self.semaphore_list@.len() && (#[trigger] self.semaphore_list@[i]) is Some
                ==> (self.semaphore_list@[i]->0).wf()
    }

    /// The table is in order: its parts are, the books balance, and every
    /// slot is in order with its column of the books.
    pub open spec fn wf(&self) -> bool {
        &&& self.shaped()
        &&& self@.wf()
    }

    /// The table of a process that has made nothing yet: no slots, books
    /// without resources or tasks, and detection off.
    pub fn new() -> (table: ResourceTable)
        ensures
            table.wf(),
            table@.in_step(),
            table@ == TableView::empty(),
    {
        let table = ResourceTable {
            mutex_list: Vec::new(),
            semaphore_list: Vec::new(),
            condvar_list: Vec::new(),
            mutexes: Ledger::new(),
            semaphores: Ledger::new(),
            deadlock_detect: false,
        };
        proof {
            assert(table@.mutexes =~= Seq::<Option<MutexSlot>>::empty());
            assert(table@.semaphores =~= Seq::<Option<SemaphoreState>>::empty());
            assert(table@.condvars =~= Seq::<Option<Seq<usize>>>::empty());
        }
        table
    }

    /// A table with the given numbers of slots, all of them empty, and with
    /// detection off.
    pub fn with_slots(mutexes: usize, semaphores: usize, condvars: usize) -> (table:
        ResourceTable)
        ensures
            table.wf(),
            table@.in_step(),
            table@.mutexes == Seq::new(mutexes as nat, |i: int| None::<MutexSlot>),
            table@.semaphores == Seq::new(semaphores as nat, |i: int| None::<SemaphoreState>),
            table@.condvars == Seq::new(condvars as nat, |i: int| None::<Seq<usize>>),
            table@.mutex_books.tasks() == 0,
            table@.semaphore_books.tasks() == 0,
            all_zero(table@.mutex_books.capacity),
            all_zero(table@.mutex_books.available),
            all_zero(table@.semaphore_books.capacity),
            all_zero(table@.semaphore_books.available),
            !table@.detect,
    {
        let mut table = ResourceTable::new();
        proof {
            assert(table@.mutexes.len() == table.mutex_list@.len());
            assert(table@.semaphores.len() == table.semaphore_list@.len());
            assert(table@.condvars.len() == table.condvar_list@.len());
        }
        let mut i: usize = 0;
        while i < mutexes
            invariant
                i <= mutexes,
                table.mutexes.wf(),
                table.mutexes@.resources() == i,
                table.mutexes@.tasks() == 0,
                all_zero(table.mutexes@.capacity),
                all_zero(table.mutexes@.available),
                table.mutex_list@.len() == i,
                forall|j: int| 0 <= j < i ==> (#[trigger] table.mutex_list@[j]) is None,
                table.semaphores.wf(),
                table.semaphores@.resources() == 0,
                table.semaphores@.tasks() == 0,
                table.semaphore_list@.len() == 0,
                table.condvar_list@.len() == 0,
                !table.deadlock_detect,
            decreases mutexes - i,
        {
            table.mutex_list.push(None);
            table.mutexes.add_resource(0);
            i += 1;
        }
        let mut i: usize = 0;
        while i < semaphores
            invariant
                i <= semaphores,
                table.mutexes.wf(),
                table.mutexes@.resources() == mutexes,
                table.mutexes@.tasks() == 0,
                all_zero(table.mutexes@.capacity),
                all_zero(table.mutexes@.available),
                table.mutex_list@.len() == mutexes,
                forall|j: int| 0 <= j < mutexes ==> (#[trigger] table.mutex_list@[j]) is None,
                table.semaphores.wf(),
                table.semaphores@.resources() == i,
                table.semaphores@.tasks() == 0,
                all_zero(table.semaphores@.capacity),
                all_zero(table.semaphores@.available),
                table.semaphore_list@.len() == i,
                forall|j: int| 0 <= j < i ==> (#[trigger] table.semaphore_list@[j]) is None,
                table.condvar_list@.len() == 0,
                !table.deadlock_detect,
            decreases semaphores - i,
        {
            table.semaphore_list.push(None);
            table.semaphores.add_resource(0);
            i += 1;
        }
        let mut i: usize = 0;
        while i < condvars
            invariant
                i <= condvars,
                table.mutexes.wf(),
                table.mutexes@.resources() == mutexes,
                table.mutexes@.tasks() == 0,
                all_zero(table.mutexes@.capacity),
                all_zero(table.mutexes@.available),
                table.mutex_list@.len() == mutexes,
                forall|j: int| 0 <= j < mutexes ==> (#[trigger] table.mutex_list@[j]) is None,
                table.semaphores.wf(),
                table.semaphores@.resources() == semaphores,
                table.semaphores@.tasks() == 0,
                all_zero(table.semaphores@.capacity),
                all_zero(table.semaphores@.available),
                table.semaphore_list@.len() == semaphores,
                forall|j: int|
                    0 <= j < semaphores ==> (#[trigger] table.semaphore_list@[j]) is None,
                table.condvar_list@.len() == i,
                forall|j: int| 0 <= j < i ==> (#[trigger] table.condvar_list@[j]) is None,
                !table.deadlock_detect,
            decreases condvars - i,
        {
            table.condvar_list.push(None);
            i += 1;
        }
        proof {
            assert(table@.mutexes =~= Seq::new(mutexes as nat, |i: int| None::<MutexSlot>));
            assert(table@.semaphores =~= Seq::new(
                semaphores as nat,
                |i: int| None::<SemaphoreState>,
            ));
            assert(table@.condvars =~= Seq::new(condvars as nat, |i: int| None::<Seq<usize>>));
        }
        table
    }

    /// Whether requests are put to the safety check.
    pub fn deadlock_detect(&self) -> (on: bool)
        ensures
            on == self@.detect,
    {
        self.deadlock_detect
    }

    /// The mutex in slot `id`.
    pub fn lookup_mutex(&self, id: usize) -> (r: Result<&Mutex, SysError>)
        ensures
            self@.has_mutex(id as int) ==> r is Ok && mutex_slot(Some(*r->Ok_0))
                == self@.mutexes[id as int],
            !self@.has_mutex(id as int) ==> r is Err && r->Err_0 == SysError::InvalidHandle,
    {
        if id >= self.mutex_list.len() {
            return Err(SysError::InvalidHandle);
        }
        match &self.mutex_list[id] {
            Some(m) => Ok(m),
            None => Err(SysError::InvalidHandle),
        }
    }

    /// The semaphore in slot `id`.
    pub fn lookup_semaphore(&self, id: usize) -> (r: Result<&Semaphore, SysError>)
        ensures
            self@.has_semaphore(id as int) ==> r is Ok && Some(r->Ok_0@)
                == self@.semaphores[id as int],
            !self@.has_semaphore(id as int) ==> r is Err && r->Err_0 == SysError::InvalidHandle,
    {
        if id >= self.semaphore_list.len() {
            return Err(SysError::InvalidHandle);
        }
        match &self.semaphore_list[id] {
            Some(s) => Ok(s),
            None => Err(SysError::InvalidHandle),
        }
    }

    /// The condition variable in slot `id`.
    pub fn lookup_condvar(&self, id: usize) -> (r: Result<&Condvar, SysError>)
        ensures
            self@.has_condvar(id as int) ==> r is Ok && Some(r->Ok_0@) == self@.condvars[id as int],
            !self@.has_condvar(id as int) ==> r is Err && r->Err_0 == SysError::InvalidHandle,
    {
        if id >= self.condvar_list.len() {
            return Err(SysError::InvalidHandle);
        }
        match &self.condvar_list[id] {
            Some(c) => Ok(c),
            None => Err(SysError::InvalidHandle),
        }
    }

    /// The books kept for the mutexes.
    pub fn mutex_books(&self) -> (books: &Ledger)
        ensures
            books@ == self@.mutex_books,
            self.wf() ==> books.wf(),
    {
        &self.mutexes
    }

    /// The books kept for the semaphores.
    pub fn semaphore_books(&self) -> (books: &Ledger)
        ensures
            books@ == self@.semaphore_books,
            self.wf() ==> books.wf(),
    {
        &self.semaphores
    }
}

/// Makes a mutex, blocking or spinning, in the lowest empty slot, or in a
/// new slot where none is empty, and returns the slot's number. The slot's
/// column of the books starts afresh with one free unit. Books that have no
/// row yet get their first row, of zeros.
pub fn sys_mutex_create(table: &mut ResourceTable, blocking: bool) -> (id: usize)
    requires
        old(table).wf(),
    ensures
        final(table).wf(),
        first_free(old(table)@.mutexes, id as int),
        final(table)@ == old(table)@.after_mutex_create(blocking, id as int),
        old(table)@.in_step() ==> final(table)@.in_step(),
{
    let id: usize = first_empty(&table.mutex_list);
    let mutex = Some(Mutex::new(blocking));
    if table.mutexes.num_tasks() == 0 {
        table.mutexes.ensure_task(0);
    }
    if id < table.mutex_list.len() {
        table.mutex_list[id] = mutex;
        table.mutexes.reset_resource(id, 1);
    } else {
        table.mutex_list.push(mutex);
        assert(table.mutex_list@.len() == table.mutex_list.len());
        table.mutexes.add_resource(1);
    }
    proof {
        let v = old(table)@;
        let a = v.after_mutex_create(blocking, id as int);
        assert(first_free(v.mutexes, id as int));
        lemma_mutex_create_wf(v, blocking, id as int);
        assert(table@.mutexes =~= a.mutexes);
        assert(table@.semaphores =~= a.semaphores);
        assert(table@.condvars =~= a.condvars);
    }
    id
}

/// Asks for mutex `mutex_id` on behalf of task `tid`.
///
/// With detection on, a new request is first entered on the books and put
/// to the safety check; where no order exists in which every task can
/// finish, the request is taken off the books again and refused. Otherwise
/// a free mutex is granted at once; at a held one the task is queued
/// (blocking mutex) or told to ask again (spin mutex), and its request stays
/// on the books. A task that asks again while its request is outstanding is
/// neither checked nor queued a second time.
pub fn sys_mutex_lock(table: &mut ResourceTable, tid: usize, mutex_id: usize) -> (r: Result<
    Acquire,
    SysError,
>)
    requires
        old(table).wf(),
        tid < usize::MAX,
    ensures
        final(table).wf(),
        r == old(table)@.mutex_lock_result(tid, mutex_id as int),
        final(table)@ == old(table)@.after_mutex_lock(tid, mutex_id as int),
        old(table)@.in_step() ==> final(table)@.in_step(),
{
    if mutex_id >= table.mutex_list.len() {
        return Err(SysError::InvalidHandle);
    }
    if table.mutex_list[mutex_id].is_none() {
        return Err(SysError::InvalidHandle);
    }
    proof {
        lemma_pending(table@.mutex_books, tid as int, mutex_id as int);
        lemma_mutex_lock_wf(table@, tid, mutex_id as int);
    }
    let fresh = table.mutexes.need(tid, mutex_id) == 0;
    table.mutexes.ensure_task(tid);
    if fresh {
        table.mutexes.record_need_delta(tid, mutex_id, true);
        if table.deadlock_detect && !table.mutexes.is_safe() {
            table.mutexes.record_need_delta(tid, mutex_id, false);
            proof {
                lemma_request_wf(
                    old(table)@.mutex_books.with_task(tid as nat),
                    tid as int,
                    mutex_id as int,
                );
                assert(table@.mutexes =~= old(table)@.mutexes);
                assert(table@.semaphores =~= old(table)@.semaphores);
                assert(table@.condvars =~= old(table)@.condvars);
            }
            return Err(SysError::DeadlockRefused);
        }
    }
    let ghost slots = table.mutex_list@;
    let r = match &mut table.mutex_list[mutex_id] {
        Some(m) => {
            if !m.is_locked() || fresh {
                m.lock(tid)
            } else if m.is_blocking() {
                Acquire::Blocked
            } else {
                Acquire::Busy
            }
        },
        None => Acquire::Busy,
    };
    if r == Acquire::Granted {
        meet(&mut table.mutexes, tid, mutex_id);
    }
    proof {
        let v = old(table)@;
        let a = v.after_mutex_lock(tid, mutex_id as int);
        let m0 = v.mutexes[mutex_id as int]->0;
        assert(slots == old(table).mutex_list@);
        assert(table.mutex_list@.len() == slots.len());
        assert(forall|i: int|
            0 <= i < slots.len() && i != mutex_id ==> table.mutex_list@[i] == slots[i]);
        assert(mutex_slot_ok(m0, v.mutex_books, mutex_id as int));
        if !m0.blocking {
            assert(m0.state.waiters =~= Seq::<usize>::empty());
        }
        assert(table@.mutexes[mutex_id as int] == a.mutexes[mutex_id as int]);
        assert(table@.mutexes =~= a.mutexes);
        assert(table@.semaphores =~= a.semaphores);
        assert(table@.condvars =~= a.condvars);
    }
    Ok(r)
}

/// Releases mutex `mutex_id` on behalf of task `tid`. With a task queued,
/// the mutex passes straight to the longest-waiting one, whose request
/// thereby is met, and that task is returned so that it can be woken;
/// otherwise the mutex becomes free. On the books the unit that the task
/// holds returns to the free units; of a task that holds none the books
/// record no release.
pub fn sys_mutex_unlock(table: &mut ResourceTable, tid: usize, mutex_id: usize) -> (r: Result<
    Option<usize>,
    SysError,
>)
    requires
        old(table).wf(),
    ensures
        final(table).wf(),
        r == old(table)@.mutex_unlock_result(mutex_id as int),
        final(table)@ == old(table)@.after_mutex_unlock(tid, mutex_id as int),
        old(table)@.in_step() && old(table)@.holds_mutex(tid as int, mutex_id as int)
            ==> final(table)@.in_step(),
{
    if mutex_id >= table.mutex_list.len() {
        return Err(SysError::InvalidHandle);
    }
    if table.mutex_list[mutex_id].is_none() {
        return Err(SysError::InvalidHandle);
    }
    proof {
        let v = table@;
        let m0 = v.mutexes[mutex_id as int]->0;
        assert(mutex_slot_ok(m0, v.mutex_books, mutex_id as int));
        lemma_mutex_unlock_wf(v, tid, mutex_id as int);
    }
    let ghost slots = table.mutex_list@;
    let woken = match &mut table.mutex_list[mutex_id] {
        Some(m) => m.unlock(),
        None => None,
    };
    hand_on(&mut table.mutexes, tid, mutex_id, woken);
    proof {
        let v = old(table)@;
        let a = v.after_mutex_unlock(tid, mutex_id as int);
        assert(table.mutex_list@.len() == slots.len());
        assert(forall|i: int|
            0 <= i < slots.len() && i != mutex_id ==> table.mutex_list@[i] == slots[i]);
        assert(table@.mutexes[mutex_id as int] == a.mutexes[mutex_id as int]);
        assert(table@.mutexes =~= a.mutexes);
        assert(table@.semaphores =~= a.semaphores);
        assert(table@.condvars =~= a.condvars);
    }
    Ok(woken)
}

/// Makes a semaphore with `res_count` units in the lowest empty slot, or
/// in a new slot where none is empty, and returns the slot's number. The
/// slot's column of the books starts afresh with all units free. Books that
/// have no row yet get their first row, of zeros.
pub fn sys_semaphore_create(table: &mut ResourceTable, res_count: usize) -> (id: usize)
    requires
        old(table).wf(),
    ensures
        final(table).wf(),
        first_free(old(table)@.semaphores, id as int),
        final(table)@ == old(table)@.after_semaphore_create(res_count as nat, id as int),
        old(table)@.in_step() ==> final(table)@.in_step(),
{
    let id: usize = first_empty(&table.semaphore_list);
    let semaphore = Some(Semaphore::new(res_count));
    if table.semaphores.num_tasks() == 0 {
        table.semaphores.ensure_task(0);
    }
    if id < table.semaphore_list.len() {
        table.semaphore_list[id] = semaphore;
        table.semaphores.reset_resource(id, res_count);
    } else {
        table.semaphore_list.push(semaphore);
        assert(table.semaphore_list@.len() == table.semaphore_list.len());
        table.semaphores.add_resource(res_count);
    }
    proof {
        let v = old(table)@;
        let a = v.after_semaphore_create(res_count as nat, id as int);
        assert(first_free(v.semaphores, id as int));
        lemma_semaphore_create_wf(v, res_count as nat, id as int);
        assert(table@.mutexes =~= a.mutexes);
        assert(table@.semaphores =~= a.semaphores);
        assert(table@.condvars =~= a.condvars);
    }
    id
}

/// Gives a unit of semaphore `sem_id` back on behalf of task `tid`. With a
/// task queued, the unit passes straight to the longest-waiting one, whose
/// request thereby is met, and that task is returned so that it can be
/// woken; otherwise the count grows by one. On the books a unit that the
/// task holds returns to the free units; of a task that holds none the
/// books record no release.
pub fn sys_semaphore_up(table: &mut ResourceTable, tid: usize, sem_id: usize) -> (r: Result<
    Option<usize>,
    SysError,
>)
    requires
        old(table).wf(),
        old(table)@.has_semaphore(sem_id as int) ==> (
        old(table)@.semaphores[sem_id as int]->0).count < usize::MAX,
    ensures
        final(table).wf(),
        r == old(table)@.semaphore_up_result(sem_id as int),
        final(table)@ == old(table)@.after_semaphore_up(tid, sem_id as int),
        old(table)@.in_step() && old(table)@.holds_semaphore(tid as int, sem_id as int)
            ==> final(table)@.in_step(),
{
    if sem_id >= table.semaphore_list.len() {
        return Err(SysError::InvalidHandle);
    }
    if table.semaphore_list[sem_id].is_none() {
        return Err(SysError::InvalidHandle);
    }
    proof {
        let v = table@;
        let s0 = v.semaphores[sem_id as int]->0;
        assert(semaphore_slot_ok(s0, v.semaphore_books, sem_id as int));
        lemma_semaphore_up_wf(v, tid, sem_id as int);
    }
    let ghost slots = table.semaphore_list@;
    let woken = match &mut table.semaphore_list[sem_id] {
        Some(s) => s.up(),
        None => None,
    };
    hand_on(&mut table.semaphores, tid, sem_id, woken);
    proof {
        let v = old(table)@;
        let a = v.after_semaphore_up(tid, sem_id as int);
        assert(table.semaphore_list@.len() == slots.len());
        assert(forall|i: int|
            0 <= i < slots.len() && i != sem_id ==> table.semaphore_list@[i] == slots[i]);
        assert(table@.semaphores[sem_id as int] == a.semaphores[sem_id as int]);
        assert(table@.mutexes =~= a.mutexes);
        assert(table@.semaphores =~= a.semaphores);
        assert(table@.condvars =~= a.condvars);
    }
    Ok(woken)
}

/// Asks for a unit of semaphore `sem_id` on behalf of task `tid`.
///
/// With detection on, a new request is first entered on the books and put
/// to the safety check; where no order exists in which every task can
/// finish, the request is taken off the books again and refused. Otherwise
/// a free unit is granted at once; with none free the task is queued and
/// its request stays on the books. A task that asks again while its request
/// is outstanding is neither checked nor queued a second time.
pub fn sys_semaphore_down(table: &mut ResourceTable, tid: usize, sem_id: usize) -> (r: Result<
    Acquire,
    SysError,
>)
    requires
        old(table).wf(),
        tid < usize::MAX,
    ensures
        final(table).wf(),
        r == old(table)@.semaphore_down_result(tid, sem_id as int),
        final(table)@ == old(table)@.after_semaphore_down(tid, sem_id as int),
        old(table)@.in_step() ==> final(table)@.in_step(),
{
    if sem_id >= table.semaphore_list.len() {
        return Err(SysError::InvalidHandle);
    }
    if table.semaphore_list[sem_id].is_none() {
        return Err(SysError::InvalidHandle);
    }
    proof {
        lemma_pending(table@.semaphore_books, tid as int, sem_id as int);
        lemma_semaphore_down_wf(table@, tid, sem_id as int);
    }
    let fresh = table.semaphores.need(tid, sem_id) == 0;
    table.semaphores.ensure_task(tid);
    if fresh {
        table.semaphores.record_need_delta(tid, sem_id, true);
        if table.deadlock_detect && !table.semaphores.is_safe() {
            table.semaphores.record_need_delta(tid, sem_id, false);
            proof {
                lemma_request_wf(
                    old(table)@.semaphore_books.with_task(tid as nat),
                    tid as int,
                    sem_id as int,
                );
                assert(table@.mutexes =~= old(table)@.mutexes);
                assert(table@.semaphores =~= old(table)@.semaphores);
                assert(table@.condvars =~= old(table)@.condvars);
            }
            return Err(SysError::DeadlockRefused);
        }
    }
    let ghost slots = table.semaphore_list@;
    let r = match &mut table.semaphore_list[sem_id] {
        Some(s) => {
            if s.count() > 0 || fresh {
                s.down(tid)
            } else {
                Acquire::Blocked
            }
        },
        None => Acquire::Blocked,
    };
    if r == Acquire::Granted {
        meet(&mut table.semaphores, tid, sem_id);
    }
    proof {
        let v = old(table)@;
        let a = v.after_semaphore_down(tid, sem_id as int);
        let s0 = v.semaphores[sem_id as int]->0;
        assert(table.semaphore_list@.len() == slots.len());
        assert(forall|i: int|
            0 <= i < slots.len() && i != sem_id ==> table.semaphore_list@[i] == slots[i]);
        assert(semaphore_slot_ok(s0, v.semaphore_books, sem_id as int));
        assert(table@.semaphores[sem_id as int] == a.semaphores[sem_id as int]);
        assert(table@.mutexes =~= a.mutexes);
        assert(table@.semaphores =~= a.semaphores);
        assert(table@.condvars =~= a.condvars);
    }
    Ok(r)
}

/// Makes a condition variable in the lowest empty slot, or in a new slot
/// where none is empty, and returns the slot's number.
pub fn sys_condvar_create(table: &mut ResourceTable) -> (id: usize)
    requires
        old(table).wf(),
    ensures
        final(table).wf(),
        first_free(old(table)@.condvars, id as int),
        final(table)@ == old(table)@.after_condvar_create(id as int),
        old(table)@.in_step() ==> final(table)@.in_step(),
{
    let id: usize = first_empty(&table.condvar_list);
    let condvar = Some(Condvar::new());
    if id < table.condvar_list.len() {
        table.condvar_list[id] = condvar;
    } else {
        table.condvar_list.push(condvar);
    }
    proof {
        let a = old(table)@.after_condvar_create(id as int);
        assert(table@.mutexes =~= a.mutexes);
        assert(table@.semaphores =~= a.semaphores);
        assert(table@.condvars =~= a.condvars);
    }
    id
}

/// Signals condition variable `condvar_id`: the longest-waiting task, if any
/// task waits, leaves the queue and is returned so that it can be woken. The
/// mutex that it gave up is not taken for it: it asks for it again itself.
pub fn sys_condvar_signal(table: &mut ResourceTable, condvar_id: usize) -> (r: Result<
    Option<usize>,
    SysError,
>)
    requires
        old(table).wf(),
    ensures
        final(table).wf(),
        r == old(table)@.condvar_signal_result(condvar_id as int),
        final(table)@ == old(table)@.after_condvar_signal(condvar_id as int),
        old(table)@.in_step() ==> final(table)@.in_step(),
{
    if condvar_id >= table.condvar_list.len() {
        return Err(SysError::InvalidHandle);
    }
    if table.condvar_list[condvar_id].is_none() {
        return Err(SysError::InvalidHandle);
    }
    let ghost slots = table.condvar_list@;
    let woken = match &mut table.condvar_list[condvar_id] {
        Some(c) => c.signal(),
        None => None,
    };
    proof {
        let a = old(table)@.after_condvar_signal(condvar_id as int);
        assert(table.condvar_list@.len() == slots.len());
        assert(forall|i: int|
            0 <= i < slots.len() && i != condvar_id ==> table.condvar_list@[i] == slots[i]);
        assert(table@.mutexes =~= a.mutexes);
        assert(table@.semaphores =~= a.semaphores);
        assert(table@.condvars =~= a.condvars);
    }
    Ok(woken)
}

/// Begins a wait of task `tid` on condition variable `condvar_id`: the task
/// releases mutex `mutex_id` as by `sys_mutex_unlock` and joins the queue of
/// the condition variable. The caller is then suspended; once signalled it
/// ends the wait by `sys_condvar_resume`. Returns the task to which the
/// release handed the mutex, if any.
pub fn sys_condvar_wait(
    table: &mut ResourceTable,
    tid: usize,
    condvar_id: usize,
    mutex_id: usize,
) -> (r: Result<Option<usize>, SysError>)
    requires
        old(table).wf(),
    ensures
        final(table).wf(),
        r == old(table)@.condvar_wait_result(condvar_id as int, mutex_id as int),
        final(table)@ == old(table)@.after_condvar_wait(tid, condvar_id as int, mutex_id as int),
        old(table)@.in_step() && old(table)@.holds_mutex(tid as int, mutex_id as int)
            ==> final(table)@.in_step(),
{
    if condvar_id >= table.condvar_list.len() || mutex_id >= table.mutex_list.len() {
        return Err(SysError::InvalidHandle);
    }
    if table.condvar_list[condvar_id].is_none() || table.mutex_list[mutex_id].is_none() {
        return Err(SysError::InvalidHandle);
    }
    proof {
        let v = table@;
        let m0 = v.mutexes[mutex_id as int]->0;
        assert(mutex_slot_ok(m0, v.mutex_books, mutex_id as int));
        lemma_condvar_wait_wf(v, tid, condvar_id as int, mutex_id as int);
    }
    let ghost mutex_slots = table.mutex_list@;
    let ghost condvar_slots = table.condvar_list@;
    let woken = match (&mut table.condvar_list[condvar_id], &mut table.mutex_list[mutex_id]) {
        (Some(c), Some(m)) => c.wait(tid, m),
        _ => None,
    };
    hand_on(&mut table.mutexes, tid, mutex_id, woken);
    proof {
        let v = old(table)@;
        let a = v.after_condvar_wait(tid, condvar_id as int, mutex_id as int);
        assert(table.mutex_list@.len() == mutex_slots.len());
        assert(table.condvar_list@.len() == condvar_slots.len());
        assert(forall|i: int|
            0 <= i < mutex_slots.len() && i != mutex_id ==> table.mutex_list@[i]
                == mutex_slots[i]);
        assert(forall|i: int|
            0 <= i < condvar_slots.len() && i != condvar_id ==> table.condvar_list@[i]
                == condvar_slots[i]);
        assert(table@.mutexes[mutex_id as int] == a.mutexes[mutex_id as int]);
        assert(table@.condvars[condvar_id as int] == a.condvars[condvar_id as int]);
        assert(table@.mutexes =~= a.mutexes);
        assert(table@.semaphores =~= a.semaphores);
        assert(table@.condvars =~= a.condvars);
    }
    Ok(woken)
}

/// Ends a wait of task `tid`: the task, woken by a signal, asks for mutex
/// `mutex_id` again as by `sys_mutex_lock`, except that the request is not
/// put to the safety check, so that it is never refused.
pub fn sys_condvar_resume(table: &mut ResourceTable, tid: usize, mutex_id: usize) -> (r: Result<
    Acquire,
    SysError,
>)
    requires
        old(table).wf(),
        tid < usize::MAX,
    ensures
        final(table).wf(),
        r == old(table)@.with_detect(false).mutex_lock_result(tid, mutex_id as int),
        final(table)@ == old(table)@.with_detect(false).after_mutex_lock(
            tid,
            mutex_id as int,
        ).with_detect(old(table)@.detect),
        r is Err ==> r->Err_0 == SysError::InvalidHandle,
        old(table)@.in_step() ==> final(table)@.in_step(),
{
    let detect = table.deadlock_detect;
    table.deadlock_detect = false;
    let r = sys_mutex_lock(table, tid, mutex_id);
    table.deadlock_detect = detect;
    r
}

/// Switches deadlock detection off (`0`) or on (`1`). Any other value is
/// rejected and changes nothing.
pub fn sys_enable_deadlock_detect(table: &mut ResourceTable, enabled: usize) -> (r: Result<
    (),
    SysError,
>)
    requires
        old(table).wf(),
    ensures
        final(table).wf(),
        enabled == 0 ==> r == Ok::<(), SysError>(()) && final(table)@ == old(table)@.with_detect(
            false,
        ),
        enabled == 1 ==> r == Ok::<(), SysError>(()) && final(table)@ == old(table)@.with_detect(
            true,
        ),
        enabled > 1 ==> r == Err::<(), SysError>(SysError::InvalidArgument) && final(table)@
            == old(table)@,
{
    if enabled == 0 {
        table.deadlock_detect = false;
        Ok(())
    } else if enabled == 1 {
        table.deadlock_detect = true;
        Ok(())
    } else {
        Err(SysError::InvalidArgument)
    }
}

/// The time at which a task that goes to sleep at `now_ms` for `ms`
/// milliseconds is to be woken. The caller sets a timer for that time and is
/// suspended.
pub fn sys_sleep(now_ms: usize, ms: usize) -> (expire_ms: usize)
    requires
        now_ms + ms <= usize::MAX,
    ensures
        expire_ms == now_ms + ms,
{
    now_ms + ms
}

} // verus!
