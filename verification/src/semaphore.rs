//! The counting semaphore: a number of free units and a queue of the tasks
//! that found none.

use crate::mutex::Acquire;
use std::collections::VecDeque;
use vstd::prelude::*;

verus! {

/// What a semaphore is, to its users: the units that are free, and who waits
/// for one, longest-waiting first.
pub struct SemaphoreState {
    pub count: nat,
    pub waiters: Seq<usize>,
}

impl SemaphoreState {
    /// A free unit is taken at once; with none free the caller joins the
    /// back of the queue.
    pub open spec fn down(self, tid: usize) -> SemaphoreState {
        if self.count > 0 {
            SemaphoreState { count: (self.count - 1) as nat, waiters: self.waiters }
        } else {
            SemaphoreState { count: self.count, waiters: self.waiters.push(tid) }
        }
    }

    /// The task that the next `up` wakes, if any.
    pub open spec fn next(self) -> Option<usize> {
        if self.waiters.len() > 0 {
            Some(self.waiters[0])
        } else {
            None
        }
    }

    /// With a waiter queued, the unit passes to the head of the queue and
    /// the count stays as it is; otherwise the count grows by one.
    pub open spec fn up(self) -> SemaphoreState {
        if self.waiters.len() > 0 {
            SemaphoreState { count: self.count, waiters: self.waiters.drop_first() }
        } else {
            SemaphoreState { count: self.count + 1, waiters: self.waiters }
        }
    }

    /// Nobody waits while a unit is free.
    pub open spec fn wf(self) -> bool {
        self.count > 0 ==> self.waiters.len() == 0
    }

    /// The state after each task in `arrivals` has called `down`, in that
    /// order.
    pub open spec fn down_each(self, arrivals: Seq<usize>) -> SemaphoreState
        decreases arrivals.len(),
    {
        if arrivals.len() == 0 {
            self
        } else {
            self.down_each(arrivals.drop_last()).down(arrivals.last())
        }
    }

    /// The tasks woken by `n` calls of `up` in a row, in the order in which
    /// they are woken.
    pub open spec fn wakes(self, n: nat) -> Seq<Option<usize>>
        decreases n,
    {
        if n == 0 {
            Seq::empty()
        } else {
            seq![self.next()] + self.up().wakes((n - 1) as nat)
        }
    }
}

/// Tasks that call `down` on a semaphore without free units are queued
/// behind those already waiting, in the order in which they call.
pub proof fn lemma_depleted_queues_in_arrival_order(s: SemaphoreState, arrivals: Seq<usize>)
    requires
        s.count == 0,
    ensures
        s.down_each(arrivals).count == 0,
        s.down_each(arrivals).waiters == s.waiters + arrivals,
    decreases arrivals.len(),
{
    if arrivals.len() == 0 {
        assert(s.waiters + arrivals =~= s.waiters);
    } else {
        lemma_depleted_queues_in_arrival_order(s, arrivals.drop_last());
        assert(s.waiters + arrivals =~= (s.waiters + arrivals.drop_last()).push(
            arrivals.last(),
        ));
    }
}

/// Calls of `up` wake the queued tasks from the head of the queue on.
pub proof fn lemma_up_wakes_from_head(s: SemaphoreState, n: nat)
    requires
        n <= s.waiters.len(),
    ensures
        s.wakes(n).len() == n,
        forall|k: int| 0 <= k < n ==> s.wakes(n)[k] == Some(s.waiters[k]),
    decreases n,
{
    if n > 0 {
        lemma_up_wakes_from_head(s.up(), (n - 1) as nat);
        assert forall|k: int| 0 <= k < n implies s.wakes(n)[k] == Some(s.waiters[k]) by {
            if k > 0 {
                assert(s.wakes(n)[k] == s.up().wakes((n - 1) as nat)[k - 1]);
                assert(s.up().waiters[k - 1] == s.waiters[k]);
            }
        }
    }
}

/// First come, first served: when tasks block on a depleted semaphore that
/// nobody waits for yet, as many calls of `up` wake exactly those tasks, in
/// the order in which they arrived.
pub proof fn lemma_semaphore_fifo_wake_order(s: SemaphoreState, arrivals: Seq<usize>)
    requires
        s.count == 0,
        s.waiters.len() == 0,
    ensures
        s.down_each(arrivals).wakes(arrivals.len()).len() == arrivals.len(),
        forall|k: int|
            0 <= k < arrivals.len() ==> s.down_each(arrivals).wakes(arrivals.len())[k] == Some(
                arrivals[k],
            ),
{
    lemma_depleted_queues_in_arrival_order(s, arrivals);
    assert(s.waiters + arrivals =~= arrivals);
    lemma_up_wakes_from_head(s.down_each(arrivals), arrivals.len());
}

/// A counting semaphore.
pub struct Semaphore {
    count: usize,
    wait_queue: VecDeque<usize>,
}

impl Semaphore {
    /// The state of the semaphore.
    pub closed spec fn view(&self) -> SemaphoreState {
        SemaphoreState { count: self.count as nat, waiters: self.wait_queue@ }
    }

    /// The count fits a machine word, and nobody waits while a unit is
    /// free.
    pub open spec fn wf(&self) -> bool {
        &&& self@.wf()
        &&& self@.count <= usize::MAX
    }

    /// A semaphore with `res_count` free units.
    pub fn new(res_count: usize) -> (s: Semaphore)
        ensures
            s.wf(),
            s@ == (SemaphoreState { count: res_count as nat, waiters: Seq::empty() }),
    {
        Semaphore { count: res_count, wait_queue: VecDeque::new() }
    }

    /// The number of free units.
    pub fn count(&self) -> (n: usize)
        ensures
            n == self@.count,
    {
        self.count
    }

    /// The number of queued tasks.
    pub fn num_waiters(&self) -> (n: usize)
        ensures
            n == self@.waiters.len(),
    {
        self.wait_queue.len()
    }

    /// Takes a unit for `tid` if one is free, and queues `tid` otherwise.
    pub fn down(&mut self, tid: usize) -> (r: Acquire)
        requires
            old(self).wf(),
        ensures
            final(self).wf(),
            final(self)@ == old(self)@.down(tid),
            r == if old(self)@.count > 0 { Acquire::Granted } else { Acquire::Blocked },
    {
        if self.count > 0 {
            self.count = self.count - 1;
            Acquire::Granted
        } else {
            self.wait_queue.push_back(tid);
            Acquire::Blocked
        }
    }

    /// Gives a unit back. The head of the queue, if there is one, is handed
    /// the unit and returned so that it can be woken.
    pub fn up(&mut self) -> (woken: Option<usize>)
        requires
            old(self).wf(),
            old(self)@.waiters.len() == 0 ==> old(self)@.count < usize::MAX,
        ensures
            final(self).wf(),
            final(self)@ == old(self)@.up(),
            woken == old(self)@.next(),
    {
        let woken = self.wait_queue.pop_front();
        if woken.is_none() {
            self.count = self.count + 1;
        }
        proof {
            assert(self@.waiters =~= old(self)@.up().waiters);
        }
        woken
    }
}

} // verus!
