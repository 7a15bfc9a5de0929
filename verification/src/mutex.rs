//! The two mutex strategies: one that is retried until it can be claimed,
//! and one that queues its waiters and hands the lock to the longest-waiting
//! one on release.

use std::collections::VecDeque;
use vstd::prelude::*;

verus! {

/// How a request for a lock or for a unit of a semaphore ended.
#[derive(Clone, Copy, Debug, PartialEq, Eq, Structural)]
pub enum Acquire {
    /// The caller holds what it asked for.
    Granted,
    /// The caller was queued and must be suspended until it is woken; when
    /// it is woken it holds what it asked for.
    Blocked,
    /// Nothing was claimed and nothing queued: the caller stays runnable and
    /// asks again.
    Busy,
}

/// What a mutex is, to its users: whether it is held, and who waits for it,
/// longest-waiting first.
pub struct MutexState {
    pub locked: bool,
    pub waiters: Seq<usize>,
}

impl MutexState {
    /// A free mutex is claimed at once; at a held one the caller joins the
    /// back of the queue.
    pub open spec fn lock(self, tid: usize) -> MutexState {
        if self.locked {
            MutexState { locked: true, waiters: self.waiters.push(tid) }
        } else {
            MutexState { locked: true, waiters: self.waiters }
        }
    }

    /// The task that the next release wakes, if any.
    pub open spec fn next(self) -> Option<usize> {
        if self.waiters.len() > 0 {
            Some(self.waiters[0])
        } else {
            None
        }
    }

    /// With a waiter queued, the lock passes to the head of the queue and
    /// stays held; otherwise it becomes free.
    pub open spec fn unlock(self) -> MutexState {
        if self.waiters.len() > 0 {
            MutexState { locked: true, waiters: self.waiters.drop_first() }
        } else {
            MutexState { locked: false, waiters: self.waiters }
        }
    }

    /// The state after each task in `arrivals` has asked for the lock, in
    /// that order.
    pub open spec fn lock_each(self, arrivals: Seq<usize>) -> MutexState
        decreases arrivals.len(),
    {
        if arrivals.len() == 0 {
            self
        } else {
            self.lock_each(arrivals.drop_last()).lock(arrivals.last())
        }
    }

    /// The tasks woken by `n` releases in a row, in the order in which they
    /// are woken.
    pub open spec fn wakes(self, n: nat) -> Seq<Option<usize>>
        decreases n,
    {
        if n == 0 {
            Seq::empty()
        } else {
            seq![self.next()] + self.unlock().wakes((n - 1) as nat)
        }
    }
}

/// Tasks that ask for a held mutex are queued behind those already waiting,
/// in the order in which they ask.
pub proof fn lemma_waiters_in_arrival_order(s: MutexState, arrivals: Seq<usize>)
    requires
        s.locked,
    ensures
        s.lock_each(arrivals).locked,
        s.lock_each(arrivals).waiters == s.waiters + arrivals,
    decreases arrivals.len(),
{
    if arrivals.len() == 0 {
        assert(s.waiters + arrivals =~= s.waiters);
    } else {
        lemma_waiters_in_arrival_order(s, arrivals.drop_last());
        assert(s.waiters + arrivals =~= (s.waiters + arrivals.drop_last()).push(
            arrivals.last(),
        ));
    }
}

/// Releases wake the queued tasks from the head of the queue on.
pub proof fn lemma_wakes_from_head(s: MutexState, n: nat)
    requires
        n <= s.waiters.len(),
    ensures
        s.wakes(n).len() == n,
        forall|k: int| 0 <= k < n ==> s.wakes(n)[k] == Some(s.waiters[k]),
    decreases n,
{
    if n > 0 {
        lemma_wakes_from_head(s.unlock(), (n - 1) as nat);
        assert forall|k: int| 0 <= k < n implies s.wakes(n)[k] == Some(s.waiters[k]) by {
            if k > 0 {
                assert(s.wakes(n)[k] == s.unlock().wakes((n - 1) as nat)[k - 1]);
                assert(s.unlock().waiters[k - 1] == s.waiters[k]);
            }
        }
    }
}

/// First come, first served: when tasks block on a held mutex that nobody
/// waits for yet, as many releases wake exactly those tasks, in the order in
/// which they arrived.
pub proof fn lemma_fifo_wake_order(s: MutexState, arrivals: Seq<usize>)
    requires
        s.locked,
        s.waiters.len() == 0,
    ensures
        s.lock_each(arrivals).wakes(arrivals.len()).len() == arrivals.len(),
        forall|k: int|
            0 <= k < arrivals.len() ==> s.lock_each(arrivals).wakes(arrivals.len())[k] == Some(
                arrivals[k],
            ),
{
    lemma_waiters_in_arrival_order(s, arrivals);
    assert(s.waiters + arrivals =~= arrivals);
    lemma_wakes_from_head(s.lock_each(arrivals), arrivals.len());
}

/// A mutex that is claimed by retrying: a request at a held lock changes
/// nothing and is made again later.
pub struct MutexSpin {
    locked: bool,
}

impl MutexSpin {
    /// The state of the mutex; nobody is ever queued.
    pub closed spec fn view(&self) -> MutexState {
        MutexState { locked: self.locked, waiters: Seq::empty() }
    }

    /// A free mutex.
    pub fn new() -> (m: MutexSpin)
        ensures
            m@ == (MutexState { locked: false, waiters: Seq::empty() }),
    {
        MutexSpin { locked: false }
    }

    /// Whether the mutex is held.
    pub fn is_locked(&self) -> (b: bool)
        ensures
            b == self@.locked,
    {
        self.locked
    }

    /// One attempt to claim the lock.
    pub fn lock(&mut self) -> (r: Acquire)
        ensures
            final(self)@ == (MutexState { locked: true, waiters: Seq::empty() }),
            r == if old(self)@.locked { Acquire::Busy } else { Acquire::Granted },
    {
        if self.locked {
            Acquire::Busy
        } else {
            self.locked = true;
            Acquire::Granted
        }
    }

    /// Frees the mutex.
    pub fn unlock(&mut self)
        ensures
            final(self)@ == (MutexState { locked: false, waiters: Seq::empty() }),
    {
        self.locked = false;
    }
}

/// A mutex that queues the tasks that find it held.
pub struct MutexBlocking {
    locked: bool,
    wait_queue: VecDeque<usize>,
}

impl MutexBlocking {
    /// The state of the mutex.
    pub closed spec fn view(&self) -> MutexState {
        MutexState { locked: self.locked, waiters: self.wait_queue@ }
    }

    /// A free mutex with nobody waiting.
    pub fn new() -> (m: MutexBlocking)
        ensures
            m@ == (MutexState { locked: false, waiters: Seq::empty() }),
    {
        MutexBlocking { locked: false, wait_queue: VecDeque::new() }
    }

    /// Whether the mutex is held.
    pub fn is_locked(&self) -> (b: bool)
        ensures
            b == self@.locked,
    {
        self.locked
    }

    /// The number of queued tasks.
    pub fn num_waiters(&self) -> (n: usize)
        ensures
            n == self@.waiters.len(),
    {
        self.wait_queue.len()
    }

    /// Claims the lock for `tid` if it is free, and queues `tid` otherwise.
    pub fn lock(&mut self, tid: usize) -> (r: Acquire)
        ensures
            final(self)@ == old(self)@.lock(tid),
            r == if old(self)@.locked { Acquire::Blocked } else { Acquire::Granted },
    {
        if self.locked {
            self.wait_queue.push_back(tid);
            Acquire::Blocked
        } else {
            self.locked = true;
            Acquire::Granted
        }
    }

    /// Releases the lock. The head of the queue, if there is one, is handed
    /// the lock and returned so that it can be woken.
    pub fn unlock(&mut self) -> (woken: Option<usize>)
        ensures
            final(self)@ == old(self)@.unlock(),
            woken == old(self)@.next(),
    {
        let woken = self.wait_queue.pop_front();
        self.locked = woken.is_some();
        proof {
            assert(self@.waiters =~= old(self)@.unlock().waiters);
        }
        woken
    }
}

/// A mutex of either strategy, chosen when it is made.
pub enum Mutex {
    Spin(MutexSpin),
    Blocking(MutexBlocking),
}

impl Mutex {
    /// The state of the mutex.
    pub open spec fn view(&self) -> MutexState {
        match self {
            Mutex::Spin(m) => m@,
            Mutex::Blocking(m) => m@,
        }
    }

    /// Whether waiters are queued rather than left to retry.
    pub open spec fn blocking(&self) -> bool {
        self is Blocking
    }

    /// A spin mutex never has a queue.
    pub open spec fn wf(&self) -> bool {
        !self.blocking() ==> self@.waiters.len() == 0
    }

    /// A free mutex of the blocking strategy, or of the spinning one.
    pub fn new(blocking: bool) -> (m: Mutex)
        ensures
            m.wf(),
            m.blocking() == blocking,
            m@ == (MutexState { locked: false, waiters: Seq::empty() }),
    {
        if blocking {
            Mutex::Blocking(MutexBlocking::new())
        } else {
            Mutex::Spin(MutexSpin::new())
        }
    }

    /// Whether waiters are queued rather than left to retry.
    pub fn is_blocking(&self) -> (b: bool)
        ensures
            b == self.blocking(),
    {
        match self {
            Mutex::Spin(_) => false,
            Mutex::Blocking(_) => true,
        }
    }

    /// Whether the mutex is held.
    pub fn is_locked(&self) -> (b: bool)
        ensures
            b == self@.locked,
    {
        match self {
            Mutex::Spin(m) => m.is_locked(),
            Mutex::Blocking(m) => m.is_locked(),
        }
    }

    /// The number of queued tasks.
    pub fn num_waiters(&self) -> (n: usize)
        requires
            self.wf(),
        ensures
            n == self@.waiters.len(),
    {
        match self {
            Mutex::Spin(_) => 0,
            Mutex::Blocking(m) => m.num_waiters(),
        }
    }

    /// Asks for the lock on behalf of `tid`.
    pub fn lock(&mut self, tid: usize) -> (r: Acquire)
        requires
            old(self).wf(),
        ensures
            final(self).wf(),
            final(self).blocking() == old(self).blocking(),
            old(self).blocking() ==> final(self)@ == old(self)@.lock(tid),
            !old(self).blocking() ==> final(self)@ == (MutexState {
                locked: true,
                waiters: Seq::empty(),
            }),
            r == if !old(self)@.locked {
                Acquire::Granted
            } else if old(self).blocking() {
                Acquire::Blocked
            } else {
                Acquire::Busy
            },
    {
        match self {
            Mutex::Spin(m) => m.lock(),
            Mutex::Blocking(m) => m.lock(tid),
        }
    }

    /// Releases the lock and returns the task that now holds it and is to be
    /// woken, if any.
    pub fn unlock(&mut self) -> (woken: Option<usize>)
        requires
            old(self).wf(),
        ensures
            final(self).wf(),
            final(self).blocking() == old(self).blocking(),
            final(self)@ == old(self)@.unlock(),
            woken == old(self)@.next(),
    {
        match self {
            Mutex::Spin(m) => {
                m.unlock();
                None
            },
            Mutex::Blocking(m) => m.unlock(),
        }
    }
}

} // verus!
