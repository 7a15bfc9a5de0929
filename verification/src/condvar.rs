//! The condition variable: a queue of waiting tasks, of which a signal wakes
//! the longest-waiting one.

use crate::mutex::Mutex;
use std::collections::VecDeque;
use vstd::prelude::*;

verus! {

/// A condition variable. Its view is the queue of waiting tasks,
/// longest-waiting first.
pub struct Condvar {
    wait_queue: VecDeque<usize>,
}

impl Condvar {
    /// The queue of waiting tasks.
    pub closed spec fn view(&self) -> Seq<usize> {
        self.wait_queue@
    }

    /// A condition variable with nobody waiting.
    pub fn new() -> (c: Condvar)
        ensures
            c@ == Seq::<usize>::empty(),
    {
        Condvar { wait_queue: VecDeque::new() }
    }

    /// The number of queued tasks.
    pub fn num_waiters(&self) -> (n: usize)
        ensures
            n == self@.len(),
    {
        self.wait_queue.len()
    }

    /// Wakes the longest-waiting task, if any task waits. The mutex that the
    /// task gave up when it began to wait is not taken for it.
    pub fn signal(&mut self) -> (woken: Option<usize>)
        ensures
            old(self)@.len() == 0 ==> woken.is_none() && final(self)@ == old(self)@,
            old(self)@.len() > 0 ==> woken == Some(old(self)@[0]) && final(self)@ == old(
                self,
            )@.drop_first(),
    {
        let woken = self.wait_queue.pop_front();
        proof {
            if old(self)@.len() > 0 {
                assert(self@ =~= old(self)@.drop_first());
            }
        }
        woken
    }

    /// Queues `tid` behind the tasks that wait already.
    pub fn enqueue(&mut self, tid: usize)
        ensures
            final(self)@ == old(self)@.push(tid),
    {
        self.wait_queue.push_back(tid);
    }

    /// Releases `mutex` and queues `tid`, which must then be suspended.
    /// Returns the task to which the release handed the mutex, if any.
    pub fn wait(&mut self, tid: usize, mutex: &mut Mutex) -> (woken: Option<usize>)
        requires
            old(mutex).wf(),
        ensures
            final(self)@ == old(self)@.push(tid),
            final(mutex).wf(),
            final(mutex).blocking() == old(mutex).blocking(),
            final(mutex)@ == old(mutex)@.unlock(),
            woken == old(mutex)@.next(),
    {
        let woken = mutex.unlock();
        self.enqueue(tid);
        woken
    }
}

} // verus!
