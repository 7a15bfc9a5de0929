//! The synchronization and resource-safety core of a small kernel, as a
//! verified state machine.
//!
//! A process owns a resource table with slots for mutexes, semaphores and
//! condition variables, and books of what is free, held and asked for. Each
//! request of a task is one step on the table; what the scheduler has to do
//! afterwards (suspend the caller, wake a task) is in the step's result.
//! Before a request for a mutex or a unit of a semaphore is admitted, the
//! Banker's safety check can be put to the books, so that a request that
//! would close a circle of waiting tasks is refused.
//!
//! - `matrix`: a growable table of counts, and column sums
//! - `detect`: the safety check, and what it means for a state to be safe
//! - `ledger`: the books of one kind of resource
//! - `mutex`, `semaphore`, `condvar`: the primitives
//! - `table`: the resource table as values, its steps and its laws
//! - `syscall`: the requests themselves
//! - `error`: failures and result codes

pub mod condvar;
pub mod detect;
pub mod error;
pub mod ledger;
pub mod matrix;
pub mod mutex;
pub mod semaphore;
pub mod syscall;
pub mod table;
