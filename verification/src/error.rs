//! The ways in which a request to the synchronization subsystem fails.

use vstd::prelude::*;

verus! {

/// A failed request. Every failure is reported to the caller as a negative
/// result code; none is fatal.
#[derive(Clone, Copy, Debug, PartialEq, Eq, Structural)]
pub enum SysError {
    /// The safety check found no order in which every task could finish, so
    /// the request was refused.
    DeadlockRefused,
    /// The identifier names no slot, or an empty one.
    InvalidHandle,
    /// The argument is not one of the values that the call accepts.
    InvalidArgument,
}

/// The result code of a request that succeeded.
pub const SUCCESS: isize = 0;

/// The result code of a request that the safety check refused.
pub const DEADLOCK: isize = -0xDEAD;

/// The result code of every other failure.
pub const FAILURE: isize = -1;

impl SysError {
    /// The result code by which the failure is reported.
    pub open spec fn spec_code(self) -> isize {
        match self {
            SysError::DeadlockRefused => DEADLOCK,
            SysError::InvalidHandle => FAILURE,
            SysError::InvalidArgument => FAILURE,
        }
    }

    /// The result code by which the failure is reported.
    pub fn code(&self) -> (c: isize)
        ensures
            c == self.spec_code(),
            c < 0,
    {
        match self {
            SysError::DeadlockRefused => DEADLOCK,
            SysError::InvalidHandle => FAILURE,
            SysError::InvalidArgument => FAILURE,
        }
    }
}

/// The result code of a finished request: zero on success, the failure's
/// code otherwise.
pub fn result_code<T>(result: &Result<T, SysError>) -> (c: isize)
    ensures
        result is Ok ==> c == SUCCESS,
        result matches Err(e) ==> c == e.spec_code(),
{
    match result {
        Ok(_) => SUCCESS,
        Err(e) => e.code(),
    }
}

} // verus!
