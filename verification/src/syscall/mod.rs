//! The requests that tasks make of the kernel.

pub mod process;
pub mod sync;
