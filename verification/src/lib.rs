//! Kernel-side logic of a small teaching operating system: deadlock
//! avoidance with the banker's algorithm, a stride scheduler, the root
//! directory's hard-link bookkeeping, and the decision parts of the
//! file and process system calls.
use vstd::prelude::*;

pub mod deadlock;
pub mod fs;
pub mod mm;
pub mod syscall;
pub mod task;

verus! {
} // verus!
