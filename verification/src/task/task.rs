//! The control block of a task.
use vstd::prelude::*;

verus! {

/// Length of the per-task system call counter array (calls `0..512`).
pub const SYSCALL_ID_CNT: usize = 512;

/// Registers saved when switching away from a task.
#[derive(Copy, Clone)]
pub struct TaskContext {
    /// Return address.
    pub ra: usize,
    /// Kernel stack pointer.
    pub sp: usize,
    /// Callee-saved registers `s0..s11`.
    pub s: [usize; 12],
}

impl TaskContext {
    /// A context with every register zero.
    pub fn zero_init() -> (cx: Self)
        ensures
            cx.ra == 0,
            cx.sp == 0,
            forall|i: int| 0 <= i < 12 ==> #[trigger] cx.s@[i] == 0,
    {
        TaskContext { ra: 0, sp: 0, s: [0; 12] }
    }
}

/// The task control block (TCB) of a task.
#[derive(Copy, Clone)]
pub struct TaskControlBlock {
    /// The task status in its lifecycle.
    pub task_status: TaskStatus,
    /// The task context.
    pub task_cx: TaskContext,
    /// How many times the task made each system call.
    pub syscall_cnt: [isize; SYSCALL_ID_CNT],
}

/// The status of a task.
#[derive(Copy, Clone, Debug, PartialEq, Eq, Structural)]
pub enum TaskStatus {
    /// Uninitialized.
    UnInit,
    /// Ready to run.
    Ready,
    /// Running.
    Running,
    /// Exited.
    Exited,
}

} // verus!
