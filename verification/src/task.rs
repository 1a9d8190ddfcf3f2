//! Thread control blocks.

use vstd::prelude::*;

verus! {

/// Number of distinct syscall ids whose invocations are counted per
/// thread.
pub const MAX_SYSCALL_NUM: usize = 500;

/// The status of a task in its lifecycle.
#[derive(Clone, Copy, PartialEq, Eq, Structural, Debug)]
pub enum TaskStatus {
    /// uninitialized
    UnInit,
    /// ready to run
    Ready,
    /// running
    Running,
    /// parked on a primitive or a timer
    Blocked,
    /// exited
    Exited,
}

/// The execution context handed to the external scheduler when the
/// thread is switched in.  The model keeps the one register this
/// subsystem writes: the value the pending syscall returns to user
/// space (`fork` zeroes it in the child).
#[derive(Clone, Copy, PartialEq, Eq, Structural, Debug)]
pub struct TaskContext {
    pub syscall_ret: isize,
}

/// The task control block (TCB) of a task.
pub struct TaskControlBlock {
    /// The task status in its lifecycle
    pub task_status: TaskStatus,
    /// The task context
    pub task_cx: TaskContext,
    /// Syscall counts, one slot per syscall id
    pub syscall_times: Vec<u32>,
    /// Absolute wake-up time while sleeping, in milliseconds
    pub timer: usize,
}

/// A well-formed TCB carries one counter slot per syscall id.
pub open spec fn tcb_wf(t: TaskControlBlock) -> bool {
    t.syscall_times@.len() == MAX_SYSCALL_NUM
}

impl TaskControlBlock {
    /// A freshly created thread: ready to run, pending return value 0,
    /// zeroed counters.
    pub fn new_ready() -> (r: TaskControlBlock)
        ensures
            tcb_wf(r),
            r.task_status == TaskStatus::Ready,
            r.task_cx.syscall_ret == 0,
            r.timer == 0,
            forall|i: int| 0 <= i < r.syscall_times@.len() ==> r.syscall_times@[i] == 0,
    {
        TaskControlBlock {
            task_status: TaskStatus::Ready,
            task_cx: TaskContext { syscall_ret: 0 },
            syscall_times: vec![0u32; MAX_SYSCALL_NUM],
            timer: 0,
        }
    }
}

} // verus!
