//! Types related to task management.
use vstd::prelude::*;

verus! {

/// Registers a task switch saves: return address, stack pointer and the
/// callee-saved s0 to s11.
#[derive(Copy, Clone, Debug)]
pub struct TaskContext {
    pub ra: usize,
    pub sp: usize,
    pub s: [usize; 12],
}

impl TaskContext {
    /// A context with every register zero.
    pub fn zero_init() -> (r: Self)
        ensures
            r.ra == 0,
            r.sp == 0,
            forall|i: int| 0 <= i < 12 ==> r.s@[i] == 0,
    {
        TaskContext { ra: 0, sp: 0, s: [0; 12] }
    }
}

/// The task control block (TCB) of a task.
#[derive(Copy, Clone)]
pub struct TaskControlBlock {
    /// The task status in its lifecycle
    pub task_status: TaskStatus,
    /// The task context
    pub task_cx: TaskContext,
    /// Counts of the syscalls the task made
    pub sys_num: TaskSyscall,
    /// Address byte
    pub sys_addr: u8,
}

/// The status of a task
#[derive(Copy, Clone, Debug, PartialEq, Eq, Structural)]
pub enum TaskStatus {
    /// uninitialized
    UnInit,
    /// ready to run
    Ready,
    /// running
    Running,
    /// exited, waiting for its parent to collect its exit code
    Exited,
}

/// Counts of the syscalls a task made, one field per syscall.
#[derive(Copy, Clone)]
pub struct TaskSyscall {
    pub sysgettime: isize,
    pub systrace: isize,
    pub syswrite: isize,
    pub sysyield: isize,
    pub sysexit: isize,
}

} // verus!
