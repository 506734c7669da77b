//! The shared task model: lifecycle status, stride accounting, per-syscall
//! counters, and the plain values that the time and info queries return.

use vstd::prelude::*;

verus! {

/// How many syscall ids the per-task invocation counters cover.
pub const MAX_SYSCALL_NUM: usize = 500;

/// Lifecycle of a task.  A task never leaves `Exited`.
#[derive(Clone, Copy, PartialEq, Eq, Debug, Structural)]
pub enum TaskStatus {
    Ready,
    Running,
    Blocked,
    Exited,
}

/// One task: its lifecycle status, its stride accounting, and the
/// millisecond timestamp of its first dispatch (meaningful once
/// `dispatched` is set).
#[derive(Clone, Copy, PartialEq, Eq, Structural)]
pub struct Task {
    pub status: TaskStatus,
    pub stride: u64,
    pub pass: u64,
    pub first_time: usize,
    pub dispatched: bool,
}

/// Seconds and microseconds, as `sys_get_time` reports them.
#[derive(Clone, Copy, PartialEq, Eq, Debug, Structural)]
pub struct TimeVal {
    pub sec: usize,
    pub usec: usize,
}

/// What `sys_task_info` reports of the current task.
pub struct TaskInfo {
    pub status: TaskStatus,
    pub syscall_times: Vec<u32>,
    pub time: usize,
}

/// Split a microsecond reading of the monotonic clock into seconds and
/// microseconds.  The cross-boundary copy into a user buffer is the
/// translation collaborator's job; the caller hands the reading in and
/// writes the result out.
pub fn sys_get_time(now_us: usize) -> (r: (TimeVal, isize))
    ensures
        r.0.sec == now_us / 1_000_000,
        r.0.usec == now_us % 1_000_000,
        r.1 == 0,
{
    (TimeVal { sec: now_us / 1_000_000, usec: now_us % 1_000_000 }, 0)
}

} // verus!
