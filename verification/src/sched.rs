//! Stride scheduler: the ready set, with proportional-share selection.
//!
//! Each runnable task accumulates a stride; the task with the least
//! accumulated stride runs next, and its stride then grows by its pass
//! (a large constant divided by the task's priority).  Selection is a full
//! scan of the ready set, accepted because the set stays small.

use vstd::prelude::*;

verus! {

/// Numerator of every pass value: a task of priority `p` advances by
/// `BIG_STRIDE / p` each time it is dispatched.
pub const BIG_STRIDE: u64 = 0x10_0000;

/// A runnable task as the ready set sees it: its identity, its accumulated
/// stride, and the pass added at each dispatch.
#[derive(Clone, Copy, PartialEq, Eq, Structural)]
pub struct SchedEntry {
    pub tid: usize,
    pub stride: u64,
    pub pass: u64,
}

/// The ready set of the stride scheduler.
pub struct TaskManager {
    pub ready_queue: Vec<SchedEntry>,
}

/// Index `i` is the scheduler's choice in `q`: it carries the least stride,
/// and no earlier index ties with it (ties resolve to the lowest index, so
/// selection is deterministic).
pub open spec fn is_min_choice(q: Seq<SchedEntry>, i: int) -> bool {
    &&& 0 <= i < q.len()
    &&& forall|j: int| 0 <= j < q.len() ==> q[i].stride <= #[trigger] q[j].stride
    &&& forall|j: int| 0 <= j < i ==> q[i].stride < #[trigger] q[j].stride
}

impl TaskManager {
    /// Every queued entry can take one more pass without its stride
    /// overflowing, and every pass is positive.
    pub open spec fn wf(&self) -> bool {
        forall|j: int| 0 <= j < self.ready_queue@.len()
            ==> (#[trigger] self.ready_queue@[j]).pass >= 1
                && self.ready_queue@[j].stride + self.ready_queue@[j].pass <= u64::MAX
    }

    /// Create an empty ready set.
    pub fn new() -> (m: TaskManager)
        ensures
            m.wf(),
            m.ready_queue@ == Seq::<SchedEntry>::empty(),
    {
        TaskManager { ready_queue: Vec::new() }
    }

    /// Append a runnable task to the ready set.
    pub fn add(&mut self, task: SchedEntry)
        requires
            old(self).wf(),
            task.pass >= 1,
            task.stride + task.pass <= u64::MAX,
        ensures
            final(self).wf(),
            final(self).ready_queue@ == old(self).ready_queue@.push(task),
    {
        self.ready_queue.push(task);
    }

    /// Remove and return the ready task with the least stride, its stride
    /// already advanced by its pass.  Ties resolve to the earliest entry;
    /// the entries left behind keep their relative order.  Returns `None`
    /// when no task is ready.
    pub fn fetch(&mut self) -> (r: Option<SchedEntry>)
        requires
            old(self).wf(),
        ensures
            final(self).wf(),
            match r {
                None => old(self).ready_queue@.len() == 0
                    && final(self).ready_queue@ == old(self).ready_queue@,
                Some(e) => ({
                    let q = old(self).ready_queue@;
                    exists|i: int|
                        #[trigger] is_min_choice(q, i)
                        && e.tid == q[i].tid
                        && e.pass == q[i].pass
                        && e.stride == q[i].stride + q[i].pass
                        && final(self).ready_queue@ == q.remove(i)
                }),
            },
    {
        let n = self.ready_queue.len();
        if n == 0 {
            return None;
        }
        let mut min_idx: usize = 0;
        let mut min_stride: u64 = self.ready_queue[0].stride;
        let mut idx: usize = 1;
        while idx < n
            invariant
                1 <= idx <= n,
                n == self.ready_queue@.len(),
                min_idx < idx,
                min_stride == self.ready_queue@[min_idx as int].stride,
                forall|j: int| 0 <= j < idx
                    ==> min_stride <= #[trigger] self.ready_queue@[j].stride,
                forall|j: int| 0 <= j < min_idx
                    ==> min_stride < #[trigger] self.ready_queue@[j].stride,
            decreases n - idx,
        {
            if self.ready_queue[idx].stride < min_stride {
                min_idx = idx;
                min_stride = self.ready_queue[idx].stride;
            }
            idx = idx + 1;
        }
        let ghost q = self.ready_queue@;
        assert(is_min_choice(q, min_idx as int));
        let mut e = self.ready_queue.remove(min_idx);
        e.stride = e.stride + e.pass;
        Some(e)
    }
}

} // verus!
