//! The resource governor and the process-wide state it guards: the task
//! table, the ready set, the three resource-slot tables (locks, counting
//! semaphores, condition variables), one deadlock detector per governed
//! pool, and the avoidance toggle.
//!
//! Every syscall here is a single state transition on an explicit [`Kernel`]
//! value.  The out-of-scope parts of the kernel (context switching, timers,
//! user-memory copies) drive these transitions: a task that suspends is
//! marked `Blocked` here, and the driver loop later calls [`dispatch`] to
//! pick the next task and the wake paths to make blocked tasks ready again.
//!
//! Blocking acquisitions go through the Banker's check first: an unsafe
//! request fails fast with [`DEADLOCK_CODE`] and changes nothing beyond the
//! recorded need.  A suspending acquire commits its allocation when the
//! resource is handed over, mirroring the resumed task's own commit.

use vstd::prelude::*;

use crate::detector::DeadlockDetector;
use crate::detector::with_alloc;
use crate::detector::with_need;
use crate::detector::with_unalloc;
use crate::sched::BIG_STRIDE;
use crate::sched::SchedEntry;
use crate::sched::TaskManager;
use crate::sched::is_min_choice;
use crate::task::MAX_SYSCALL_NUM;
use crate::task::Task;
use crate::task::TaskInfo;
use crate::task::TaskStatus;

verus! {

/// The distinguished code for a request rejected by deadlock avoidance
/// (decimal -57005): the caller may retry, nothing was granted.
pub const DEADLOCK_CODE: isize = -0xDEAD;

/// A lock slot: spinning or blocking, and whether it is held.  In this
/// single-core model a spinning acquirer waits in the same queue as a
/// blocking one: with one core, spinning until the holder releases is
/// observationally waiting.
#[derive(Clone, Copy, PartialEq, Eq, Structural)]
pub struct MutexSlot {
    pub blocking: bool,
    pub locked: bool,
}

/// A counting semaphore slot; a negative count means tasks are waiting.
#[derive(Clone, Copy, PartialEq, Eq, Structural)]
pub struct SemSlot {
    pub count: i64,
}

/// A task waiting for a lock.  `governed` records whether the wait came
/// through `sys_mutex_lock` (whose commit updates the detector on handover)
/// or through a condition variable's re-acquire (opaque to the detector).
#[derive(Clone, Copy, PartialEq, Eq, Structural)]
pub struct MutexWaiter {
    pub tid: usize,
    pub mutex_id: usize,
    pub governed: bool,
}

/// A task waiting on a semaphore.
#[derive(Clone, Copy, PartialEq, Eq, Structural)]
pub struct SemWaiter {
    pub tid: usize,
    pub sem_id: usize,
}

/// A task waiting on a condition variable; on wake it re-acquires
/// `mutex_id`.
#[derive(Clone, Copy, PartialEq, Eq, Structural)]
pub struct CondWaiter {
    pub tid: usize,
    pub condvar_id: usize,
    pub mutex_id: usize,
}

/// The process-governance state.
pub struct Kernel {
    pub tasks: Vec<Task>,
    pub syscall_counts: Vec<Vec<u32>>,
    pub current: usize,
    pub scheduler: TaskManager,
    pub mutexes: Vec<Option<MutexSlot>>,
    pub mutex_waiters: Vec<MutexWaiter>,
    pub semaphores: Vec<Option<SemSlot>>,
    pub sem_waiters: Vec<SemWaiter>,
    pub condvars: Vec<bool>,
    pub cond_waiters: Vec<CondWaiter>,
    pub mutex_detector: DeadlockDetector,
    pub semaphore_detector: DeadlockDetector,
    pub deadlock_detect: bool,
}

/// Task table, current task, ready set and syscall counters agree.
pub open spec fn same_core(a: &Kernel, b: &Kernel) -> bool {
    &&& a.tasks@ == b.tasks@
    &&& a.syscall_counts@ == b.syscall_counts@
    &&& a.current == b.current
    &&& a.scheduler.ready_queue@ == b.scheduler.ready_queue@
}

pub open spec fn same_mutex_state(a: &Kernel, b: &Kernel) -> bool {
    &&& a.mutexes@ == b.mutexes@
    &&& a.mutex_waiters@ == b.mutex_waiters@
    &&& a.mutex_detector@ == b.mutex_detector@
}

pub open spec fn same_sem_state(a: &Kernel, b: &Kernel) -> bool {
    &&& a.semaphores@ == b.semaphores@
    &&& a.sem_waiters@ == b.sem_waiters@
    &&& a.semaphore_detector@ == b.semaphore_detector@
}

pub open spec fn same_cond_state(a: &Kernel, b: &Kernel) -> bool {
    &&& a.condvars@ == b.condvars@
    &&& a.cond_waiters@ == b.cond_waiters@
}

pub open spec fn kernel_unchanged(a: &Kernel, b: &Kernel) -> bool {
    &&& same_core(a, b)
    &&& same_mutex_state(a, b)
    &&& same_sem_state(a, b)
    &&& same_cond_state(a, b)
    &&& a.deadlock_detect == b.deadlock_detect
}

/// Index `i` holds the front waiter for lock `id`.
pub open spec fn is_first_mutex_waiter(ws: Seq<MutexWaiter>, id: int, i: int) -> bool {
    &&& 0 <= i < ws.len()
    &&& ws[i].mutex_id == id
    &&& forall|j: int| 0 <= j < i ==> (#[trigger] ws[j]).mutex_id != id
}

pub open spec fn has_mutex_waiter(ws: Seq<MutexWaiter>, id: int) -> bool {
    exists|i: int| #[trigger] is_first_mutex_waiter(ws, id, i)
}

pub open spec fn first_mutex_waiter(ws: Seq<MutexWaiter>, id: int) -> int {
    choose|i: int| is_first_mutex_waiter(ws, id, i)
}

/// Index `i` holds the front waiter for semaphore `id`.
pub open spec fn is_first_sem_waiter(ws: Seq<SemWaiter>, id: int, i: int) -> bool {
    &&& 0 <= i < ws.len()
    &&& ws[i].sem_id == id
    &&& forall|j: int| 0 <= j < i ==> (#[trigger] ws[j]).sem_id != id
}

pub open spec fn has_sem_waiter(ws: Seq<SemWaiter>, id: int) -> bool {
    exists|i: int| #[trigger] is_first_sem_waiter(ws, id, i)
}

pub open spec fn first_sem_waiter(ws: Seq<SemWaiter>, id: int) -> int {
    choose|i: int| is_first_sem_waiter(ws, id, i)
}

/// Index `i` holds the front waiter for condition variable `id`.
pub open spec fn is_first_cond_waiter(ws: Seq<CondWaiter>, id: int, i: int) -> bool {
    &&& 0 <= i < ws.len()
    &&& ws[i].condvar_id == id
    &&& forall|j: int| 0 <= j < i ==> (#[trigger] ws[j]).condvar_id != id
}

pub open spec fn has_cond_waiter(ws: Seq<CondWaiter>, id: int) -> bool {
    exists|i: int| #[trigger] is_first_cond_waiter(ws, id, i)
}

pub open spec fn first_cond_waiter(ws: Seq<CondWaiter>, id: int) -> int {
    choose|i: int| is_first_cond_waiter(ws, id, i)
}

/// Index `i` is the lowest empty slot.
pub open spec fn is_lowest_none<T>(s: Seq<Option<T>>, i: int) -> bool {
    &&& 0 <= i < s.len()
    &&& s[i] is None
    &&& forall|j: int| 0 <= j < i ==> (#[trigger] s[j]) is Some
}

pub open spec fn has_none_slot<T>(s: Seq<Option<T>>) -> bool {
    exists|i: int| #[trigger] is_lowest_none(s, i)
}

pub open spec fn lowest_none<T>(s: Seq<Option<T>>) -> int {
    choose|i: int| is_lowest_none(s, i)
}

/// Index `i` is the lowest free condition-variable slot.
pub open spec fn is_lowest_false(s: Seq<bool>, i: int) -> bool {
    &&& 0 <= i < s.len()
    &&& !s[i]
    &&& forall|j: int| 0 <= j < i ==> #[trigger] s[j]
}

pub open spec fn has_false_slot(s: Seq<bool>) -> bool {
    exists|i: int| #[trigger] is_lowest_false(s, i)
}

pub open spec fn lowest_false(s: Seq<bool>) -> int {
    choose|i: int| is_lowest_false(s, i)
}

impl Kernel {
    /// Structural soundness of the whole state: indices in range, detector
    /// dimensions synchronized with the slot tables and the task table,
    /// stride accounting ready for one more pass on every runnable or
    /// blocked task, and every waiter entry pointing at a live slot.
    pub open spec fn wf(&self) -> bool {
        &&& 1 <= self.tasks@.len()
        &&& self.current < self.tasks@.len()
        &&& self.syscall_counts@.len() == self.tasks@.len()
        &&& forall|t: int| 0 <= t < self.tasks@.len()
            ==> (#[trigger] self.syscall_counts@[t])@.len() == MAX_SYSCALL_NUM
        &&& self.scheduler.wf()
        &&& forall|i: int| 0 <= i < self.scheduler.ready_queue@.len()
            ==> (#[trigger] self.scheduler.ready_queue@[i]).tid < self.tasks@.len()
                && self.tasks@[self.scheduler.ready_queue@[i].tid as int].status
                == TaskStatus::Ready
        &&& forall|i: int, j: int|
            0 <= i < self.scheduler.ready_queue@.len() && 0 <= j
                < self.scheduler.ready_queue@.len() && i != j
                ==> (#[trigger] self.scheduler.ready_queue@[i]).tid
                    != (#[trigger] self.scheduler.ready_queue@[j]).tid
        &&& forall|t: int| 0 <= t < self.tasks@.len()
            ==> 1 <= (#[trigger] self.tasks@[t]).pass <= BIG_STRIDE
        &&& forall|t: int| 0 <= t < self.tasks@.len()
            ==> (((#[trigger] self.tasks@[t]).status == TaskStatus::Ready
                || self.tasks@[t].status == TaskStatus::Blocked)
                ==> self.tasks@[t].stride + self.tasks@[t].pass <= u64::MAX)
        &&& self.mutex_detector.wf()
        &&& self.mutex_detector@.n_tasks() == self.tasks@.len()
        &&& self.mutex_detector@.n_resources() == self.mutexes@.len()
        &&& self.semaphore_detector.wf()
        &&& self.semaphore_detector@.n_tasks() == self.tasks@.len()
        &&& self.semaphore_detector@.n_resources() == self.semaphores@.len()
        &&& forall|i: int| 0 <= i < self.mutex_waiters@.len()
            ==> (#[trigger] self.mutex_waiters@[i]).tid < self.tasks@.len()
                && self.mutex_waiters@[i].mutex_id < self.mutexes@.len()
                && self.mutexes@[self.mutex_waiters@[i].mutex_id as int] is Some
                && self.tasks@[self.mutex_waiters@[i].tid as int].status == TaskStatus::Blocked
        &&& forall|i: int| 0 <= i < self.sem_waiters@.len()
            ==> (#[trigger] self.sem_waiters@[i]).tid < self.tasks@.len()
                && self.sem_waiters@[i].sem_id < self.semaphores@.len()
                && self.semaphores@[self.sem_waiters@[i].sem_id as int] is Some
                && self.tasks@[self.sem_waiters@[i].tid as int].status == TaskStatus::Blocked
        &&& forall|i: int| 0 <= i < self.cond_waiters@.len()
            ==> (#[trigger] self.cond_waiters@[i]).tid < self.tasks@.len()
                && self.cond_waiters@[i].condvar_id < self.condvars@.len()
                && self.condvars@[self.cond_waiters@[i].condvar_id as int]
                && self.cond_waiters@[i].mutex_id < self.mutexes@.len()
                && self.mutexes@[self.cond_waiters@[i].mutex_id as int] is Some
                && self.tasks@[self.cond_waiters@[i].tid as int].status == TaskStatus::Blocked
        &&& forall|i: int, j: int|
            0 <= i < self.mutex_waiters@.len() && 0 <= j < self.mutex_waiters@.len() && i != j
                ==> (#[trigger] self.mutex_waiters@[i]).tid != (#[trigger] self.mutex_waiters@[j]).tid
        &&& forall|i: int, j: int|
            0 <= i < self.sem_waiters@.len() && 0 <= j < self.sem_waiters@.len() && i != j
                ==> (#[trigger] self.sem_waiters@[i]).tid != (#[trigger] self.sem_waiters@[j]).tid
        &&& forall|i: int, j: int|
            0 <= i < self.cond_waiters@.len() && 0 <= j < self.cond_waiters@.len() && i != j
                ==> (#[trigger] self.cond_waiters@[i]).tid != (#[trigger] self.cond_waiters@[j]).tid
        &&& forall|i: int, j: int|
            0 <= i < self.mutex_waiters@.len() && 0 <= j < self.sem_waiters@.len()
                ==> (#[trigger] self.mutex_waiters@[i]).tid != (#[trigger] self.sem_waiters@[j]).tid
        &&& forall|i: int, j: int|
            0 <= i < self.mutex_waiters@.len() && 0 <= j < self.cond_waiters@.len()
                ==> (#[trigger] self.mutex_waiters@[i]).tid != (#[trigger] self.cond_waiters@[j]).tid
        &&& forall|i: int, j: int|
            0 <= i < self.sem_waiters@.len() && 0 <= j < self.cond_waiters@.len()
                ==> (#[trigger] self.sem_waiters@[i]).tid != (#[trigger] self.cond_waiters@[j]).tid
    }

    /// The lock slot `id` exists and holds a synchronizer.
    pub open spec fn valid_mutex(&self, id: int) -> bool {
        0 <= id < self.mutexes@.len() && self.mutexes@[id] is Some
    }

    /// The semaphore slot `id` exists and holds a synchronizer.
    pub open spec fn valid_semaphore(&self, id: int) -> bool {
        0 <= id < self.semaphores@.len() && self.semaphores@[id] is Some
    }

    /// The condition-variable slot `id` exists and holds a synchronizer.
    pub open spec fn valid_condvar(&self, id: int) -> bool {
        0 <= id < self.condvars@.len() && self.condvars@[id]
    }

    /// A fresh process: one boot task (id 0), running, default priority 16;
    /// empty slot tables; avoidance disabled.
    pub fn new() -> (k: Kernel)
        ensures
            k.wf(),
            k.tasks@.len() == 1,
            k.tasks@[0] == (Task {
                status: TaskStatus::Running,
                stride: 0,
                pass: BIG_STRIDE / 16,
                first_time: 0,
                dispatched: false,
            }),
            k.current == 0,
            k.scheduler.ready_queue@ == Seq::<SchedEntry>::empty(),
            k.mutexes@.len() == 0,
            k.mutex_waiters@.len() == 0,
            k.semaphores@.len() == 0,
            k.sem_waiters@.len() == 0,
            k.condvars@.len() == 0,
            k.cond_waiters@.len() == 0,
            !k.deadlock_detect,
            k.syscall_counts@.len() == 1,
            forall|j: int| 0 <= j < MAX_SYSCALL_NUM ==> k.syscall_counts@[0]@[j] == 0,
    {
        let mut tasks: Vec<Task> = Vec::new();
        tasks.push(
            Task {
                status: TaskStatus::Running,
                stride: 0,
                pass: BIG_STRIDE / 16,
                first_time: 0,
                dispatched: false,
            },
        );
        let mut counts: Vec<Vec<u32>> = Vec::new();
        counts.push(zero_counts());
        let mut mutex_detector = DeadlockDetector::new();
        mutex_detector.push_task();
        let mut semaphore_detector = DeadlockDetector::new();
        semaphore_detector.push_task();
        Kernel {
            tasks,
            syscall_counts: counts,
            current: 0,
            scheduler: TaskManager::new(),
            mutexes: Vec::new(),
            mutex_waiters: Vec::new(),
            semaphores: Vec::new(),
            sem_waiters: Vec::new(),
            condvars: Vec::new(),
            cond_waiters: Vec::new(),
            mutex_detector,
            semaphore_detector,
            deadlock_detect: false,
        }
    }

    /// Add a task with the given priority to the table, both detectors and
    /// the ready set; returns its id.
    pub fn spawn_task(&mut self, priority: u64) -> (tid: usize)
        requires
            old(self).wf(),
            1 <= priority <= BIG_STRIDE,
            old(self).tasks@.len() < usize::MAX,
        ensures
            final(self).wf(),
            tid == old(self).tasks@.len(),
            final(self).tasks@ == old(self).tasks@.push(
                Task {
                    status: TaskStatus::Ready,
                    stride: 0,
                    pass: BIG_STRIDE / priority,
                    first_time: 0,
                    dispatched: false,
                },
            ),
            final(self).scheduler.ready_queue@ == old(self).scheduler.ready_queue@.push(
                SchedEntry { tid, stride: 0, pass: BIG_STRIDE / priority },
            ),
            final(self).current == old(self).current,
            final(self).syscall_counts@.len() == old(self).syscall_counts@.len() + 1,
            forall|t: int| 0 <= t < old(self).syscall_counts@.len()
                ==> final(self).syscall_counts@[t] == old(self).syscall_counts@[t],
            final(self).mutexes@ == old(self).mutexes@,
            final(self).mutex_waiters@ == old(self).mutex_waiters@,
            final(self).semaphores@ == old(self).semaphores@,
            final(self).sem_waiters@ == old(self).sem_waiters@,
            same_cond_state(final(self), old(self)),
            final(self).deadlock_detect == old(self).deadlock_detect,
            final(self).mutex_detector@.available == old(self).mutex_detector@.available,
            final(self).semaphore_detector@.available == old(self).semaphore_detector@.available,
    {
        let pass = BIG_STRIDE / priority;
        proof {
            assert(1 <= BIG_STRIDE / priority <= BIG_STRIDE) by (nonlinear_arith)
                requires
                    1 <= priority <= BIG_STRIDE,
            ;
        }
        let tid = self.tasks.len();
        self.tasks.push(
            Task { status: TaskStatus::Ready, stride: 0, pass, first_time: 0, dispatched: false },
        );
        self.syscall_counts.push(zero_counts());
        self.mutex_detector.push_task();
        self.semaphore_detector.push_task();
        self.scheduler.add(SchedEntry { tid, stride: 0, pass });
        tid
    }

    /// Mark a blocked task ready and hand it back to the scheduler; the
    /// external timer calls this when a sleep deadline elapses.  A task
    /// blocked on a synchronizer is woken only by that synchronizer, never
    /// by this path.
    pub fn wakeup_task(&mut self, tid: usize)
        requires
            old(self).wf(),
            tid < old(self).tasks@.len(),
            old(self).tasks@[tid as int].status == TaskStatus::Blocked,
            forall|i: int| 0 <= i < old(self).mutex_waiters@.len()
                ==> (#[trigger] old(self).mutex_waiters@[i]).tid != tid,
            forall|i: int| 0 <= i < old(self).sem_waiters@.len()
                ==> (#[trigger] old(self).sem_waiters@[i]).tid != tid,
            forall|i: int| 0 <= i < old(self).cond_waiters@.len()
                ==> (#[trigger] old(self).cond_waiters@[i]).tid != tid,
        ensures
            final(self).wf(),
            final(self).tasks@ == old(self).tasks@.update(
                tid as int,
                Task { status: TaskStatus::Ready, ..old(self).tasks@[tid as int] },
            ),
            final(self).scheduler.ready_queue@ == old(self).scheduler.ready_queue@.push(
                SchedEntry {
                    tid,
                    stride: old(self).tasks@[tid as int].stride,
                    pass: old(self).tasks@[tid as int].pass,
                },
            ),
            final(self).current == old(self).current,
            final(self).syscall_counts@ == old(self).syscall_counts@,
            same_mutex_state(final(self), old(self)),
            same_sem_state(final(self), old(self)),
            same_cond_state(final(self), old(self)),
            final(self).deadlock_detect == old(self).deadlock_detect,
    {
        let t = self.tasks[tid];
        self.tasks[tid] = Task { status: TaskStatus::Ready, ..t };
        self.scheduler.add(SchedEntry { tid, stride: t.stride, pass: t.pass });
    }

    /// Pick the next task to run: the minimum-stride entry of the ready
    /// set.  The chosen task becomes `Running` and current, its stride is
    /// advanced, and its first-dispatch time is recorded once.
    pub fn dispatch(&mut self, now_ms: usize) -> (r: Option<usize>)
        requires
            old(self).wf(),
        ensures
            final(self).wf(),
            match r {
                None => old(self).scheduler.ready_queue@.len() == 0
                    && kernel_unchanged(final(self), old(self)),
                Some(tid) => ({
                    let q = old(self).scheduler.ready_queue@;
                    exists|i: int|
                        {
                            &&& #[trigger] is_min_choice(q, i)
                            &&& tid == q[i].tid
                            &&& final(self).scheduler.ready_queue@ == q.remove(i)
                            &&& final(self).tasks@ == old(self).tasks@.update(
                                tid as int,
                                Task {
                                    status: TaskStatus::Running,
                                    stride: (q[i].stride + q[i].pass) as u64,
                                    pass: old(self).tasks@[tid as int].pass,
                                    first_time: if old(self).tasks@[tid as int].dispatched {
                                        old(self).tasks@[tid as int].first_time
                                    } else {
                                        now_ms
                                    },
                                    dispatched: true,
                                },
                            )
                        }
                }) && final(self).current == tid
                    && final(self).syscall_counts@ == old(self).syscall_counts@
                    && same_mutex_state(final(self), old(self))
                    && same_sem_state(final(self), old(self))
                    && same_cond_state(final(self), old(self))
                    && final(self).deadlock_detect == old(self).deadlock_detect,
            },
    {
        match self.scheduler.fetch() {
            None => None,
            Some(e) => {
                let t = self.tasks[e.tid];
                self.tasks[e.tid] = Task {
                    status: TaskStatus::Running,
                    stride: e.stride,
                    pass: t.pass,
                    first_time: if t.dispatched {
                        t.first_time
                    } else {
                        now_ms
                    },
                    dispatched: true,
                };
                self.current = e.tid;
                Some(e.tid)
            },
        }
    }

    /// Count one invocation of syscall `syscall_id` against the current
    /// task; the dispatcher calls this once per syscall.
    pub fn record_syscall(&mut self, syscall_id: usize)
        requires
            old(self).wf(),
            syscall_id < MAX_SYSCALL_NUM,
            old(self).syscall_counts@[old(self).current as int]@[syscall_id as int] < u32::MAX,
        ensures
            final(self).wf(),
            final(self).syscall_counts@.len() == old(self).syscall_counts@.len(),
            final(self).syscall_counts@[old(self).current as int]@
                == old(self).syscall_counts@[old(self).current as int]@.update(
                syscall_id as int,
                (old(self).syscall_counts@[old(self).current as int]@[syscall_id as int]
                    + 1) as u32,
            ),
            forall|t: int| 0 <= t < old(self).syscall_counts@.len() && t != old(self).current
                ==> final(self).syscall_counts@[t] == old(self).syscall_counts@[t],
            final(self).tasks@ == old(self).tasks@,
            final(self).current == old(self).current,
            final(self).scheduler.ready_queue@ == old(self).scheduler.ready_queue@,
            same_mutex_state(final(self), old(self)),
            same_sem_state(final(self), old(self)),
            same_cond_state(final(self), old(self)),
            final(self).deadlock_detect == old(self).deadlock_detect,
    {
        let t = self.current;
        let c = self.syscall_counts[t][syscall_id];
        self.syscall_counts[t][syscall_id] = c + 1;
    }
}

/// A zeroed per-task syscall counter row.
#[verifier::loop_isolation(false)]
fn zero_counts() -> (r: Vec<u32>)
    ensures
        r@.len() == MAX_SYSCALL_NUM,
        forall|j: int| 0 <= j < MAX_SYSCALL_NUM ==> #[trigger] r@[j] == 0,
{
    let mut v: Vec<u32> = Vec::new();
    let mut i: usize = 0;
    while i < MAX_SYSCALL_NUM
        invariant
            i <= MAX_SYSCALL_NUM,
            v@.len() == i,
            forall|j: int| 0 <= j < i ==> #[trigger] v@[j] == 0,
        decreases MAX_SYSCALL_NUM - i,
    {
        v.push(0);
        i = i + 1;
    }
    v
}

/// Some waiter entry names lock `id`.
pub open spec fn some_waiter_on_mutex(ws: Seq<MutexWaiter>, cs: Seq<CondWaiter>, id: int) -> bool {
    (exists|i: int| 0 <= i < ws.len() && (#[trigger] ws[i]).mutex_id == id) || (exists|i: int|
        0 <= i < cs.len() && (#[trigger] cs[i]).mutex_id == id)
}

/// Lowest empty slot of an `Option` table, if any.
#[verifier::loop_isolation(false)]
fn find_none_slot<T>(v: &Vec<Option<T>>) -> (r: Option<usize>)
    ensures
        match r {
            Some(i) => is_lowest_none(v@, i as int),
            None => forall|j: int| 0 <= j < v@.len() ==> (#[trigger] v@[j]) is Some,
        },
{
    let n = v.len();
    let mut i: usize = 0;
    while i < n
        invariant
            i <= n,
            forall|j: int| 0 <= j < i ==> (#[trigger] v@[j]) is Some,
        decreases n - i,
    {
        if v[i].is_none() {
            return Some(i);
        }
        i = i + 1;
    }
    None
}

/// Lowest free condition-variable slot, if any.
#[verifier::loop_isolation(false)]
fn find_false_slot(v: &Vec<bool>) -> (r: Option<usize>)
    ensures
        match r {
            Some(i) => is_lowest_false(v@, i as int),
            None => forall|j: int| 0 <= j < v@.len() ==> #[trigger] v@[j],
        },
{
    let n = v.len();
    let mut i: usize = 0;
    while i < n
        invariant
            i <= n,
            forall|j: int| 0 <= j < i ==> #[trigger] v@[j],
        decreases n - i,
    {
        if !v[i] {
            return Some(i);
        }
        i = i + 1;
    }
    None
}

/// Front waiter of lock `id`, if any.
#[verifier::loop_isolation(false)]
fn find_mutex_waiter(ws: &Vec<MutexWaiter>, id: usize) -> (r: Option<usize>)
    ensures
        match r {
            Some(i) => is_first_mutex_waiter(ws@, id as int, i as int)
                && has_mutex_waiter(ws@, id as int) && first_mutex_waiter(ws@, id as int) == i,
            None => !has_mutex_waiter(ws@, id as int) && forall|j: int|
                0 <= j < ws@.len() ==> (#[trigger] ws@[j]).mutex_id != id,
        },
{
    let n = ws.len();
    let mut i: usize = 0;
    while i < n
        invariant
            i <= n,
            forall|j: int| 0 <= j < i ==> (#[trigger] ws@[j]).mutex_id != id,
        decreases n - i,
    {
        if ws[i].mutex_id == id {
            proof {
                assert(is_first_mutex_waiter(ws@, id as int, i as int));
                let c = first_mutex_waiter(ws@, id as int);
                assert(is_first_mutex_waiter(ws@, id as int, c));
                if c != i as int {
                    assert(ws@[if c < i as int { c } else { i as int }].mutex_id == id);
                    assert(false);
                }
            }
            return Some(i);
        }
        i = i + 1;
    }
    None
}

/// Front waiter of semaphore `id`, if any.
#[verifier::loop_isolation(false)]
fn find_sem_waiter(ws: &Vec<SemWaiter>, id: usize) -> (r: Option<usize>)
    ensures
        match r {
            Some(i) => is_first_sem_waiter(ws@, id as int, i as int)
                && has_sem_waiter(ws@, id as int) && first_sem_waiter(ws@, id as int) == i,
            None => !has_sem_waiter(ws@, id as int) && forall|j: int|
                0 <= j < ws@.len() ==> (#[trigger] ws@[j]).sem_id != id,
        },
{
    let n = ws.len();
    let mut i: usize = 0;
    while i < n
        invariant
            i <= n,
            forall|j: int| 0 <= j < i ==> (#[trigger] ws@[j]).sem_id != id,
        decreases n - i,
    {
        if ws[i].sem_id == id {
            proof {
                assert(is_first_sem_waiter(ws@, id as int, i as int));
                let c = first_sem_waiter(ws@, id as int);
                assert(is_first_sem_waiter(ws@, id as int, c));
                if c != i as int {
                    assert(ws@[if c < i as int { c } else { i as int }].sem_id == id);
                    assert(false);
                }
            }
            return Some(i);
        }
        i = i + 1;
    }
    None
}

/// Front waiter of condition variable `id`, if any.
#[verifier::loop_isolation(false)]
fn find_cond_waiter(ws: &Vec<CondWaiter>, id: usize) -> (r: Option<usize>)
    ensures
        match r {
            Some(i) => is_first_cond_waiter(ws@, id as int, i as int)
                && has_cond_waiter(ws@, id as int) && first_cond_waiter(ws@, id as int) == i,
            None => !has_cond_waiter(ws@, id as int) && forall|j: int|
                0 <= j < ws@.len() ==> (#[trigger] ws@[j]).condvar_id != id,
        },
{
    let n = ws.len();
    let mut i: usize = 0;
    while i < n
        invariant
            i <= n,
            forall|j: int| 0 <= j < i ==> (#[trigger] ws@[j]).condvar_id != id,
        decreases n - i,
    {
        if ws[i].condvar_id == id {
            proof {
                assert(is_first_cond_waiter(ws@, id as int, i as int));
                let c = first_cond_waiter(ws@, id as int);
                assert(is_first_cond_waiter(ws@, id as int, c));
                if c != i as int {
                    assert(ws@[if c < i as int { c } else { i as int }].condvar_id == id);
                    assert(false);
                }
            }
            return Some(i);
        }
        i = i + 1;
    }
    None
}

/// Does any entry of either waiter list name lock `id`?
#[verifier::loop_isolation(false)]
fn mutex_in_use(ws: &Vec<MutexWaiter>, cs: &Vec<CondWaiter>, id: usize) -> (r: bool)
    ensures
        r == some_waiter_on_mutex(ws@, cs@, id as int),
{
    let n = ws.len();
    let mut i: usize = 0;
    while i < n
        invariant
            i <= n,
            forall|j: int| 0 <= j < i ==> (#[trigger] ws@[j]).mutex_id != id,
        decreases n - i,
    {
        if ws[i].mutex_id == id {
            return true;
        }
        i = i + 1;
    }
    let m = cs.len();
    let mut q: usize = 0;
    while q < m
        invariant
            q <= m,
            forall|j: int| 0 <= j < q ==> (#[trigger] cs@[j]).mutex_id != id,
        decreases m - q,
    {
        if cs[q].mutex_id == id {
            return true;
        }
        q = q + 1;
    }
    false
}

/// The calling task terminates; it never runs again.  The driver must not
/// resume it: only a `dispatch` can pick the next task.
pub fn sys_exit(k: &mut Kernel, _exit_code: i32)
    requires
        old(k).wf(),
        old(k).tasks@[old(k).current as int].status == TaskStatus::Running,
    ensures
        final(k).wf(),
        final(k).tasks@ == old(k).tasks@.update(
            old(k).current as int,
            Task { status: TaskStatus::Exited, ..old(k).tasks@[old(k).current as int] },
        ),
        final(k).syscall_counts@ == old(k).syscall_counts@,
        final(k).current == old(k).current,
        final(k).scheduler.ready_queue@ == old(k).scheduler.ready_queue@,
        same_mutex_state(final(k), old(k)),
        same_sem_state(final(k), old(k)),
        same_cond_state(final(k), old(k)),
        final(k).deadlock_detect == old(k).deadlock_detect,
{
    let t = k.current;
    let task = k.tasks[t];
    k.tasks[t] = Task { status: TaskStatus::Exited, ..task };
}

/// The calling task yields: it goes back to the ready set and the driver
/// dispatches the next minimum-stride task.
pub fn sys_yield(k: &mut Kernel) -> (r: isize)
    requires
        old(k).wf(),
        old(k).tasks@[old(k).current as int].status == TaskStatus::Running,
        old(k).tasks@[old(k).current as int].stride + old(k).tasks@[old(k).current as int].pass
            <= u64::MAX,
    ensures
        final(k).wf(),
        r == 0,
        final(k).tasks@ == old(k).tasks@.update(
            old(k).current as int,
            Task { status: TaskStatus::Ready, ..old(k).tasks@[old(k).current as int] },
        ),
        final(k).scheduler.ready_queue@ == old(k).scheduler.ready_queue@.push(
            SchedEntry {
                tid: old(k).current,
                stride: old(k).tasks@[old(k).current as int].stride,
                pass: old(k).tasks@[old(k).current as int].pass,
            },
        ),
        final(k).syscall_counts@ == old(k).syscall_counts@,
        final(k).current == old(k).current,
        same_mutex_state(final(k), old(k)),
        same_sem_state(final(k), old(k)),
        same_cond_state(final(k), old(k)),
        final(k).deadlock_detect == old(k).deadlock_detect,
{
    let t = k.current;
    let task = k.tasks[t];
    k.tasks[t] = Task { status: TaskStatus::Ready, ..task };
    k.scheduler.add(SchedEntry { tid: t, stride: task.stride, pass: task.pass });
    0
}

/// The calling task sleeps: it blocks, and the returned pair carries the
/// reported code `0` and the expiry time (now + ms) that the driver must
/// register with the external timer, which later calls `wakeup_task`.
pub fn sys_sleep(k: &mut Kernel, now_ms: usize, ms: usize) -> (r: (isize, usize))
    requires
        old(k).wf(),
        old(k).tasks@[old(k).current as int].status == TaskStatus::Running,
        old(k).tasks@[old(k).current as int].stride + old(k).tasks@[old(k).current as int].pass
            <= u64::MAX,
        now_ms + ms <= usize::MAX,
    ensures
        final(k).wf(),
        r.0 == 0,
        r.1 == now_ms + ms,
        final(k).tasks@ == old(k).tasks@.update(
            old(k).current as int,
            Task { status: TaskStatus::Blocked, ..old(k).tasks@[old(k).current as int] },
        ),
        final(k).syscall_counts@ == old(k).syscall_counts@,
        final(k).current == old(k).current,
        final(k).scheduler.ready_queue@ == old(k).scheduler.ready_queue@,
        same_mutex_state(final(k), old(k)),
        same_sem_state(final(k), old(k)),
        same_cond_state(final(k), old(k)),
        final(k).deadlock_detect == old(k).deadlock_detect,
{
    let t = k.current;
    let task = k.tasks[t];
    k.tasks[t] = Task { status: TaskStatus::Blocked, ..task };
    (0, now_ms + ms)
}

/// Copy the current task's accounting out: its status as seen by itself
/// (running), its syscall counters, and the milliseconds since its first
/// dispatch.  The copy into user memory is the translation collaborator's
/// job.
pub fn sys_task_info(k: &Kernel, now_ms: usize) -> (r: (TaskInfo, isize))
    requires
        k.wf(),
        k.tasks@[k.current as int].status == TaskStatus::Running,
        now_ms >= k.tasks@[k.current as int].first_time,
    ensures
        r.0.status == TaskStatus::Running,
        r.0.syscall_times@ == k.syscall_counts@[k.current as int]@,
        r.0.time == now_ms - k.tasks@[k.current as int].first_time,
        r.1 == 0,
{
    let t = k.current;
    let mut times: Vec<u32> = Vec::new();
    let n = k.syscall_counts[t].len();
    let mut i: usize = 0;
    #[verifier::loop_isolation(false)]
    while i < n
        invariant
            i <= n,
            times@ == k.syscall_counts@[t as int]@.subrange(0, i as int),
        decreases n - i,
    {
        times.push(k.syscall_counts[t][i]);
        i = i + 1;
    }
    proof {
        assert(times@ =~= k.syscall_counts@[t as int]@);
    }
    let info = TaskInfo {
        status: TaskStatus::Running,
        syscall_times: times,
        time: now_ms - k.tasks[t].first_time,
    };
    (info, 0)
}

/// Toggle deadlock avoidance: `1` enables, `0` disables, anything else is
/// rejected with `-1` and no change.
pub fn sys_enable_deadlock_detect(k: &mut Kernel, enabled: usize) -> (r: isize)
    requires
        old(k).wf(),
    ensures
        final(k).wf(),
        same_core(final(k), old(k)),
        same_mutex_state(final(k), old(k)),
        same_sem_state(final(k), old(k)),
        same_cond_state(final(k), old(k)),
        enabled == 0 ==> r == 0 && !final(k).deadlock_detect,
        enabled == 1 ==> r == 0 && final(k).deadlock_detect,
        enabled > 1 ==> r == -1 && final(k).deadlock_detect == old(k).deadlock_detect,
{
    if enabled == 0 {
        k.deadlock_detect = false;
        0
    } else if enabled == 1 {
        k.deadlock_detect = true;
        0
    } else {
        -1
    }
}

/// Create a lock (spinning or blocking).  The lowest empty slot is reused
/// without touching the detector; only when the table grows is the new
/// resource registered with one instance.  Returns the slot id.
pub fn sys_mutex_create(k: &mut Kernel, blocking: bool) -> (r: isize)
    requires
        old(k).wf(),
        old(k).mutexes@.len() < isize::MAX,
    ensures
        final(k).wf(),
        same_core(final(k), old(k)),
        same_sem_state(final(k), old(k)),
        same_cond_state(final(k), old(k)),
        final(k).deadlock_detect == old(k).deadlock_detect,
        final(k).mutex_waiters@ == old(k).mutex_waiters@,
        if has_none_slot(old(k).mutexes@) {
            ({
                let i = lowest_none(old(k).mutexes@);
                &&& r == i
                &&& final(k).mutexes@ == old(k).mutexes@.update(
                    i,
                    Some(MutexSlot { blocking, locked: false }),
                )
                &&& final(k).mutex_detector@ == old(k).mutex_detector@
            })
        } else {
            ({
                &&& r == old(k).mutexes@.len()
                &&& final(k).mutexes@ == old(k).mutexes@.push(
                    Some(MutexSlot { blocking, locked: false }),
                )
                &&& final(k).mutex_detector@.available == old(k).mutex_detector@.available.push(1)
                &&& final(k).mutex_detector@.total == old(k).mutex_detector@.total.push(1)
            })
        },
{
    match find_none_slot(&k.mutexes) {
        Some(i) => {
            proof {
                let c = lowest_none(old(k).mutexes@);
                assert(is_lowest_none(old(k).mutexes@, c));
                if c != i as int {
                    assert(old(k).mutexes@[if c < i as int { c } else { i as int }] is Some);
                    assert(false);
                }
            }
            k.mutexes[i] = Some(MutexSlot { blocking, locked: false });
            i as isize
        },
        None => {
            let id = k.mutexes.len();
            k.mutexes.push(Some(MutexSlot { blocking, locked: false }));
            k.mutex_detector.push_resource(1);
            id as isize
        },
    }
}

/// Create a counting semaphore with `res_count` initial units.  Slot reuse
/// and registration follow the lock rules; the registered total is
/// `res_count`.
pub fn sys_semaphore_create(k: &mut Kernel, res_count: usize) -> (r: isize)
    requires
        old(k).wf(),
        old(k).semaphores@.len() < isize::MAX,
        res_count <= i64::MAX,
    ensures
        final(k).wf(),
        same_core(final(k), old(k)),
        same_mutex_state(final(k), old(k)),
        same_cond_state(final(k), old(k)),
        final(k).deadlock_detect == old(k).deadlock_detect,
        final(k).sem_waiters@ == old(k).sem_waiters@,
        if has_none_slot(old(k).semaphores@) {
            ({
                let i = lowest_none(old(k).semaphores@);
                &&& r == i
                &&& final(k).semaphores@ == old(k).semaphores@.update(
                    i,
                    Some(SemSlot { count: res_count as i64 }),
                )
                &&& final(k).semaphore_detector@ == old(k).semaphore_detector@
            })
        } else {
            ({
                &&& r == old(k).semaphores@.len()
                &&& final(k).semaphores@ == old(k).semaphores@.push(
                    Some(SemSlot { count: res_count as i64 }),
                )
                &&& final(k).semaphore_detector@.available
                    == old(k).semaphore_detector@.available.push(res_count as int)
                &&& final(k).semaphore_detector@.total
                    == old(k).semaphore_detector@.total.push(res_count as int)
            })
        },
{
    match find_none_slot(&k.semaphores) {
        Some(i) => {
            proof {
                let c = lowest_none(old(k).semaphores@);
                assert(is_lowest_none(old(k).semaphores@, c));
                if c != i as int {
                    assert(old(k).semaphores@[if c < i as int { c } else { i as int }] is Some);
                    assert(false);
                }
            }
            k.semaphores[i] = Some(SemSlot { count: res_count as i64 });
            i as isize
        },
        None => {
            let id = k.semaphores.len();
            k.semaphores.push(Some(SemSlot { count: res_count as i64 }));
            k.semaphore_detector.push_resource(res_count);
            id as isize
        },
    }
}

/// Create a condition variable in the lowest free slot; condition variables
/// are not governed by a detector.
pub fn sys_condvar_create(k: &mut Kernel) -> (r: isize)
    requires
        old(k).wf(),
        old(k).condvars@.len() < isize::MAX,
    ensures
        final(k).wf(),
        same_core(final(k), old(k)),
        same_mutex_state(final(k), old(k)),
        same_sem_state(final(k), old(k)),
        final(k).deadlock_detect == old(k).deadlock_detect,
        final(k).cond_waiters@ == old(k).cond_waiters@,
        if has_false_slot(old(k).condvars@) {
            r == lowest_false(old(k).condvars@) && final(k).condvars@ == old(k).condvars@.update(
                lowest_false(old(k).condvars@),
                true,
            )
        } else {
            r == old(k).condvars@.len() && final(k).condvars@ == old(k).condvars@.push(true)
        },
{
    match find_false_slot(&k.condvars) {
        Some(i) => {
            proof {
                let c = lowest_false(old(k).condvars@);
                assert(is_lowest_false(old(k).condvars@, c));
                if c != i as int {
                    assert(old(k).condvars@[if c < i as int { c } else { i as int }]);
                    assert(false);
                }
            }
            k.condvars[i] = true;
            i as isize
        },
        None => {
            let id = k.condvars.len();
            k.condvars.push(true);
            id as isize
        },
    }
}

/// Release lock slot `id` (its detector column stays registered, so a later
/// create that reuses the slot does not re-register).  Fails with `-1` when
/// the slot is invalid or some waiter still names the lock.
pub fn destroy_mutex(k: &mut Kernel, id: usize) -> (r: isize)
    requires
        old(k).wf(),
    ensures
        final(k).wf(),
        same_core(final(k), old(k)),
        same_sem_state(final(k), old(k)),
        same_cond_state(final(k), old(k)),
        final(k).deadlock_detect == old(k).deadlock_detect,
        final(k).mutex_waiters@ == old(k).mutex_waiters@,
        final(k).mutex_detector@ == old(k).mutex_detector@,
        if old(k).valid_mutex(id as int) && !some_waiter_on_mutex(
            old(k).mutex_waiters@,
            old(k).cond_waiters@,
            id as int,
        ) {
            r == 0 && final(k).mutexes@ == old(k).mutexes@.update(id as int, None)
        } else {
            r == -1 && final(k).mutexes@ == old(k).mutexes@
        },
{
    if id >= k.mutexes.len() {
        return -1;
    }
    if k.mutexes[id].is_none() {
        return -1;
    }
    if mutex_in_use(&k.mutex_waiters, &k.cond_waiters, id) {
        return -1;
    }
    k.mutexes[id] = None;
    0
}

/// Release semaphore slot `id`; fails with `-1` when the slot is invalid or
/// a task still waits on it.
pub fn destroy_semaphore(k: &mut Kernel, id: usize) -> (r: isize)
    requires
        old(k).wf(),
    ensures
        final(k).wf(),
        same_core(final(k), old(k)),
        same_mutex_state(final(k), old(k)),
        same_cond_state(final(k), old(k)),
        final(k).deadlock_detect == old(k).deadlock_detect,
        final(k).sem_waiters@ == old(k).sem_waiters@,
        final(k).semaphore_detector@ == old(k).semaphore_detector@,
        if old(k).valid_semaphore(id as int) && !has_sem_waiter(old(k).sem_waiters@, id as int) {
            r == 0 && final(k).semaphores@ == old(k).semaphores@.update(id as int, None)
        } else {
            r == -1 && final(k).semaphores@ == old(k).semaphores@
        },
{
    if id >= k.semaphores.len() {
        return -1;
    }
    if k.semaphores[id].is_none() {
        return -1;
    }
    match find_sem_waiter(&k.sem_waiters, id) {
        Some(_) => -1,
        None => {
            k.semaphores[id] = None;
            0
        },
    }
}

/// Release condition-variable slot `id`; fails with `-1` when the slot is
/// invalid or a task still waits on it.
pub fn destroy_condvar(k: &mut Kernel, id: usize) -> (r: isize)
    requires
        old(k).wf(),
    ensures
        final(k).wf(),
        same_core(final(k), old(k)),
        same_mutex_state(final(k), old(k)),
        same_sem_state(final(k), old(k)),
        final(k).deadlock_detect == old(k).deadlock_detect,
        final(k).cond_waiters@ == old(k).cond_waiters@,
        if old(k).valid_condvar(id as int) && !has_cond_waiter(old(k).cond_waiters@, id as int) {
            r == 0 && final(k).condvars@ == old(k).condvars@.update(id as int, false)
        } else {
            r == -1 && final(k).condvars@ == old(k).condvars@
        },
{
    if id >= k.condvars.len() {
        return -1;
    }
    if !k.condvars[id] {
        return -1;
    }
    match find_cond_waiter(&k.cond_waiters, id) {
        Some(_) => -1,
        None => {
            k.condvars[id] = false;
            0
        },
    }
}

/// Acquire lock `id` for the calling task.
///
/// The request is first recorded as a need of one unit.  With avoidance
/// enabled, an unsafe state fails fast with [`DEADLOCK_CODE`]: available
/// and allocation counts are untouched and the need stays recorded exactly
/// as requested.  Otherwise the acquire proceeds: a free lock is granted
/// and committed at once; a held lock blocks the caller, whose commit
/// happens when the lock is handed over.  The reported code of a blocking
/// acquire is what the task sees once it resumes.
pub fn sys_mutex_lock(k: &mut Kernel, mutex_id: usize) -> (r: isize)
    requires
        old(k).wf(),
        old(k).tasks@[old(k).current as int].status == TaskStatus::Running,
        old(k).tasks@[old(k).current as int].stride + old(k).tasks@[old(k).current as int].pass
            <= u64::MAX,
    ensures
        final(k).wf(),
        same_sem_state(final(k), old(k)),
        same_cond_state(final(k), old(k)),
        final(k).deadlock_detect == old(k).deadlock_detect,
        final(k).current == old(k).current,
        final(k).syscall_counts@ == old(k).syscall_counts@,
        final(k).scheduler.ready_queue@ == old(k).scheduler.ready_queue@,
        ({
            let t = old(k).current as int;
            let id = mutex_id as int;
            let requested = with_need(old(k).mutex_detector@, t, id, 1);
            if !old(k).valid_mutex(id) {
                &&& r == -1
                &&& kernel_unchanged(final(k), old(k))
            } else if old(k).deadlock_detect && !requested.is_safe() {
                &&& r == DEADLOCK_CODE
                &&& final(k).mutex_detector@ == requested
                &&& final(k).mutexes@ == old(k).mutexes@
                &&& final(k).mutex_waiters@ == old(k).mutex_waiters@
                &&& final(k).tasks@ == old(k).tasks@
            } else if !old(k).mutexes@[id].unwrap().locked {
                &&& r == 0
                &&& final(k).mutexes@ == old(k).mutexes@.update(
                    id,
                    Some(MutexSlot { locked: true, ..old(k).mutexes@[id].unwrap() }),
                )
                &&& final(k).mutex_detector@ == with_alloc(requested, t, id, 1)
                &&& final(k).mutex_waiters@ == old(k).mutex_waiters@
                &&& final(k).tasks@ == old(k).tasks@
            } else {
                &&& r == 0
                &&& final(k).mutexes@ == old(k).mutexes@
                &&& final(k).mutex_detector@ == requested
                &&& final(k).mutex_waiters@ == old(k).mutex_waiters@.push(
                    MutexWaiter { tid: old(k).current, mutex_id, governed: true },
                )
                &&& final(k).tasks@ == old(k).tasks@.update(
                    t,
                    Task { status: TaskStatus::Blocked, ..old(k).tasks@[t] },
                )
            }
        }),
{
    if mutex_id >= k.mutexes.len() {
        return -1;
    }
    if k.mutexes[mutex_id].is_none() {
        return -1;
    }
    let t = k.current;
    k.mutex_detector.set_need(t, mutex_id, 1);
    if k.deadlock_detect {
        if !k.mutex_detector.detect() {
            return DEADLOCK_CODE;
        }
    }
    let slot = k.mutexes[mutex_id].unwrap();
    if !slot.locked {
        k.mutexes[mutex_id] = Some(MutexSlot { locked: true, ..slot });
        k.mutex_detector.alloc_resource(t, mutex_id, 1);
        0
    } else {
        k.mutex_waiters.push(MutexWaiter { tid: t, mutex_id, governed: true });
        let task = k.tasks[t];
        k.tasks[t] = Task { status: TaskStatus::Blocked, ..task };
        0
    }
}

/// Release lock `id`.  The releaser's unit moves back to available; if a
/// task is waiting, the lock is handed over directly: the front waiter
/// becomes ready, and, if its wait was governed, its deferred commit runs.
pub fn sys_mutex_unlock(k: &mut Kernel, mutex_id: usize) -> (r: isize)
    requires
        old(k).wf(),
    ensures
        final(k).wf(),
        same_sem_state(final(k), old(k)),
        same_cond_state(final(k), old(k)),
        final(k).deadlock_detect == old(k).deadlock_detect,
        final(k).current == old(k).current,
        final(k).syscall_counts@ == old(k).syscall_counts@,
        ({
            let t = old(k).current as int;
            let id = mutex_id as int;
            let ws = old(k).mutex_waiters@;
            let released = with_unalloc(old(k).mutex_detector@, t, id, 1);
            if !old(k).valid_mutex(id) {
                &&& r == -1
                &&& kernel_unchanged(final(k), old(k))
            } else if has_mutex_waiter(ws, id) {
                ({
                    let w = ws[first_mutex_waiter(ws, id)];
                    &&& r == 0
                    &&& final(k).mutex_waiters@ == ws.remove(first_mutex_waiter(ws, id))
                    &&& final(k).mutexes@ == old(k).mutexes@
                    &&& final(k).tasks@ == old(k).tasks@.update(
                        w.tid as int,
                        Task { status: TaskStatus::Ready, ..old(k).tasks@[w.tid as int] },
                    )
                    &&& final(k).scheduler.ready_queue@ == old(k).scheduler.ready_queue@.push(
                        SchedEntry {
                            tid: w.tid,
                            stride: old(k).tasks@[w.tid as int].stride,
                            pass: old(k).tasks@[w.tid as int].pass,
                        },
                    )
                    &&& final(k).mutex_detector@ == (if w.governed {
                        with_alloc(released, w.tid as int, id, 1)
                    } else {
                        released
                    })
                })
            } else {
                &&& r == 0
                &&& final(k).mutexes@ == old(k).mutexes@.update(
                    id,
                    Some(MutexSlot { locked: false, ..old(k).mutexes@[id].unwrap() }),
                )
                &&& final(k).mutex_detector@ == released
                &&& final(k).mutex_waiters@ == ws
                &&& final(k).tasks@ == old(k).tasks@
                &&& final(k).scheduler.ready_queue@ == old(k).scheduler.ready_queue@
            }
        }),
{
    if mutex_id >= k.mutexes.len() {
        return -1;
    }
    if k.mutexes[mutex_id].is_none() {
        return -1;
    }
    let t = k.current;
    k.mutex_detector.unalloc_resource(t, mutex_id, 1);
    match find_mutex_waiter(&k.mutex_waiters, mutex_id) {
        Some(i) => {
            let w = k.mutex_waiters.remove(i);
            let task = k.tasks[w.tid];
            k.tasks[w.tid] = Task { status: TaskStatus::Ready, ..task };
            k.scheduler.add(SchedEntry { tid: w.tid, stride: task.stride, pass: task.pass });
            if w.governed {
                k.mutex_detector.alloc_resource(w.tid, mutex_id, 1);
            }
            0
        },
        None => {
            let slot = k.mutexes[mutex_id].unwrap();
            k.mutexes[mutex_id] = Some(MutexSlot { locked: false, ..slot });
            0
        },
    }
}

/// Decrement semaphore `id` for the calling task, through the same
/// avoidance gate as a lock acquire.  A nonnegative resulting count grants
/// at once; a negative one blocks the caller, whose commit runs when a
/// release hands a unit over.
pub fn sys_semaphore_down(k: &mut Kernel, sem_id: usize) -> (r: isize)
    requires
        old(k).wf(),
        old(k).tasks@[old(k).current as int].status == TaskStatus::Running,
        old(k).tasks@[old(k).current as int].stride + old(k).tasks@[old(k).current as int].pass
            <= u64::MAX,
        old(k).valid_semaphore(sem_id as int)
            ==> old(k).semaphores@[sem_id as int].unwrap().count > i64::MIN,
    ensures
        final(k).wf(),
        same_mutex_state(final(k), old(k)),
        same_cond_state(final(k), old(k)),
        final(k).deadlock_detect == old(k).deadlock_detect,
        final(k).current == old(k).current,
        final(k).syscall_counts@ == old(k).syscall_counts@,
        final(k).scheduler.ready_queue@ == old(k).scheduler.ready_queue@,
        ({
            let t = old(k).current as int;
            let id = sem_id as int;
            let requested = with_need(old(k).semaphore_detector@, t, id, 1);
            if !old(k).valid_semaphore(id) {
                &&& r == -1
                &&& kernel_unchanged(final(k), old(k))
            } else if old(k).deadlock_detect && !requested.is_safe() {
                &&& r == DEADLOCK_CODE
                &&& final(k).semaphore_detector@ == requested
                &&& final(k).semaphores@ == old(k).semaphores@
                &&& final(k).sem_waiters@ == old(k).sem_waiters@
                &&& final(k).tasks@ == old(k).tasks@
            } else {
                ({
                    let count0 = old(k).semaphores@[id].unwrap().count;
                    &&& r == 0
                    &&& final(k).semaphores@ == old(k).semaphores@.update(
                        id,
                        Some(SemSlot { count: (count0 - 1) as i64 }),
                    )
                    &&& (if count0 >= 1 {
                        final(k).semaphore_detector@ == with_alloc(requested, t, id, 1)
                            && final(k).sem_waiters@ == old(k).sem_waiters@
                            && final(k).tasks@ == old(k).tasks@
                    } else {
                        final(k).semaphore_detector@ == requested
                            && final(k).sem_waiters@ == old(k).sem_waiters@.push(
                            SemWaiter { tid: old(k).current, sem_id },
                        )
                            && final(k).tasks@ == old(k).tasks@.update(
                            t,
                            Task { status: TaskStatus::Blocked, ..old(k).tasks@[t] },
                        )
                    })
                })
            }
        }),
{
    if sem_id >= k.semaphores.len() {
        return -1;
    }
    if k.semaphores[sem_id].is_none() {
        return -1;
    }
    let t = k.current;
    k.semaphore_detector.set_need(t, sem_id, 1);
    if k.deadlock_detect {
        if !k.semaphore_detector.detect() {
            return DEADLOCK_CODE;
        }
    }
    let slot = k.semaphores[sem_id].unwrap();
    k.semaphores[sem_id] = Some(SemSlot { count: slot.count - 1 });
    if slot.count >= 1 {
        k.semaphore_detector.alloc_resource(t, sem_id, 1);
    } else {
        k.sem_waiters.push(SemWaiter { tid: t, sem_id });
        let task = k.tasks[t];
        k.tasks[t] = Task { status: TaskStatus::Blocked, ..task };
    }
    0
}

/// Increment semaphore `id`.  The releaser's unit moves back to available;
/// if the count was negative, the front waiter receives the unit: it
/// becomes ready and its deferred commit runs.
pub fn sys_semaphore_up(k: &mut Kernel, sem_id: usize) -> (r: isize)
    requires
        old(k).wf(),
        old(k).valid_semaphore(sem_id as int)
            ==> old(k).semaphores@[sem_id as int].unwrap().count < i64::MAX,
    ensures
        final(k).wf(),
        same_mutex_state(final(k), old(k)),
        same_cond_state(final(k), old(k)),
        final(k).deadlock_detect == old(k).deadlock_detect,
        final(k).current == old(k).current,
        final(k).syscall_counts@ == old(k).syscall_counts@,
        ({
            let t = old(k).current as int;
            let id = sem_id as int;
            let ws = old(k).sem_waiters@;
            let released = with_unalloc(old(k).semaphore_detector@, t, id, 1);
            if !old(k).valid_semaphore(id) {
                &&& r == -1
                &&& kernel_unchanged(final(k), old(k))
            } else {
                ({
                    let count0 = old(k).semaphores@[id].unwrap().count;
                    &&& r == 0
                    &&& final(k).semaphores@ == old(k).semaphores@.update(
                        id,
                        Some(SemSlot { count: (count0 + 1) as i64 }),
                    )
                    &&& (if count0 < 0 && has_sem_waiter(ws, id) {
                        ({
                            let w = ws[first_sem_waiter(ws, id)];
                            &&& final(k).sem_waiters@ == ws.remove(first_sem_waiter(ws, id))
                            &&& final(k).tasks@ == old(k).tasks@.update(
                                w.tid as int,
                                Task { status: TaskStatus::Ready, ..old(k).tasks@[w.tid as int] },
                            )
                            &&& final(k).scheduler.ready_queue@
                                == old(k).scheduler.ready_queue@.push(
                                SchedEntry {
                                    tid: w.tid,
                                    stride: old(k).tasks@[w.tid as int].stride,
                                    pass: old(k).tasks@[w.tid as int].pass,
                                },
                            )
                            &&& final(k).semaphore_detector@ == with_alloc(
                                released,
                                w.tid as int,
                                id,
                                1,
                            )
                        })
                    } else {
                        final(k).sem_waiters@ == ws && final(k).tasks@ == old(k).tasks@
                            && final(k).scheduler.ready_queue@ == old(k).scheduler.ready_queue@
                            && final(k).semaphore_detector@ == released
                    })
                })
            }
        }),
{
    if sem_id >= k.semaphores.len() {
        return -1;
    }
    if k.semaphores[sem_id].is_none() {
        return -1;
    }
    let t = k.current;
    let slot = k.semaphores[sem_id].unwrap();
    k.semaphores[sem_id] = Some(SemSlot { count: slot.count + 1 });
    k.semaphore_detector.unalloc_resource(t, sem_id, 1);
    if slot.count < 0 {
        match find_sem_waiter(&k.sem_waiters, sem_id) {
            Some(i) => {
                let w = k.sem_waiters.remove(i);
                let task = k.tasks[w.tid];
                k.tasks[w.tid] = Task { status: TaskStatus::Ready, ..task };
                k.scheduler.add(SchedEntry { tid: w.tid, stride: task.stride, pass: task.pass });
                k.semaphore_detector.alloc_resource(w.tid, sem_id, 1);
            },
            None => {},
        }
    }
    0
}

/// Wake at most one waiter of condition variable `id`.  The woken task
/// re-acquires its lock: it runs again only once that lock is free, joining
/// the lock's wait queue otherwise; neither step touches the detector.
pub fn sys_condvar_signal(k: &mut Kernel, condvar_id: usize) -> (r: isize)
    requires
        old(k).wf(),
    ensures
        final(k).wf(),
        same_sem_state(final(k), old(k)),
        final(k).deadlock_detect == old(k).deadlock_detect,
        final(k).current == old(k).current,
        final(k).syscall_counts@ == old(k).syscall_counts@,
        final(k).mutex_detector@ == old(k).mutex_detector@,
        final(k).condvars@ == old(k).condvars@,
        ({
            let id = condvar_id as int;
            let cs = old(k).cond_waiters@;
            if !old(k).valid_condvar(id) {
                &&& r == -1
                &&& kernel_unchanged(final(k), old(k))
            } else if has_cond_waiter(cs, id) {
                ({
                    let w = cs[first_cond_waiter(cs, id)];
                    let m = w.mutex_id as int;
                    &&& r == 0
                    &&& final(k).cond_waiters@ == cs.remove(first_cond_waiter(cs, id))
                    &&& (if !old(k).mutexes@[m].unwrap().locked {
                        final(k).mutexes@ == old(k).mutexes@.update(
                            m,
                            Some(MutexSlot { locked: true, ..old(k).mutexes@[m].unwrap() }),
                        ) && final(k).mutex_waiters@ == old(k).mutex_waiters@
                            && final(k).tasks@ == old(k).tasks@.update(
                            w.tid as int,
                            Task { status: TaskStatus::Ready, ..old(k).tasks@[w.tid as int] },
                        ) && final(k).scheduler.ready_queue@ == old(k).scheduler.ready_queue@.push(
                            SchedEntry {
                                tid: w.tid,
                                stride: old(k).tasks@[w.tid as int].stride,
                                pass: old(k).tasks@[w.tid as int].pass,
                            },
                        )
                    } else {
                        final(k).mutexes@ == old(k).mutexes@ && final(k).mutex_waiters@ == old(
                            k,
                        ).mutex_waiters@.push(
                            MutexWaiter { tid: w.tid, mutex_id: w.mutex_id, governed: false },
                        ) && final(k).tasks@ == old(k).tasks@
                            && final(k).scheduler.ready_queue@ == old(k).scheduler.ready_queue@
                    })
                })
            } else {
                &&& r == 0
                &&& kernel_unchanged(final(k), old(k))
            }
        }),
{
    if condvar_id >= k.condvars.len() {
        return -1;
    }
    if !k.condvars[condvar_id] {
        return -1;
    }
    match find_cond_waiter(&k.cond_waiters, condvar_id) {
        Some(i) => {
            let w = k.cond_waiters.remove(i);
            let slot = k.mutexes[w.mutex_id].unwrap();
            if !slot.locked {
                k.mutexes[w.mutex_id] = Some(MutexSlot { locked: true, ..slot });
                let task = k.tasks[w.tid];
                k.tasks[w.tid] = Task { status: TaskStatus::Ready, ..task };
                k.scheduler.add(SchedEntry { tid: w.tid, stride: task.stride, pass: task.pass });
            } else {
                k.mutex_waiters.push(
                    MutexWaiter { tid: w.tid, mutex_id: w.mutex_id, governed: false },
                );
            }
            0
        },
        None => 0,
    }
}

/// Wait on condition variable `id`: atomically release `mutex_id`, block
/// the caller, and re-acquire on wake.  The release hands the lock to its
/// front waiter if one exists.  By design the release and re-acquire are
/// opaque to the detector: the waiting task keeps its recorded allocation,
/// and only a handed-over governed wait commits.
pub fn sys_condvar_wait(k: &mut Kernel, condvar_id: usize, mutex_id: usize) -> (r: isize)
    requires
        old(k).wf(),
        old(k).tasks@[old(k).current as int].status == TaskStatus::Running,
        old(k).tasks@[old(k).current as int].stride + old(k).tasks@[old(k).current as int].pass
            <= u64::MAX,
    ensures
        final(k).wf(),
        same_sem_state(final(k), old(k)),
        final(k).deadlock_detect == old(k).deadlock_detect,
        final(k).current == old(k).current,
        final(k).syscall_counts@ == old(k).syscall_counts@,
        final(k).condvars@ == old(k).condvars@,
        ({
            let t = old(k).current as int;
            let id = mutex_id as int;
            let ws = old(k).mutex_waiters@;
            if !old(k).valid_condvar(condvar_id as int) || !old(k).valid_mutex(id) {
                &&& r == -1
                &&& kernel_unchanged(final(k), old(k))
            } else {
                &&& r == 0
                &&& final(k).cond_waiters@ == old(k).cond_waiters@.push(
                    CondWaiter { tid: old(k).current, condvar_id, mutex_id },
                )
                &&& (if has_mutex_waiter(ws, id) {
                    ({
                        let w = ws[first_mutex_waiter(ws, id)];
                        &&& final(k).mutex_waiters@ == ws.remove(first_mutex_waiter(ws, id))
                        &&& final(k).mutexes@ == old(k).mutexes@
                        &&& final(k).tasks@ == old(k).tasks@.update(
                            w.tid as int,
                            Task { status: TaskStatus::Ready, ..old(k).tasks@[w.tid as int] },
                        ).update(t, Task { status: TaskStatus::Blocked, ..old(k).tasks@[t] })
                        &&& final(k).scheduler.ready_queue@ == old(k).scheduler.ready_queue@.push(
                            SchedEntry {
                                tid: w.tid,
                                stride: old(k).tasks@[w.tid as int].stride,
                                pass: old(k).tasks@[w.tid as int].pass,
                            },
                        )
                        &&& final(k).mutex_detector@ == (if w.governed {
                            with_alloc(old(k).mutex_detector@, w.tid as int, id, 1)
                        } else {
                            old(k).mutex_detector@
                        })
                    })
                } else {
                    final(k).mutex_waiters@ == ws && final(k).mutexes@ == old(k).mutexes@.update(
                        id,
                        Some(MutexSlot { locked: false, ..old(k).mutexes@[id].unwrap() }),
                    ) && final(k).tasks@ == old(k).tasks@.update(
                        t,
                        Task { status: TaskStatus::Blocked, ..old(k).tasks@[t] },
                    ) && final(k).scheduler.ready_queue@ == old(k).scheduler.ready_queue@
                        && final(k).mutex_detector@ == old(k).mutex_detector@
                })
            }
        }),
{
    if condvar_id >= k.condvars.len() {
        return -1;
    }
    if !k.condvars[condvar_id] {
        return -1;
    }
    if mutex_id >= k.mutexes.len() {
        return -1;
    }
    if k.mutexes[mutex_id].is_none() {
        return -1;
    }
    let t = k.current;
    match find_mutex_waiter(&k.mutex_waiters, mutex_id) {
        Some(i) => {
            let w = k.mutex_waiters.remove(i);
            let task = k.tasks[w.tid];
            k.tasks[w.tid] = Task { status: TaskStatus::Ready, ..task };
            k.scheduler.add(SchedEntry { tid: w.tid, stride: task.stride, pass: task.pass });
            if w.governed {
                k.mutex_detector.alloc_resource(w.tid, mutex_id, 1);
            }
        },
        None => {
            let slot = k.mutexes[mutex_id].unwrap();
            k.mutexes[mutex_id] = Some(MutexSlot { locked: false, ..slot });
        },
    }
    k.cond_waiters.push(CondWaiter { tid: t, condvar_id, mutex_id });
    let task = k.tasks[t];
    k.tasks[t] = Task { status: TaskStatus::Blocked, ..task };
    0
}

} // verus!
