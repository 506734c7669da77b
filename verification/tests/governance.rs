use proc_gov::detector::DeadlockDetector;
use proc_gov::kernel::destroy_condvar;
use proc_gov::kernel::destroy_mutex;
use proc_gov::kernel::destroy_semaphore;
use proc_gov::kernel::sys_condvar_create;
use proc_gov::kernel::sys_condvar_signal;
use proc_gov::kernel::sys_condvar_wait;
use proc_gov::kernel::sys_enable_deadlock_detect;
use proc_gov::kernel::sys_exit;
use proc_gov::kernel::sys_mutex_create;
use proc_gov::kernel::sys_mutex_lock;
use proc_gov::kernel::sys_mutex_unlock;
use proc_gov::kernel::sys_semaphore_create;
use proc_gov::kernel::sys_semaphore_down;
use proc_gov::kernel::sys_semaphore_up;
use proc_gov::kernel::sys_sleep;
use proc_gov::kernel::sys_task_info;
use proc_gov::kernel::sys_yield;
use proc_gov::kernel::Kernel;
use proc_gov::kernel::DEADLOCK_CODE;
use proc_gov::task::TaskStatus;

/// Two tasks, two locks, detection on: the second cross acquisition is
/// rejected as unsafe, and the rejection changes nothing but the need.
fn cross_lock_kernel() -> Kernel {
    let mut k = Kernel::new();
    let t1 = k.spawn_task(16);
    assert_eq!(t1, 1);
    assert_eq!(sys_enable_deadlock_detect(&mut k, 1), 0);
    assert_eq!(sys_mutex_create(&mut k, true), 0);
    assert_eq!(sys_mutex_create(&mut k, true), 1);
    // task 0 takes lock 0, then yields
    assert_eq!(sys_mutex_lock(&mut k, 0), 0);
    assert_eq!(sys_yield(&mut k), 0);
    assert_eq!(k.dispatch(10), Some(1));
    // task 1 takes lock 1, then requests lock 0 (safe: task 0 can finish)
    assert_eq!(sys_mutex_lock(&mut k, 1), 0);
    assert_eq!(sys_mutex_lock(&mut k, 0), 0);
    assert!(k.tasks[1].status == TaskStatus::Blocked);
    assert_eq!(k.dispatch(20), Some(0));
    k
}

#[test]
fn deadlock_avoidance_rejects_cyclic_wait() {
    let mut k = cross_lock_kernel();
    let avail = k.mutex_detector.available.clone();
    let alloc = k.mutex_detector.allocation.clone();
    // task 0 requesting lock 1 closes the cycle: rejected, nothing granted
    assert_eq!(sys_mutex_lock(&mut k, 1), DEADLOCK_CODE);
    assert_eq!(DEADLOCK_CODE, -57005);
    assert_eq!(k.mutex_detector.available, avail);
    assert_eq!(k.mutex_detector.allocation, alloc);
    assert_eq!(k.mutex_detector.need[0][1], 1);
    assert!(k.tasks[0].status == TaskStatus::Running);
}

#[test]
fn disabling_avoidance_blocks_instead_of_failing_fast() {
    let mut k = cross_lock_kernel();
    assert_eq!(sys_enable_deadlock_detect(&mut k, 0), 0);
    // the same request now goes to the real acquire and suspends
    assert_eq!(sys_mutex_lock(&mut k, 1), 0);
    assert!(k.tasks[0].status == TaskStatus::Blocked);
    assert!(k.tasks[1].status == TaskStatus::Blocked);
    // nothing left to dispatch: both tasks wait on each other
    assert_eq!(k.dispatch(30), None);
}

#[test]
fn banker_reports_unsafe_on_cross_request() {
    let mut d = DeadlockDetector::new();
    d.push_task();
    d.push_task();
    d.push_resource(1);
    d.push_resource(1);
    d.alloc_resource(0, 0, 1);
    d.alloc_resource(1, 1, 1);
    d.set_need(0, 1, 1);
    d.set_need(1, 0, 1);
    assert!(!d.detect());
}

#[test]
fn banker_reports_safe_on_classic_example() {
    let mut d = DeadlockDetector::new();
    for _ in 0..3 {
        d.push_task();
    }
    d.push_resource(10);
    d.push_resource(5);
    d.push_resource(7);
    // allocation: t0 (0,1,0), t1 (2,0,0), t2 (3,0,2) -> available (5,4,5)
    d.alloc_resource(0, 1, 1);
    d.alloc_resource(1, 0, 2);
    d.alloc_resource(2, 0, 3);
    d.alloc_resource(2, 2, 2);
    d.set_need(0, 0, 7);
    d.set_need(0, 1, 4);
    d.set_need(0, 2, 3);
    d.set_need(1, 0, 1);
    d.set_need(1, 2, 2);
    d.set_need(2, 0, 6);
    d.set_need(2, 2, 0);
    assert_eq!(d.available, vec![5, 4, 5]);
    assert!(d.detect());
}

#[test]
fn rejected_request_keeps_need_only() {
    let mut k = Kernel::new();
    k.spawn_task(16);
    assert_eq!(sys_enable_deadlock_detect(&mut k, 1), 0);
    assert_eq!(sys_semaphore_create(&mut k, 0), 0);
    // zero units and a recorded need: no completion order for the requester
    let r = sys_semaphore_down(&mut k, 0);
    assert_eq!(r, DEADLOCK_CODE);
    assert_eq!(k.semaphore_detector.available[0], 0);
    assert_eq!(k.semaphore_detector.allocation[0][0], 0);
    assert_eq!(k.semaphore_detector.need[0][0], 1);
    assert_eq!(k.semaphores[0].unwrap().count, 0);
}

#[test]
fn slot_ids_are_reused_lowest_first() {
    let mut k = Kernel::new();
    assert_eq!(sys_mutex_create(&mut k, true), 0);
    assert_eq!(sys_mutex_create(&mut k, false), 1);
    assert_eq!(destroy_mutex(&mut k, 0), 0);
    assert_eq!(sys_mutex_create(&mut k, true), 0);
    assert_eq!(sys_semaphore_create(&mut k, 2), 0);
    assert_eq!(sys_semaphore_create(&mut k, 3), 1);
    assert_eq!(destroy_semaphore(&mut k, 1), 0);
    assert_eq!(sys_semaphore_create(&mut k, 5), 1);
    assert_eq!(sys_condvar_create(&mut k), 0);
    assert_eq!(sys_condvar_create(&mut k), 1);
    assert_eq!(destroy_condvar(&mut k, 0), 0);
    assert_eq!(sys_condvar_create(&mut k), 0);
}

#[test]
fn recycled_slot_does_not_reregister() {
    let mut k = Kernel::new();
    assert_eq!(sys_mutex_create(&mut k, true), 0);
    assert_eq!(k.mutex_detector.total.len(), 1);
    assert_eq!(destroy_mutex(&mut k, 0), 0);
    assert_eq!(sys_mutex_create(&mut k, true), 0);
    // the detector column survived the release: no second registration
    assert_eq!(k.mutex_detector.total.len(), 1);
    assert_eq!(k.mutex_detector.total[0], 1);
}

#[test]
fn invalid_resource_ids_are_rejected() {
    let mut k = Kernel::new();
    assert_eq!(sys_mutex_lock(&mut k, 3), -1);
    assert_eq!(sys_mutex_unlock(&mut k, 3), -1);
    assert_eq!(sys_semaphore_down(&mut k, 0), -1);
    assert_eq!(sys_semaphore_up(&mut k, 0), -1);
    assert_eq!(sys_condvar_signal(&mut k, 0), -1);
    assert_eq!(sys_condvar_wait(&mut k, 0, 0), -1);
    assert_eq!(destroy_mutex(&mut k, 0), -1);
    assert_eq!(sys_enable_deadlock_detect(&mut k, 2), -1);
}

#[test]
fn semaphore_blocks_and_hands_over() {
    let mut k = Kernel::new();
    k.spawn_task(16);
    assert_eq!(sys_semaphore_create(&mut k, 1), 0);
    assert_eq!(sys_semaphore_down(&mut k, 0), 0);
    assert_eq!(k.semaphores[0].unwrap().count, 0);
    assert_eq!(sys_yield(&mut k), 0);
    assert_eq!(k.dispatch(5), Some(1));
    assert_eq!(sys_semaphore_down(&mut k, 0), 0);
    assert!(k.tasks[1].status == TaskStatus::Blocked);
    assert_eq!(k.semaphores[0].unwrap().count, -1);
    assert_eq!(k.dispatch(6), Some(0));
    assert_eq!(sys_semaphore_up(&mut k, 0), 0);
    assert!(k.tasks[1].status == TaskStatus::Ready);
    assert_eq!(k.semaphores[0].unwrap().count, 0);
}

#[test]
fn condvar_wait_releases_and_signal_reacquires() {
    let mut k = Kernel::new();
    k.spawn_task(16);
    assert_eq!(sys_mutex_create(&mut k, true), 0);
    assert_eq!(sys_condvar_create(&mut k), 0);
    assert_eq!(sys_mutex_lock(&mut k, 0), 0);
    assert_eq!(sys_condvar_wait(&mut k, 0, 0), 0);
    // the lock was released by the wait, the caller is suspended
    assert!(!k.mutexes[0].unwrap().locked);
    assert!(k.tasks[0].status == TaskStatus::Blocked);
    assert_eq!(k.dispatch(3), Some(1));
    // signal wakes at most one waiter; it re-acquires the free lock
    assert_eq!(sys_condvar_signal(&mut k, 0), 0);
    assert!(k.mutexes[0].unwrap().locked);
    assert!(k.tasks[0].status == TaskStatus::Ready);
    // a second signal has nobody to wake
    assert_eq!(sys_condvar_signal(&mut k, 0), 0);
}

#[test]
fn sleep_blocks_until_timer_wakeup() {
    let mut k = Kernel::new();
    k.spawn_task(16);
    let (code, expire) = sys_sleep(&mut k, 100, 50);
    assert_eq!(code, 0);
    assert_eq!(expire, 150);
    assert!(k.tasks[0].status == TaskStatus::Blocked);
    assert_eq!(k.dispatch(101), Some(1));
    k.wakeup_task(0);
    assert!(k.tasks[0].status == TaskStatus::Ready);
}

#[test]
fn exit_is_final() {
    let mut k = Kernel::new();
    k.spawn_task(16);
    sys_exit(&mut k, 0);
    assert!(k.tasks[0].status == TaskStatus::Exited);
    assert_eq!(k.dispatch(1), Some(1));
    assert!(k.tasks[0].status == TaskStatus::Exited);
}

#[test]
fn task_info_reports_counters_and_running_time() {
    let mut k = Kernel::new();
    k.record_syscall(64);
    k.record_syscall(64);
    k.record_syscall(124);
    let (info, code) = sys_task_info(&k, 250);
    assert_eq!(code, 0);
    assert!(info.status == TaskStatus::Running);
    assert_eq!(info.syscall_times[64], 2);
    assert_eq!(info.syscall_times[124], 1);
    assert_eq!(info.syscall_times[0], 0);
    assert_eq!(info.time, 250);
}

#[test]
fn unlock_hands_the_lock_to_the_front_waiter() {
    let mut k = cross_lock_kernel();
    // task 1 waits for lock 0 held by task 0; the release hands it over
    assert_eq!(sys_mutex_unlock(&mut k, 0), 0);
    assert!(k.mutexes[0].unwrap().locked);
    assert!(k.tasks[1].status == TaskStatus::Ready);
    // the handover committed the waiter's allocation
    assert_eq!(k.mutex_detector.allocation[1][0], 1);
    assert_eq!(k.mutex_detector.allocation[0][0], 0);
    assert_eq!(k.mutex_detector.need[1][0], 0);
    assert_eq!(k.mutex_detector.available[0], 0);
}

#[test]
fn dispatch_records_the_first_run_once() {
    let mut k = Kernel::new();
    let t1 = k.spawn_task(16);
    assert!(!k.tasks[t1].dispatched);
    assert_eq!(sys_yield(&mut k), 0);
    assert_eq!(k.dispatch(42), Some(t1));
    assert_eq!(k.tasks[t1].first_time, 42);
    assert_eq!(sys_yield(&mut k), 0);
    assert_eq!(k.dispatch(99), Some(0));
    assert_eq!(sys_yield(&mut k), 0);
    assert_eq!(k.dispatch(120), Some(t1));
    // the first-dispatch time is never overwritten
    assert_eq!(k.tasks[t1].first_time, 42);
}
