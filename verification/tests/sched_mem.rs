use proc_gov::mem::sys_mmap;
use proc_gov::mem::sys_munmap;
use proc_gov::mem::sys_sbrk;
use proc_gov::mem::AddressSpace;
use proc_gov::mem::PAGE_SIZE;
use proc_gov::sched::SchedEntry;
use proc_gov::sched::TaskManager;
use proc_gov::task::sys_get_time;

fn mapped(a: &AddressSpace, vpn: usize) -> Option<u8> {
    a.pages.iter().find(|p| p.vpn == vpn).map(|p| p.perm)
}

#[test]
fn fetch_returns_minimum_stride_and_advances_it() {
    let mut m = TaskManager::new();
    m.add(SchedEntry { tid: 0, stride: 30, pass: 10 });
    m.add(SchedEntry { tid: 1, stride: 20, pass: 5 });
    m.add(SchedEntry { tid: 2, stride: 25, pass: 7 });
    let e = m.fetch().unwrap();
    assert_eq!(e.tid, 1);
    assert_eq!(e.stride, 25);
    // the untouched entries keep their relative order
    assert_eq!(m.ready_queue[0].tid, 0);
    assert_eq!(m.ready_queue[1].tid, 2);
    m.add(e);
    let e2 = m.fetch().unwrap();
    assert_eq!(e2.tid, 2);
    assert_eq!(e2.stride, 32);
}

#[test]
fn fetch_breaks_ties_deterministically() {
    let mut m = TaskManager::new();
    m.add(SchedEntry { tid: 7, stride: 4, pass: 1 });
    m.add(SchedEntry { tid: 8, stride: 4, pass: 1 });
    let e = m.fetch().unwrap();
    assert_eq!(e.tid, 7);
    assert_eq!(e.stride, 5);
}

#[test]
fn fetch_on_empty_ready_set_is_none() {
    let mut m = TaskManager::new();
    assert!(m.fetch().is_none());
}

#[test]
fn proportional_share_favors_high_priority() {
    // pass = BIG_STRIDE / priority: priority 2 runs twice as often as 1
    let mut m = TaskManager::new();
    m.add(SchedEntry { tid: 0, stride: 0, pass: 100 });
    m.add(SchedEntry { tid: 1, stride: 0, pass: 50 });
    let mut runs = [0usize; 2];
    for _ in 0..30 {
        let e = m.fetch().unwrap();
        runs[e.tid] += 1;
        m.add(e);
    }
    assert_eq!(runs[0], 10);
    assert_eq!(runs[1], 20);
}

#[test]
fn mmap_rejects_bad_arguments_without_change() {
    let mut a = AddressSpace::new(0, 0);
    assert_eq!(sys_mmap(&mut a, 123, PAGE_SIZE, 1), -1);
    assert_eq!(sys_mmap(&mut a, 4 * PAGE_SIZE, PAGE_SIZE, 0), -1);
    assert_eq!(sys_mmap(&mut a, 4 * PAGE_SIZE, PAGE_SIZE, 8), -1);
    assert_eq!(sys_mmap(&mut a, 4 * PAGE_SIZE, PAGE_SIZE, 100), -1);
    assert_eq!(a.pages.len(), 0);
}

#[test]
fn mmap_maps_user_pages_and_rejects_overlap() {
    let mut a = AddressSpace::new(0, 0);
    assert_eq!(sys_mmap(&mut a, PAGE_SIZE, 2 * PAGE_SIZE + 1, 3), 0);
    // ceiling page count: three pages, each readable, writable and user
    assert_eq!(a.pages.len(), 3);
    assert_eq!(mapped(&a, 1), Some(3 | 8));
    assert_eq!(mapped(&a, 2), Some(3 | 8));
    assert_eq!(mapped(&a, 3), Some(3 | 8));
    assert_eq!(mapped(&a, 4), None);
    // any already-mapped page in the range fails the whole call
    assert_eq!(sys_mmap(&mut a, 3 * PAGE_SIZE, PAGE_SIZE, 1), -1);
    assert_eq!(a.pages.len(), 3);
    assert_eq!(mapped(&a, 3), Some(3 | 8));
}

#[test]
fn mmap_of_zero_length_maps_nothing() {
    let mut a = AddressSpace::new(0, 0);
    assert_eq!(sys_mmap(&mut a, PAGE_SIZE, 0, 7), 0);
    assert_eq!(a.pages.len(), 0);
    assert_eq!(sys_munmap(&mut a, PAGE_SIZE, 0), 0);
}

#[test]
fn munmap_of_unmapped_first_page_changes_nothing() {
    let mut a = AddressSpace::new(0, 0);
    assert_eq!(sys_mmap(&mut a, 5 * PAGE_SIZE, PAGE_SIZE, 1), 0);
    assert_eq!(sys_munmap(&mut a, PAGE_SIZE, PAGE_SIZE), -1);
    assert_eq!(a.pages.len(), 1);
    assert_eq!(mapped(&a, 5), Some(1 | 8));
}

#[test]
fn munmap_unmaps_prefix_then_fails_without_rollback() {
    let mut a = AddressSpace::new(0, 0);
    assert_eq!(sys_mmap(&mut a, PAGE_SIZE, 2 * PAGE_SIZE, 1), 0);
    // range covers three pages but only two are mapped
    assert_eq!(sys_munmap(&mut a, PAGE_SIZE, 3 * PAGE_SIZE), -1);
    assert_eq!(mapped(&a, 1), None);
    assert_eq!(mapped(&a, 2), None);
    assert_eq!(a.pages.len(), 0);
}

#[test]
fn munmap_whole_range_succeeds() {
    let mut a = AddressSpace::new(0, 0);
    assert_eq!(sys_mmap(&mut a, 2 * PAGE_SIZE, 2 * PAGE_SIZE, 7), 0);
    assert_eq!(sys_munmap(&mut a, 2 * PAGE_SIZE, 2 * PAGE_SIZE), 0);
    assert_eq!(a.pages.len(), 0);
    assert_eq!(sys_mmap(&mut a, 2 * PAGE_SIZE, PAGE_SIZE, 7), 0);
}

#[test]
fn munmap_rejects_misaligned_start() {
    let mut a = AddressSpace::new(0, 0);
    assert_eq!(sys_mmap(&mut a, PAGE_SIZE, PAGE_SIZE, 1), 0);
    assert_eq!(sys_munmap(&mut a, PAGE_SIZE + 1, PAGE_SIZE), -1);
    assert_eq!(a.pages.len(), 1);
}

#[test]
fn sbrk_moves_the_break_and_reports_the_old_one() {
    let mut a = AddressSpace::new(0x10000, 0x10000);
    assert_eq!(sys_sbrk(&mut a, 4096), 0x10000);
    assert_eq!(sys_sbrk(&mut a, 0), 0x11000);
    assert_eq!(sys_sbrk(&mut a, -4096), 0x11000);
    // sinking below the heap bottom is rejected with no change
    assert_eq!(sys_sbrk(&mut a, -1), -1);
    assert_eq!(sys_sbrk(&mut a, 0), 0x10000);
}

#[test]
fn get_time_splits_microseconds() {
    let (tv, code) = sys_get_time(1_234_567);
    assert_eq!(code, 0);
    assert_eq!(tv.sec, 1);
    assert_eq!(tv.usec, 234_567);
    let (tv2, _) = sys_get_time(999_999);
    assert_eq!(tv2.sec, 0);
    assert_eq!(tv2.usec, 999_999);
}
