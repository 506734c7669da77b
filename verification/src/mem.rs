//! Address-space region management: page-aligned mappings with explicit
//! permissions, and the program break.
//!
//! A mapping is a set of virtual pages, each carrying a permission byte
//! (Read = 1, Write = 2, Execute = 4, User = 8); pages of one address space
//! never overlap.  `sys_mmap` creates whole regions and fails without any
//! change when an argument is malformed or any page is already mapped;
//! `sys_munmap` tears pages down one at a time in ascending order and, on
//! hitting an unmapped page, fails while leaving the already-removed prefix
//! removed (no rollback, by design).

use vstd::prelude::*;

verus! {

/// Bytes in one virtual page.
pub const PAGE_SIZE: usize = 4096;

/// Permission bits of a mapped page.
pub const PERM_R: u8 = 1;

pub const PERM_W: u8 = 2;

pub const PERM_X: u8 = 4;

pub const PERM_USER: u8 = 8;

/// One mapped virtual page: its page number and its permission byte.
#[derive(Clone, Copy, PartialEq, Eq, Structural)]
pub struct MappedPage {
    pub vpn: usize,
    pub perm: u8,
}

/// A user address space: its mapped pages, plus the heap bounds that `sys_sbrk`
/// moves.  The heap itself is backed by the out-of-scope frame allocator; this
/// core only accounts for the break position.
pub struct AddressSpace {
    pub pages: Vec<MappedPage>,
    pub heap_bottom: usize,
    pub program_brk: usize,
}

pub open spec fn page_aligned(a: int) -> bool {
    a % (PAGE_SIZE as int) == 0
}

/// Number of pages covering `len` bytes: the ceiling of `len / PAGE_SIZE`.
/// A zero-length range covers no pages (the unsigned underflow in the naive
/// `(len - 1 + PAGE_SIZE) / PAGE_SIZE` is special-cased away explicitly).
pub open spec fn page_count(len: int) -> int {
    if len == 0 {
        0
    } else {
        (len - 1) / (PAGE_SIZE as int) + 1
    }
}

impl AddressSpace {
    /// Pages never overlap, and the break sits above the heap bottom.
    pub open spec fn wf(&self) -> bool {
        &&& forall|i: int, j: int|
            0 <= i < self.pages@.len() && 0 <= j < self.pages@.len() && i != j
                ==> (#[trigger] self.pages@[i]).vpn != (#[trigger] self.pages@[j]).vpn
        &&& self.heap_bottom <= self.program_brk
        &&& self.program_brk <= isize::MAX as usize
    }

    /// Page `vpn` is mapped.
    pub open spec fn is_mapped(&self, vpn: int) -> bool {
        exists|i: int| 0 <= i < self.pages@.len() && (#[trigger] self.pages@[i]).vpn == vpn
    }

    /// Page `vpn` is mapped with permission byte `perm`.
    pub open spec fn has_entry(&self, vpn: int, perm: u8) -> bool {
        exists|i: int|
            0 <= i < self.pages@.len() && (#[trigger] self.pages@[i]).vpn == vpn
                && self.pages@[i].perm == perm
    }

    /// An empty address space with the given heap bounds.
    pub fn new(heap_bottom: usize, program_brk: usize) -> (a: AddressSpace)
        requires
            heap_bottom <= program_brk,
            program_brk <= isize::MAX as usize,
        ensures
            a.wf(),
            a.pages@ == Seq::<MappedPage>::empty(),
            a.heap_bottom == heap_bottom,
            a.program_brk == program_brk,
    {
        AddressSpace { pages: Vec::new(), heap_bottom, program_brk }
    }

    /// Remove the entry for `vpn`, if any; reports whether it was mapped.
    #[verifier::loop_isolation(false)]
    fn remove_page(&mut self, vpn: usize) -> (r: bool)
        requires
            old(self).wf(),
        ensures
            final(self).wf(),
            r == old(self).is_mapped(vpn as int),
            !final(self).is_mapped(vpn as int),
            forall|q: int, pm: u8|
                q != vpn ==> (final(self).has_entry(q, pm) <==> old(self).has_entry(q, pm)),
            forall|q: int| q != vpn ==> (final(self).is_mapped(q) <==> old(self).is_mapped(q)),
            final(self).heap_bottom == old(self).heap_bottom,
            final(self).program_brk == old(self).program_brk,
    {
        let n = self.pages.len();
        let mut i: usize = 0;
        while i < n
            invariant
                i <= n,
                self.pages@ == old(self).pages@,
                self.heap_bottom == old(self).heap_bottom,
                self.program_brk == old(self).program_brk,
                forall|k: int| 0 <= k < i ==> (#[trigger] self.pages@[k]).vpn != vpn,
            decreases n - i,
        {
            if self.pages[i].vpn == vpn {
                let ghost pre = self.pages@;
                self.pages.remove(i);
                proof {
                    assert forall|k: int| 0 <= k < self.pages@.len()
                        implies #[trigger] self.pages@[k] == (if k < i {
                            pre[k]
                        } else {
                            pre[k + 1]
                        }) by {}
                    assert(old(self).is_mapped(vpn as int));
                    assert forall|q: int| !(#[trigger] self.is_mapped(q)) || q != vpn
                        implies true by {}
                    assert forall|q: int| #[trigger] self.is_mapped(q) && q == vpn
                        implies false by {
                        let k = choose|k: int|
                            0 <= k < self.pages@.len() && self.pages@[k].vpn == q;
                        if k < i {
                            assert(pre[k].vpn == vpn);
                        } else {
                            assert(pre[k + 1].vpn == vpn && pre[i as int].vpn == vpn);
                        }
                    }
                    assert(!self.is_mapped(vpn as int));
                    assert forall|q: int, pm: u8| q != vpn
                        implies (#[trigger] self.has_entry(q, pm) <==> old(self).has_entry(
                            q,
                            pm,
                        )) by {
                        if self.has_entry(q, pm) {
                            let k = choose|k: int|
                                0 <= k < self.pages@.len() && self.pages@[k].vpn == q
                                    && self.pages@[k].perm == pm;
                            let k0 = if k < i { k } else { k + 1 };
                            assert(pre[k0].vpn == q && pre[k0].perm == pm);
                        }
                        if old(self).has_entry(q, pm) {
                            let k = choose|k: int|
                                0 <= k < pre.len() && pre[k].vpn == q && pre[k].perm == pm;
                            assert(k != i);
                            let k1 = if k < i { k } else { k - 1 };
                            assert(self.pages@[k1].vpn == q && self.pages@[k1].perm == pm);
                        }
                    }
                    assert forall|q: int| q != vpn
                        implies (#[trigger] self.is_mapped(q) <==> old(self).is_mapped(q)) by {
                        if self.is_mapped(q) {
                            let k = choose|k: int|
                                0 <= k < self.pages@.len() && self.pages@[k].vpn == q;
                            let k0 = if k < i { k } else { k + 1 };
                            assert(pre[k0].vpn == q);
                        }
                        if old(self).is_mapped(q) {
                            let k = choose|k: int| 0 <= k < pre.len() && pre[k].vpn == q;
                            assert(k != i);
                            let k1 = if k < i { k } else { k - 1 };
                            assert(self.pages@[k1].vpn == q);
                        }
                    }
                }
                return true;
            }
            i = i + 1;
        }
        false
    }
}

/// Find the index of the entry mapping `vpn`, if any.
#[verifier::loop_isolation(false)]
fn find_page(pages: &Vec<MappedPage>, vpn: usize) -> (r: Option<usize>)
    ensures
        match r {
            Some(i) => i < pages@.len() && pages@[i as int].vpn == vpn,
            None => forall|k: int| 0 <= k < pages@.len() ==> (#[trigger] pages@[k]).vpn != vpn,
        },
{
    let n = pages.len();
    let mut i: usize = 0;
    while i < n
        invariant
            i <= n,
            forall|k: int| 0 <= k < i ==> (#[trigger] pages@[k]).vpn != vpn,
        decreases n - i,
    {
        if pages[i].vpn == vpn {
            return Some(i);
        }
        i = i + 1;
    }
    None
}

/// Map `page_count(len)` pages starting at `start` with the permission bits
/// `port` (Read = 1, Write = 2, Execute = 4); the created pages additionally
/// carry the User bit.  Fails with `-1`, changing nothing, when `start` is
/// not page-aligned, when `port` is `0` or above `7`, or when any page of
/// the range is already mapped.
#[verifier::loop_isolation(false)]
pub fn sys_mmap(a: &mut AddressSpace, start: usize, len: usize, port: usize) -> (r: isize)
    requires
        old(a).wf(),
        start as int / PAGE_SIZE as int + page_count(len as int) <= usize::MAX,
    ensures
        final(a).wf(),
        final(a).heap_bottom == old(a).heap_bottom,
        final(a).program_brk == old(a).program_brk,
        ({
            let vpn0 = start as int / PAGE_SIZE as int;
            let cnt = page_count(len as int);
            let bad = !page_aligned(start as int) || port == 0 || port > 7;
            let conflict = exists|q: int| vpn0 <= q < vpn0 + cnt && #[trigger] old(a).is_mapped(q);
            if bad || conflict {
                r == -1 && final(a).pages@ == old(a).pages@
            } else {
                r == 0
                && (forall|q: int|
                    vpn0 <= q < vpn0 + cnt ==> #[trigger] final(a).has_entry(q, (port + 8) as u8))
                && (forall|q: int|
                    #[trigger] final(a).is_mapped(q)
                        <==> old(a).is_mapped(q) || vpn0 <= q < vpn0 + cnt)
                && (forall|q: int, pm: u8|
                    !(vpn0 <= q < vpn0 + cnt)
                        ==> (#[trigger] final(a).has_entry(q, pm) <==> old(a).has_entry(q, pm)))
            }
        }),
{
    if start % PAGE_SIZE != 0 {
        return -1;
    }
    if port == 0 || port > 7 {
        return -1;
    }
    let vpn0 = start / PAGE_SIZE;
    let cnt = if len == 0 {
        0
    } else {
        (len - 1) / PAGE_SIZE + 1
    };
    let perm = (port as u8) + 8;
    let mut q: usize = 0;
    while q < cnt
        invariant
            q <= cnt,
            forall|p: int| vpn0 <= p < vpn0 + q ==> !(#[trigger] old(a).is_mapped(p)),
            a.pages@ == old(a).pages@,
            a.heap_bottom == old(a).heap_bottom,
            a.program_brk == old(a).program_brk,
        decreases cnt - q,
    {
        match find_page(&a.pages, vpn0 + q) {
            Some(i) => {
                proof {
                    assert(a.pages@[i as int].vpn == vpn0 + q);
                    assert(old(a).is_mapped(vpn0 + q as int));
                }
                return -1;
            },
            None => {},
        }
        proof {
            assert(!old(a).is_mapped(vpn0 + q as int));
        }
        q = q + 1;
    }
    let mut w: usize = 0;
    while w < cnt
        invariant
            w <= cnt,
            a.wf(),
            a.heap_bottom == old(a).heap_bottom,
            a.program_brk == old(a).program_brk,
            forall|p: int| vpn0 <= p < vpn0 + cnt ==> !(#[trigger] old(a).is_mapped(p)),
            forall|p: int| vpn0 <= p < vpn0 + w ==> #[trigger] a.has_entry(p, perm),
            forall|p: int| #[trigger] a.is_mapped(p)
                <==> old(a).is_mapped(p) || vpn0 <= p < vpn0 + w,
            forall|p: int, pm: u8|
                !(vpn0 <= p < vpn0 + w) ==> (#[trigger] a.has_entry(p, pm) <==> old(a).has_entry(p, pm)),
        decreases cnt - w,
    {
        let ghost a_prev = *a;
        let ghost pre = a.pages@;
        proof {
            assert(!a_prev.is_mapped(vpn0 + w as int));
        }
        a.pages.push(MappedPage { vpn: vpn0 + w, perm });
        proof {
            let entry = MappedPage { vpn: (vpn0 + w) as usize, perm };
            assert(a.pages@ == pre.push(entry));
            assert(a.pages@[pre.len() as int] == entry);
            assert(a.has_entry(vpn0 + w as int, perm));
            assert forall|i: int, j: int|
                0 <= i < a.pages@.len() && 0 <= j < a.pages@.len() && i != j
                implies (#[trigger] a.pages@[i]).vpn != (#[trigger] a.pages@[j]).vpn by {
                if i == pre.len() {
                    if pre[j].vpn == entry.vpn {
                        assert(a_prev.pages@[j].vpn == entry.vpn);
                        assert(a_prev.is_mapped(vpn0 + w as int));
                    }
                } else if j == pre.len() {
                    if pre[i].vpn == entry.vpn {
                        assert(a_prev.pages@[i].vpn == entry.vpn);
                        assert(a_prev.is_mapped(vpn0 + w as int));
                    }
                }
            }
            assert forall|p: int| vpn0 <= p < vpn0 + w + 1
                implies #[trigger] a.has_entry(p, perm) by {
                if p < vpn0 + w {
                    assert(a_prev.has_entry(p, perm));
                    let k = choose|k: int|
                        0 <= k < pre.len() && a_prev.pages@[k].vpn == p
                            && a_prev.pages@[k].perm == perm;
                    assert(a.pages@[k].vpn == p && a.pages@[k].perm == perm);
                }
            }
            assert forall|p: int| #[trigger] a.is_mapped(p)
                implies old(a).is_mapped(p) || vpn0 <= p < vpn0 + w + 1 by {
                let k = choose|k: int| 0 <= k < a.pages@.len() && a.pages@[k].vpn == p;
                if k < pre.len() {
                    assert(a_prev.pages@[k].vpn == p);
                    assert(a_prev.is_mapped(p));
                }
            }
            assert forall|p: int| old(a).is_mapped(p) || vpn0 <= p < vpn0 + w + 1
                implies #[trigger] a.is_mapped(p) by {
                if old(a).is_mapped(p) {
                    assert(a_prev.is_mapped(p));
                    let k = choose|k: int|
                        0 <= k < pre.len() && a_prev.pages@[k].vpn == p;
                    assert(a.pages@[k].vpn == p);
                } else if p == vpn0 + w {
                    assert(a.pages@[pre.len() as int].vpn == p);
                } else {
                    assert(a_prev.is_mapped(p));
                    let k = choose|k: int|
                        0 <= k < pre.len() && a_prev.pages@[k].vpn == p;
                    assert(a.pages@[k].vpn == p);
                }
            }
            assert forall|p: int, pm: u8| !(vpn0 <= p < vpn0 + w + 1)
                implies (#[trigger] a.has_entry(p, pm) <==> old(a).has_entry(p, pm)) by {
                if a.has_entry(p, pm) {
                    let k = choose|k: int|
                        0 <= k < a.pages@.len() && a.pages@[k].vpn == p && a.pages@[k].perm == pm;
                    assert(k < pre.len());
                    assert(a_prev.pages@[k].vpn == p && a_prev.pages@[k].perm == pm);
                    assert(a_prev.has_entry(p, pm));
                }
                if old(a).has_entry(p, pm) {
                    assert(a_prev.has_entry(p, pm));
                    let k = choose|k: int|
                        0 <= k < pre.len() && a_prev.pages@[k].vpn == p
                            && a_prev.pages@[k].perm == pm;
                    assert(a.pages@[k].vpn == p && a.pages@[k].perm == pm);
                }
            }
        }
        w = w + 1;
    }
    0
}

/// Unmap `page_count(len)` pages starting at `start`, in ascending order.
/// Fails with `-1` and no change when `start` is misaligned.  Fails with
/// `-1` at the first page of the range that is not mapped; pages of the
/// range before it stay unmapped (no rollback).
#[verifier::loop_isolation(false)]
pub fn sys_munmap(a: &mut AddressSpace, start: usize, len: usize) -> (r: isize)
    requires
        old(a).wf(),
        start as int / PAGE_SIZE as int + page_count(len as int) <= usize::MAX,
    ensures
        final(a).wf(),
        final(a).heap_bottom == old(a).heap_bottom,
        final(a).program_brk == old(a).program_brk,
        ({
            let vpn0 = start as int / PAGE_SIZE as int;
            let cnt = page_count(len as int);
            if !page_aligned(start as int) {
                r == -1 && final(a).pages@ == old(a).pages@
            } else if forall|k: int| 0 <= k < cnt ==> #[trigger] old(a).is_mapped(vpn0 + k) {
                r == 0
                && (forall|p: int| #[trigger] final(a).is_mapped(p)
                    <==> old(a).is_mapped(p) && !(vpn0 <= p < vpn0 + cnt))
                && (forall|p: int, pm: u8|
                    !(vpn0 <= p < vpn0 + cnt)
                        ==> (#[trigger] final(a).has_entry(p, pm) <==> old(a).has_entry(p, pm)))
            } else {
                r == -1 && exists|f: int|
                    {
                        &&& 0 <= f < cnt
                        &&& !(#[trigger] old(a).is_mapped(vpn0 + f))
                        &&& (forall|k: int| 0 <= k < f ==> #[trigger] old(a).is_mapped(vpn0 + k))
                        &&& (forall|p: int| #[trigger] final(a).is_mapped(p)
                            <==> old(a).is_mapped(p) && !(vpn0 <= p < vpn0 + f))
                        &&& (forall|p: int, pm: u8|
                            !(vpn0 <= p < vpn0 + f)
                                ==> (#[trigger] final(a).has_entry(p, pm) <==> old(a).has_entry(p, pm)))
                    }
            }
        }),
{
    if start % PAGE_SIZE != 0 {
        return -1;
    }
    let vpn0 = start / PAGE_SIZE;
    let cnt = if len == 0 {
        0
    } else {
        (len - 1) / PAGE_SIZE + 1
    };
    let mut q: usize = 0;
    while q < cnt
        invariant
            q <= cnt,
            a.wf(),
            a.heap_bottom == old(a).heap_bottom,
            a.program_brk == old(a).program_brk,
            forall|p: int| vpn0 <= p < vpn0 + q ==> #[trigger] old(a).is_mapped(p),
            forall|p: int| #[trigger] a.is_mapped(p)
                <==> old(a).is_mapped(p) && !(vpn0 <= p < vpn0 + q),
            forall|p: int, pm: u8|
                !(vpn0 <= p < vpn0 + q) ==> (#[trigger] a.has_entry(p, pm) <==> old(a).has_entry(p, pm)),
        decreases cnt - q,
    {
        let ghost before = *a;
        let was_mapped = a.remove_page(vpn0 + q);
        if !was_mapped {
            proof {
                assert(!old(a).is_mapped(vpn0 + q as int));
                assert forall|p: int| #[trigger] a.is_mapped(p)
                    implies old(a).is_mapped(p) && !(vpn0 <= p < vpn0 + q as int) by {
                    assert(before.is_mapped(p));
                }
            }
            return -1;
        }
        q = q + 1;
    }
    0
}

/// Move the program break by `size` bytes (negative shrinks).  Returns the
/// old break on success; fails with `-1`, changing nothing, when the new
/// break would sink below the heap bottom or leave the machine address
/// range.
pub fn sys_sbrk(a: &mut AddressSpace, size: i32) -> (r: isize)
    requires
        old(a).wf(),
    ensures
        final(a).wf(),
        final(a).pages@ == old(a).pages@,
        final(a).heap_bottom == old(a).heap_bottom,
        ({
            let nb = old(a).program_brk + size as int;
            if old(a).heap_bottom <= nb <= isize::MAX {
                r == old(a).program_brk as isize && final(a).program_brk == nb
            } else {
                r == -1 && final(a).program_brk == old(a).program_brk
            }
        }),
{
    let old_brk = a.program_brk;
    if size >= 0 {
        let grow = size as usize;
        if grow > (isize::MAX as usize) - old_brk {
            return -1;
        }
        a.program_brk = old_brk + grow;
        old_brk as isize
    } else {
        let shrink = (-(size as i64)) as usize;
        if shrink > old_brk || old_brk - shrink < a.heap_bottom {
            return -1;
        }
        a.program_brk = old_brk - shrink;
        old_brk as isize
    }
}

} // verus!
