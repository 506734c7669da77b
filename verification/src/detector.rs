//! Banker's-algorithm deadlock avoidance.
//!
//! The detector keeps, per resource `r` and task `t`, the free instances
//! `available[r]`, the held instances `allocation[t][r]`, and the recorded
//! outstanding request `need[t][r]`.  `total[r]` is the instance count the
//! resource was registered with; the conservation invariant says
//! `available[r] + sum of allocation[..][r] == total[r]`.
//!
//! Resource indices double as resource-slot ids and are never compacted or
//! reused: the per-resource columns only ever grow, even when a slot's
//! handle is released.
//!
//! `detect` answers "is the recorded state safe?": safe exactly when some
//! completion ordering of all tasks exists, each task's need being covered
//! by the work vector when its turn comes.

use vstd::prelude::*;

verus! {

/// Mathematical shadow of a detector: unbounded integers, no machine limits.
#[verifier::ext_equal]
pub ghost struct DetectorModel {
    pub available: Seq<int>,
    pub total: Seq<int>,
    pub allocation: Seq<Seq<int>>,
    pub need: Seq<Seq<int>>,
}

pub open spec fn to_ints(v: Seq<usize>) -> Seq<int> {
    v.map_values(|x: usize| x as int)
}

pub open spec fn to_int_mat(m: Seq<Vec<usize>>) -> Seq<Seq<int>> {
    m.map_values(|row: Vec<usize>| to_ints(row@))
}

pub broadcast proof fn lemma_ints_len(v: Seq<usize>)
    ensures
        #![trigger to_ints(v)]
        to_ints(v).len() == v.len(),
{
}

pub broadcast proof fn lemma_ints_index(v: Seq<usize>, i: int)
    requires
        0 <= i < v.len(),
    ensures
        #![trigger to_ints(v)[i]]
        #![trigger to_ints(v), v[i]]
        to_ints(v)[i] == v[i] as int,
{
}

pub broadcast proof fn lemma_mat_len(m: Seq<Vec<usize>>)
    ensures
        #![trigger to_int_mat(m)]
        to_int_mat(m).len() == m.len(),
{
}

pub broadcast proof fn lemma_mat_index(m: Seq<Vec<usize>>, t: int)
    requires
        0 <= t < m.len(),
    ensures
        #![trigger to_int_mat(m)[t]]
        #![trigger to_int_mat(m), m[t]]
        to_int_mat(m)[t] == to_ints(m[t]@)
            && to_int_mat(m)[t].len() == m[t]@.len(),
{
}

/// Column sum of `m` at resource `r`.
pub open spec fn col_sum(m: Seq<Seq<int>>, r: int) -> int
    decreases m.len(),
{
    if m.len() == 0 {
        0
    } else {
        m[0][r] + col_sum(m.drop_first(), r)
    }
}

impl DetectorModel {
    pub open spec fn n_tasks(self) -> int {
        self.allocation.len() as int
    }

    pub open spec fn n_resources(self) -> int {
        self.available.len() as int
    }

    /// Dimensions agree, all counts are machine-representable, and every
    /// resource conserves its registered total.
    pub open spec fn wf(self) -> bool {
        &&& self.total.len() == self.n_resources()
        &&& self.need.len() == self.n_tasks()
        &&& forall|t: int| 0 <= t < self.n_tasks()
            ==> (#[trigger] self.allocation[t]).len() == self.n_resources()
        &&& forall|t: int| 0 <= t < self.n_tasks()
            ==> (#[trigger] self.need[t]).len() == self.n_resources()
        &&& forall|t: int, r: int|
            0 <= t < self.n_tasks() && 0 <= r < self.n_resources()
                ==> 0 <= #[trigger] self.allocation[t][r]
        &&& forall|t: int, r: int|
            0 <= t < self.n_tasks() && 0 <= r < self.n_resources()
                ==> 0 <= #[trigger] self.need[t][r] <= usize::MAX
        &&& forall|r: int| 0 <= r < self.n_resources()
            ==> 0 <= #[trigger] self.available[r]
                && self.total[r] <= usize::MAX
                && self.available[r] + col_sum(self.allocation, r) == self.total[r]
    }
}

/// Per-process bookkeeping for one pool of resources.
pub struct DeadlockDetector {
    pub available: Vec<usize>,
    pub total: Vec<usize>,
    pub allocation: Vec<Vec<usize>>,
    pub need: Vec<Vec<usize>>,
}

impl View for DeadlockDetector {
    type V = DetectorModel;

    open spec fn view(&self) -> DetectorModel {
        DetectorModel {
            available: to_ints(self.available@),
            total: to_ints(self.total@),
            allocation: to_int_mat(self.allocation@),
            need: to_int_mat(self.need@),
        }
    }
}

proof fn lemma_col_sum_update(m: Seq<Seq<int>>, t: int, row: Seq<int>, r: int)
    requires
        0 <= t < m.len(),
    ensures
        col_sum(m.update(t, row), r) == col_sum(m, r) - m[t][r] + row[r],
    decreases m.len(),
{
    reveal_with_fuel(col_sum, 3);
    if t == 0 {
        assert(m.update(0, row).drop_first() =~= m.drop_first());
    } else {
        lemma_col_sum_update(m.drop_first(), t - 1, row, r);
        assert(m.update(t, row).drop_first() =~= m.drop_first().update(t - 1, row));
    }
}

proof fn lemma_col_sum_push(m: Seq<Seq<int>>, row: Seq<int>, r: int)
    ensures
        col_sum(m.push(row), r) == col_sum(m, r) + row[r],
    decreases m.len(),
{
    reveal_with_fuel(col_sum, 3);
    if m.len() == 0 {
        assert(m.push(row).drop_first() =~= Seq::<Seq<int>>::empty());
        assert(col_sum(m.push(row).drop_first(), r) == 0);
    } else {
        lemma_col_sum_push(m.drop_first(), row, r);
        assert(m.push(row).drop_first() =~= m.drop_first().push(row));
    }
}

proof fn lemma_col_sum_congruent(a: Seq<Seq<int>>, b: Seq<Seq<int>>, r: int)
    requires
        a.len() == b.len(),
        forall|t: int| 0 <= t < a.len() ==> #[trigger] a[t][r] == b[t][r],
    ensures
        col_sum(a, r) == col_sum(b, r),
    decreases a.len(),
{
    reveal_with_fuel(col_sum, 3);
    if a.len() > 0 {
        lemma_col_sum_congruent(a.drop_first(), b.drop_first(), r);
    }
}

/// Every single cell of a nonnegative column is bounded by the column sum.
proof fn lemma_col_sum_element(m: Seq<Seq<int>>, t: int, r: int)
    requires
        0 <= t < m.len(),
        forall|u: int| 0 <= u < m.len() ==> 0 <= #[trigger] m[u][r],
    ensures
        m[t][r] <= col_sum(m, r),
        0 <= col_sum(m, r),
    decreases m.len(),
{
    reveal_with_fuel(col_sum, 3);
    if t == 0 {
        lemma_col_sum_nonneg(m.drop_first(), r);
    } else {
        lemma_col_sum_element(m.drop_first(), t - 1, r);
    }
}

proof fn lemma_col_sum_nonneg(m: Seq<Seq<int>>, r: int)
    requires
        forall|u: int| 0 <= u < m.len() ==> 0 <= #[trigger] m[u][r],
    ensures
        0 <= col_sum(m, r),
    decreases m.len(),
{
    reveal_with_fuel(col_sum, 3);
    if m.len() > 0 {
        lemma_col_sum_nonneg(m.drop_first(), r);
    }
}


impl DeadlockDetector {
    pub open spec fn wf(&self) -> bool {
        self@.wf()
    }

    /// A detector with no tasks and no resources.
    pub fn new() -> (d: DeadlockDetector)
        ensures
            d.wf(),
            d@.available == Seq::<int>::empty(),
            d@.total == Seq::<int>::empty(),
            d@.allocation == Seq::<Seq<int>>::empty(),
            d@.need == Seq::<Seq<int>>::empty(),
    {
        broadcast use lemma_ints_len, lemma_ints_index, lemma_mat_len, lemma_mat_index;

        let d = DeadlockDetector {
            available: Vec::new(),
            total: Vec::new(),
            allocation: Vec::new(),
            need: Vec::new(),
        };
        proof {
            assert(d@.available =~= Seq::<int>::empty());
            assert(d@.total =~= Seq::<int>::empty());
            assert(d@.allocation =~= Seq::<Seq<int>>::empty());
            assert(d@.need =~= Seq::<Seq<int>>::empty());
        }
        d
    }

    /// Register a new resource with `count` total instances, all free.
    #[verifier::loop_isolation(false)]
    pub fn push_resource(&mut self, count: usize)
        requires
            old(self).wf(),
        ensures
            final(self).wf(),
            final(self)@.available == old(self)@.available.push(count as int),
            final(self)@.total == old(self)@.total.push(count as int),
            final(self)@.allocation.len() == old(self)@.allocation.len(),
            final(self)@.need.len() == old(self)@.need.len(),
            forall|t: int| 0 <= t < old(self)@.allocation.len()
                ==> #[trigger] final(self)@.allocation[t] == old(self)@.allocation[t].push(0),
            forall|t: int| 0 <= t < old(self)@.need.len()
                ==> #[trigger] final(self)@.need[t] == old(self)@.need[t].push(0),
    {
        broadcast use lemma_ints_len, lemma_ints_index, lemma_mat_len, lemma_mat_index;

        let ghost pre = self@;
        self.available.push(count);
        self.total.push(count);
        let n = self.allocation.len();
        let mut t: usize = 0;
        while t < n
            invariant
                n == self.allocation@.len(),
                n == self.need@.len(),
                t <= n,
                self.available@ == old(self).available@.push(count),
                self.total@ == old(self).total@.push(count),
                forall|u: int| 0 <= u < t
                    ==> (#[trigger] self.allocation@[u])@ == old(self).allocation@[u]@.push(0),
                forall|u: int| 0 <= u < t
                    ==> (#[trigger] self.need@[u])@ == old(self).need@[u]@.push(0),
                forall|u: int| t <= u < n
                    ==> #[trigger] self.allocation@[u] == old(self).allocation@[u],
                forall|u: int| t <= u < n
                    ==> #[trigger] self.need@[u] == old(self).need@[u],
            decreases n - t,
        {
            let ghost alloc_before = self.allocation@;
            let ghost need_before = self.need@;
            self.allocation[t].push(0);
            self.need[t].push(0);
            proof {
                assert(self.allocation@[t as int]@ == alloc_before[t as int]@.push(0));
                assert(self.need@[t as int]@ == need_before[t as int]@.push(0));
                assert forall|u: int| 0 <= u < n && u != t
                    implies #[trigger] self.allocation@[u] == alloc_before[u] by {}
                assert forall|u: int| 0 <= u < n && u != t
                    implies #[trigger] self.need@[u] == need_before[u] by {}
            }
            t = t + 1;
        }
        proof {
            let post = self@;
            assert(post.available =~= pre.available.push(count as int));
            assert(post.total =~= pre.total.push(count as int));
            assert forall|u: int| 0 <= u < pre.allocation.len()
                implies #[trigger] post.allocation[u] == pre.allocation[u].push(0) by {
                assert(post.allocation[u] =~= pre.allocation[u].push(0));
            }
            assert forall|u: int| 0 <= u < pre.need.len()
                implies #[trigger] post.need[u] == pre.need[u].push(0) by {
                assert(post.need[u] =~= pre.need[u].push(0));
            }
            let m0 = pre.available.len();
            assert forall|r: int| 0 <= r < post.available.len()
                implies post.available[r] + col_sum(post.allocation, r) == #[trigger] post.total[r] by {
                if r < m0 {
                    assert forall|u: int| 0 <= u < post.allocation.len()
                        implies #[trigger] post.allocation[u][r] == pre.allocation[u][r] by {
                        assert(post.allocation[u] == pre.allocation[u].push(0));
                        assert(pre.allocation[u].len() == m0);
                    }
                    lemma_col_sum_congruent(post.allocation, pre.allocation, r);
                } else {
                    assert forall|u: int| 0 <= u < post.allocation.len()
                        implies #[trigger] post.allocation[u][r] == 0 by {
                        assert(post.allocation[u] == pre.allocation[u].push(0));
                        assert(pre.allocation[u].len() == m0);
                    }
                    lemma_col_sum_zero(post.allocation, r);
                }
            }
            assert forall|u: int, j: int|
                0 <= u < post.allocation.len() && 0 <= j < post.available.len()
                implies 0 <= #[trigger] post.allocation[u][j] by {
                assert(post.allocation[u] == pre.allocation[u].push(0));
                assert(pre.allocation[u].len() == m0);
            }
            assert forall|u: int, j: int|
                0 <= u < post.need.len() && 0 <= j < post.available.len()
                implies 0 <= #[trigger] post.need[u][j] <= usize::MAX by {
                assert(post.need[u] == pre.need[u].push(0));
                assert(pre.need[u].len() == m0);
            }
        }
    }

    /// Add a task with no holdings and no recorded need.
    #[verifier::loop_isolation(false)]
    pub fn push_task(&mut self)
        requires
            old(self).wf(),
        ensures
            final(self).wf(),
            final(self)@.available == old(self)@.available,
            final(self)@.total == old(self)@.total,
            final(self)@.allocation
                == old(self)@.allocation.push(zero_row(old(self)@.n_resources())),
            final(self)@.need == old(self)@.need.push(zero_row(old(self)@.n_resources())),
    {
        broadcast use lemma_ints_len, lemma_ints_index, lemma_mat_len, lemma_mat_index;

        let ghost pre = self@;
        let m = self.available.len();
        let mut row: Vec<usize> = Vec::new();
        let mut r: usize = 0;
        while r < m
            invariant
                r <= m,
                row@.len() == r,
                forall|j: int| 0 <= j < r ==> #[trigger] row@[j] == 0,
            decreases m - r,
        {
            row.push(0);
            r = r + 1;
        }
        let row2 = clone_row(&row);
        proof {
            assert(to_ints(row@) =~= zero_row(pre.n_resources()));
            assert(to_ints(row2@) =~= zero_row(pre.n_resources()));
        }
        self.allocation.push(row);
        self.need.push(row2);
        proof {
            let post = self@;
            assert(post.allocation =~= pre.allocation.push(zero_row(pre.n_resources())));
            assert(post.need =~= pre.need.push(zero_row(pre.n_resources())));
            assert forall|j: int| 0 <= j < post.available.len()
                implies post.available[j] + col_sum(post.allocation, j) == #[trigger] post.total[j] by {
                lemma_col_sum_push(pre.allocation, zero_row(pre.n_resources()), j);
            }
            assert forall|u: int, j: int|
                0 <= u < post.allocation.len() && 0 <= j < post.available.len()
                implies 0 <= #[trigger] post.allocation[u][j] by {
                if u < pre.allocation.len() {
                    assert(post.allocation[u] == pre.allocation[u]);
                } else {
                    assert(post.allocation[u] == zero_row(pre.n_resources()));
                }
            }
            assert forall|u: int, j: int|
                0 <= u < post.need.len() && 0 <= j < post.available.len()
                implies 0 <= #[trigger] post.need[u][j] <= usize::MAX by {
                if u < pre.need.len() {
                    assert(post.need[u] == pre.need[u]);
                } else {
                    assert(post.need[u] == zero_row(pre.n_resources()));
                }
            }
        }
    }

    /// Record that task `t` is requesting `v` instances of resource `r`
    /// (overwriting, not accumulating: a retried request re-sets the same
    /// need).
    pub fn set_need(&mut self, t: usize, r: usize, v: usize)
        requires
            old(self).wf(),
            t < old(self)@.n_tasks(),
            r < old(self)@.n_resources(),
        ensures
            final(self).wf(),
            final(self)@.available == old(self)@.available,
            final(self)@.total == old(self)@.total,
            final(self)@.allocation == old(self)@.allocation,
            final(self)@.need == old(self)@.need.update(
                t as int,
                old(self)@.need[t as int].update(r as int, v as int),
            ),
    {
        broadcast use lemma_ints_len, lemma_ints_index, lemma_mat_len, lemma_mat_index;

        let ghost pre = self@;
        proof {
        }
        self.need[t][r] = v;
        proof {
            let post = self@;
            assert(post.need =~~= pre.need.update(t as int, pre.need[t as int].update(r as int, v as int)));
            assert(post.allocation == pre.allocation);
        }
    }

    /// Commit a granted request: move up to `v` instances (no more than are
    /// free) from `available[r]` into `allocation[t][r]`, and clear the
    /// recorded need of `t` for `r`.
    pub fn alloc_resource(&mut self, t: usize, r: usize, v: usize)
        requires
            old(self).wf(),
            t < old(self)@.n_tasks(),
            r < old(self)@.n_resources(),
        ensures
            final(self).wf(),
            final(self)@.total == old(self)@.total,
            final(self)@.need == old(self)@.need.update(
                t as int,
                old(self)@.need[t as int].update(r as int, 0),
            ),
            ({
                let moved = if v as int <= old(self)@.available[r as int] {
                    v as int
                } else {
                    old(self)@.available[r as int]
                };
                final(self)@.available == old(self)@.available.update(
                    r as int,
                    old(self)@.available[r as int] - moved,
                )
                && final(self)@.allocation == old(self)@.allocation.update(
                    t as int,
                    old(self)@.allocation[t as int].update(
                        r as int,
                        old(self)@.allocation[t as int][r as int] + moved,
                    ),
                )
            }),
    {
        broadcast use lemma_ints_len, lemma_ints_index, lemma_mat_len, lemma_mat_index;

        let ghost pre = self@;
        proof {
            lemma_col_sum_element(pre.allocation, t as int, r as int);
            assert(pre.available[r as int] == self.available@[r as int] as int);
        }
        let avail = self.available[r];
        let moved = if v <= avail {
            v
        } else {
            avail
        };
        self.available[r] = avail - moved;
        let held = self.allocation[t][r];
        self.allocation[t][r] = held + moved;
        self.need[t][r] = 0;
        proof {
            let post = self@;
            let mv = moved as int;
            assert(post.available =~= pre.available.update(r as int, pre.available[r as int] - mv));
            assert(post.total == pre.total);
            assert(post.allocation =~~= pre.allocation.update(
                t as int,
                pre.allocation[t as int].update(r as int, pre.allocation[t as int][r as int] + mv),
            ));
            assert(post.need =~~= pre.need.update(t as int, pre.need[t as int].update(r as int, 0)));
            assert forall|j: int| 0 <= j < post.available.len()
                implies post.available[j] + col_sum(post.allocation, j) == #[trigger] post.total[j] by {
                lemma_col_sum_update(
                    pre.allocation,
                    t as int,
                    pre.allocation[t as int].update(r as int, pre.allocation[t as int][r as int] + mv),
                    j,
                );
            }
        }
    }

    /// Release: move up to `v` instances (no more than the releaser holds)
    /// from `allocation[t][r]` back into `available[r]`.
    pub fn unalloc_resource(&mut self, t: usize, r: usize, v: usize)
        requires
            old(self).wf(),
            t < old(self)@.n_tasks(),
            r < old(self)@.n_resources(),
        ensures
            final(self).wf(),
            final(self)@.total == old(self)@.total,
            final(self)@.need == old(self)@.need,
            ({
                let moved = if v as int <= old(self)@.allocation[t as int][r as int] {
                    v as int
                } else {
                    old(self)@.allocation[t as int][r as int]
                };
                final(self)@.available == old(self)@.available.update(
                    r as int,
                    old(self)@.available[r as int] + moved,
                )
                && final(self)@.allocation == old(self)@.allocation.update(
                    t as int,
                    old(self)@.allocation[t as int].update(
                        r as int,
                        old(self)@.allocation[t as int][r as int] - moved,
                    ),
                )
            }),
    {
        broadcast use lemma_ints_len, lemma_ints_index, lemma_mat_len, lemma_mat_index;

        let ghost pre = self@;
        proof {
            lemma_col_sum_element(pre.allocation, t as int, r as int);
            assert(pre.available[r as int] == self.available@[r as int] as int);
        }
        let held = self.allocation[t][r];
        let moved = if v <= held {
            v
        } else {
            held
        };
        self.allocation[t][r] = held - moved;
        let avail = self.available[r];
        self.available[r] = avail + moved;
        proof {
            let post = self@;
            let mv = moved as int;
            assert(post.available =~= pre.available.update(r as int, pre.available[r as int] + mv));
            assert(post.total == pre.total);
            assert(post.need == pre.need);
            assert(post.allocation =~~= pre.allocation.update(
                t as int,
                pre.allocation[t as int].update(r as int, pre.allocation[t as int][r as int] - mv),
            ));
            assert forall|j: int| 0 <= j < post.available.len()
                implies post.available[j] + col_sum(post.allocation, j) == #[trigger] post.total[j] by {
                lemma_col_sum_update(
                    pre.allocation,
                    t as int,
                    pre.allocation[t as int].update(r as int, pre.allocation[t as int][r as int] - mv),
                    j,
                );
            }
        }
    }
}

pub open spec fn zero_row(m: int) -> Seq<int> {
    Seq::new(m as nat, |r: int| 0)
}

proof fn lemma_col_sum_zero(m: Seq<Seq<int>>, r: int)
    requires
        forall|t: int| 0 <= t < m.len() ==> #[trigger] m[t][r] == 0,
    ensures
        col_sum(m, r) == 0,
    decreases m.len(),
{
    reveal_with_fuel(col_sum, 3);
    if m.len() > 0 {
        lemma_col_sum_zero(m.drop_first(), r);
    }
}

/// Element-for-element copy of one bookkeeping row.
#[verifier::loop_isolation(false)]
fn clone_row(v: &Vec<usize>) -> (r: Vec<usize>)
    ensures
        r@ == v@,
{
    let mut out: Vec<usize> = Vec::new();
    let mut i: usize = 0;
    while i < v.len()
        invariant
            i <= v@.len(),
            out@ == v@.subrange(0, i as int),
        decreases v@.len() - i,
    {
        out.push(v[i]);
        i = i + 1;
    }
    proof {
        assert(out@ =~= v@);
    }
    out
}

/// Pointwise comparison of two count vectors of equal length.
pub open spec fn row_le(a: Seq<int>, b: Seq<int>) -> bool {
    a.len() == b.len() && forall|r: int| 0 <= r < a.len() ==> #[trigger] a[r] <= b[r]
}

/// Pointwise sum; the result has the length of `a`.
pub open spec fn row_add(a: Seq<int>, b: Seq<int>) -> Seq<int> {
    Seq::new(a.len(), |r: int| a[r] + b[r])
}

/// Rows of `m` all have length `width`.
pub open spec fn mat_dims(m: Seq<Seq<int>>, width: int) -> bool {
    forall|t: int| 0 <= t < m.len() ==> (#[trigger] m[t]).len() == width
}

/// Every cell of `m` is nonnegative.
pub open spec fn mat_nonneg(m: Seq<Seq<int>>) -> bool {
    forall|t: int, r: int|
        0 <= t < m.len() && 0 <= r < m[t].len() ==> 0 <= #[trigger] m[t][r]
}

/// Running the tasks in `order`, each task's need is covered by the work
/// vector when its turn comes; its allocation then folds back into work.
pub open spec fn order_completes(
    order: Seq<int>,
    work: Seq<int>,
    allocation: Seq<Seq<int>>,
    need: Seq<Seq<int>>,
) -> bool
    decreases order.len(),
{
    order.len() == 0 || {
        let t = order[0];
        &&& 0 <= t < allocation.len()
        &&& t < need.len()
        &&& row_le(need[t], work)
        &&& order_completes(order.drop_first(), row_add(work, allocation[t]), allocation, need)
    }
}

/// `order` lists exactly the tasks still pending, each once.
pub open spec fn covers(order: Seq<int>, pending: Seq<bool>) -> bool {
    &&& order.no_duplicates()
    &&& forall|i: int| 0 <= i < order.len()
        ==> 0 <= #[trigger] order[i] < pending.len() && pending[order[i]]
    &&& forall|t: int| 0 <= t < pending.len() && #[trigger] pending[t] ==> order.contains(t)
}

/// Some completion ordering of the pending tasks exists from `work`.
pub open spec fn completion_exists(
    work: Seq<int>,
    allocation: Seq<Seq<int>>,
    need: Seq<Seq<int>>,
    pending: Seq<bool>,
) -> bool {
    exists|order: Seq<int>|
        #[trigger] covers(order, pending) && order_completes(order, work, allocation, need)
}

pub open spec fn all_pending(n: int) -> Seq<bool> {
    Seq::new(n as nat, |t: int| true)
}

impl DetectorModel {
    /// The recorded state is safe: a completion ordering of all tasks exists
    /// given the available counts, the allocations and the recorded needs.
    pub open spec fn is_safe(self) -> bool {
        completion_exists(self.available, self.allocation, self.need, all_pending(self.n_tasks()))
    }
}

/// Sum, at resource `r`, of the allocation rows of tasks already finished
/// (those no longer pending).
pub open spec fn done_sum(m: Seq<Seq<int>>, pending: Seq<bool>, r: int) -> int
    decreases m.len(),
{
    if m.len() == 0 || pending.len() == 0 {
        0
    } else {
        (if !pending[0] { m[0][r] } else { 0 }) + done_sum(m.drop_first(), pending.drop_first(), r)
    }
}

pub open spec fn pending_count(pending: Seq<bool>) -> nat
    decreases pending.len(),
{
    if pending.len() == 0 {
        0
    } else {
        (if pending[0] { 1nat } else { 0nat }) + pending_count(pending.drop_first())
    }
}

proof fn lemma_done_sum_all_pending(m: Seq<Seq<int>>, pending: Seq<bool>, r: int)
    requires
        m.len() == pending.len(),
        forall|t: int| 0 <= t < pending.len() ==> #[trigger] pending[t],
    ensures
        done_sum(m, pending, r) == 0,
    decreases m.len(),
{
    reveal_with_fuel(done_sum, 3);
    if m.len() > 0 {
        lemma_done_sum_all_pending(m.drop_first(), pending.drop_first(), r);
    }
}

proof fn lemma_done_sum_update(m: Seq<Seq<int>>, pending: Seq<bool>, t: int, r: int)
    requires
        m.len() == pending.len(),
        0 <= t < m.len(),
        pending[t],
    ensures
        done_sum(m, pending.update(t, false), r) == done_sum(m, pending, r) + m[t][r],
    decreases m.len(),
{
    reveal_with_fuel(done_sum, 3);
    if t == 0 {
        assert(pending.update(0, false).drop_first() =~= pending.drop_first());
    } else {
        lemma_done_sum_update(m.drop_first(), pending.drop_first(), t - 1, r);
        assert(pending.update(t, false).drop_first() =~= pending.drop_first().update(t - 1, false));
    }
}

proof fn lemma_done_sum_le_col_sum(m: Seq<Seq<int>>, pending: Seq<bool>, r: int)
    requires
        m.len() == pending.len(),
        forall|u: int| 0 <= u < m.len() ==> 0 <= #[trigger] m[u][r],
    ensures
        0 <= done_sum(m, pending, r) <= col_sum(m, r),
    decreases m.len(),
{
    reveal_with_fuel(done_sum, 3);
    reveal_with_fuel(col_sum, 3);
    if m.len() > 0 {
        lemma_done_sum_le_col_sum(m.drop_first(), pending.drop_first(), r);
    }
}

proof fn lemma_pending_count_update(pending: Seq<bool>, t: int)
    requires
        0 <= t < pending.len(),
        pending[t],
    ensures
        pending_count(pending.update(t, false)) + 1 == pending_count(pending),
    decreases pending.len(),
{
    reveal_with_fuel(pending_count, 3);
    if t == 0 {
        assert(pending.update(0, false).drop_first() =~= pending.drop_first());
    } else {
        lemma_pending_count_update(pending.drop_first(), t - 1);
        assert(pending.update(t, false).drop_first() =~= pending.drop_first().update(t - 1, false));
    }
}

/// A task whose need is already covered can be scheduled first: any
/// completion ordering can be rearranged to start with it.
proof fn lemma_completion_exchange(
    order: Seq<int>,
    work: Seq<int>,
    allocation: Seq<Seq<int>>,
    need: Seq<Seq<int>>,
    i: int,
)
    requires
        mat_dims(allocation, work.len() as int),
        mat_nonneg(allocation),
        order_completes(order, work, allocation, need),
        0 <= i < order.len(),
        row_le(need[order[i]], work),
    ensures
        order_completes(seq![order[i]] + order.remove(i), work, allocation, need),
    decreases i,
{
    reveal_with_fuel(order_completes, 3);
    let t = order[i];
    if i == 0 {
        assert(seq![t] + order.remove(0) =~= order);
    } else {
        let h = order[0];
        let tail = order.drop_first();
        let w1 = row_add(work, allocation[h]);
        assert(order_completes(tail, w1, allocation, need));
        assert(tail[i - 1] == t);
        assert(row_le(need[t], w1)) by {
            assert(forall|r: int| 0 <= r < work.len() ==> #[trigger] w1[r] == work[r] + allocation[h][r]);
        }
        lemma_completion_exchange(tail, w1, allocation, need, i - 1);
        let rest = tail.remove(i - 1);
        assert(order_completes(seq![t] + rest, w1, allocation, need));
        assert((seq![t] + rest)[0] == t);
        assert((seq![t] + rest).drop_first() =~= rest);
        assert(order_completes(rest, row_add(w1, allocation[t]), allocation, need));
        let w2 = row_add(work, allocation[t]);
        assert(row_add(w2, allocation[h]) =~= row_add(w1, allocation[t]));
        assert(order.remove(i)[0] == h);
        assert(order.remove(i).drop_first() =~= rest);
        assert(row_le(need[h], w2)) by {
            assert(forall|r: int| 0 <= r < work.len() ==> #[trigger] w2[r] == work[r] + allocation[t][r]);
        }
        assert(order_completes(rest, row_add(w2, allocation[h]), allocation, need));
        assert(order_completes(order.remove(i), w2, allocation, need));
        assert((seq![t] + order.remove(i))[0] == t);
        assert((seq![t] + order.remove(i)).drop_first() =~= order.remove(i));
        assert(order_completes(seq![t] + order.remove(i), work, allocation, need));
    }
}

/// Removing one pending task from a covering order covers the rest.
proof fn lemma_covers_remove(order: Seq<int>, pending: Seq<bool>, i: int)
    requires
        covers(order, pending),
        0 <= i < order.len(),
    ensures
        covers(order.remove(i), pending.update(order[i], false)),
{
    let t = order[i];
    let s2 = order.remove(i);
    let pending2 = pending.update(t, false);
    assert(forall|k: int| 0 <= k < i ==> #[trigger] s2[k] == order[k]);
    assert(forall|k: int| i <= k < s2.len() ==> #[trigger] s2[k] == order[k + 1]);
    assert forall|p: int, q: int| 0 <= p < s2.len() && 0 <= q < s2.len() && p != q
        implies s2[p] != s2[q] by {
        let p0 = if p < i { p } else { p + 1 };
        let q0 = if q < i { q } else { q + 1 };
        assert(s2[p] == order[p0] && s2[q] == order[q0]);
    }
    assert(s2.no_duplicates());
    assert forall|k: int| 0 <= k < s2.len()
        implies 0 <= #[trigger] s2[k] < pending2.len() && pending2[s2[k]] by {
        let k0 = if k < i { k } else { k + 1 };
        assert(s2[k] == order[k0]);
        assert(order[k0] != order[i]);
    }
    assert forall|x: int| 0 <= x < pending2.len() && #[trigger] pending2[x]
        implies s2.contains(x) by {
        assert(pending[x] && x != t);
        assert(order.contains(x));
        let j = choose|j: int| 0 <= j < order.len() && order[j] == x;
        if j < i {
            assert(s2[j] == x);
        } else {
            assert(j != i);
            assert(s2[j - 1] == x);
        }
    }
}

/// Finishing an eligible pending task preserves, in both directions, the
/// existence of a completion ordering for the rest.
proof fn lemma_finish_eligible(
    work: Seq<int>,
    allocation: Seq<Seq<int>>,
    need: Seq<Seq<int>>,
    pending: Seq<bool>,
    t: int,
)
    requires
        mat_dims(allocation, work.len() as int),
        mat_nonneg(allocation),
        pending.len() == allocation.len(),
        0 <= t < pending.len(),
        pending[t],
        t < need.len(),
        row_le(need[t], work),
    ensures
        completion_exists(work, allocation, need, pending)
            <==> completion_exists(row_add(work, allocation[t]), allocation, need, pending.update(t, false)),
{
    reveal_with_fuel(order_completes, 3);
    let pending2 = pending.update(t, false);
    let work2 = row_add(work, allocation[t]);
    if completion_exists(work, allocation, need, pending) {
        let order = choose|order: Seq<int>|
            #[trigger] covers(order, pending) && order_completes(order, work, allocation, need);
        assert(order.contains(t));
        let i = choose|i: int| 0 <= i < order.len() && order[i] == t;
        lemma_completion_exchange(order, work, allocation, need, i);
        let moved = seq![t] + order.remove(i);
        assert(moved[0] == t);
        assert(moved.drop_first() =~= order.remove(i));
        assert(order_completes(order.remove(i), work2, allocation, need));
        lemma_covers_remove(order, pending, i);
        assert(covers(order.remove(i), pending2));
        assert(completion_exists(work2, allocation, need, pending2));
    }
    if completion_exists(work2, allocation, need, pending2) {
        let order2 = choose|order: Seq<int>|
            #[trigger] covers(order, pending2) && order_completes(order, work2, allocation, need);
        let order = seq![t] + order2;
        assert(order[0] == t);
        assert(order.drop_first() =~= order2);
        assert forall|k: int| 0 <= k < order2.len() implies #[trigger] order2[k] != t by {
            assert(pending2[order2[k]]);
        }
        assert(order.no_duplicates()) by {
            assert forall|p: int, q: int|
                0 <= p < order.len() && 0 <= q < order.len() && p != q
                implies order[p] != order[q] by {
                if p == 0 {
                    assert(order[q] == order2[q - 1]);
                } else if q == 0 {
                    assert(order[p] == order2[p - 1]);
                } else {
                    assert(order[p] == order2[p - 1] && order[q] == order2[q - 1]);
                }
            }
        }
        assert forall|k: int| 0 <= k < order.len()
            implies 0 <= #[trigger] order[k] < pending.len() && pending[order[k]] by {
            if k > 0 {
                assert(order[k] == order2[k - 1]);
                assert(pending2[order2[k - 1]]);
            }
        }
        assert forall|x: int| 0 <= x < pending.len() && #[trigger] pending[x]
            implies order.contains(x) by {
            if x == t {
                assert(order[0] == x);
            } else {
                assert(pending2[x]);
                assert(order2.contains(x));
                let j = choose|j: int| 0 <= j < order2.len() && order2[j] == x;
                assert(order[j + 1] == x);
            }
        }
        assert(covers(order, pending));
        assert(order_completes(order, work, allocation, need));
        assert(completion_exists(work, allocation, need, pending));
    }
}

/// When some task is pending and none is eligible, no completion ordering
/// exists.
proof fn lemma_stuck(
    work: Seq<int>,
    allocation: Seq<Seq<int>>,
    need: Seq<Seq<int>>,
    pending: Seq<bool>,
    witness: int,
)
    requires
        0 <= witness < pending.len(),
        pending[witness],
        forall|t: int|
            0 <= t < pending.len() && #[trigger] pending[t] ==> !row_le(need[t], work),
    ensures
        !completion_exists(work, allocation, need, pending),
{
    reveal_with_fuel(order_completes, 2);
    if completion_exists(work, allocation, need, pending) {
        let order = choose|order: Seq<int>|
            #[trigger] covers(order, pending) && order_completes(order, work, allocation, need);
        assert(order.contains(witness));
        assert(order.len() > 0);
        let h = order[0];
        assert(pending[h]);
        assert(row_le(need[h], work));
        assert(false);
    }
}

/// Does row `t` of `need` fit under `work`, pointwise?
#[verifier::loop_isolation(false)]
fn le_row(need_row: &Vec<usize>, work: &Vec<usize>) -> (r: bool)
    requires
        need_row@.len() == work@.len(),
    ensures
        r == row_le(to_ints(need_row@), to_ints(work@)),
{
    broadcast use lemma_ints_len, lemma_ints_index;

    let n = need_row.len();
    let mut j: usize = 0;
    while j < n
        invariant
            j <= n,
            forall|k: int| 0 <= k < j ==> #[trigger] need_row@[k] <= work@[k],
        decreases n - j,
    {
        if need_row[j] > work[j] {
            assert(!row_le(to_ints(need_row@), to_ints(work@)));
            return false;
        }
        j = j + 1;
    }
    true
}

/// Scan for a pending task whose recorded need fits under `work`.
#[verifier::loop_isolation(false)]
fn find_eligible(need: &Vec<Vec<usize>>, work: &Vec<usize>, pending: &Vec<bool>) -> (r: Option<
    usize,
>)
    requires
        need@.len() == pending@.len(),
        forall|t: int| 0 <= t < need@.len() ==> (#[trigger] need@[t])@.len() == work@.len(),
    ensures
        match r {
            Some(t) => t < pending@.len() && pending@[t as int]
                && row_le(to_int_mat(need@)[t as int], to_ints(work@)),
            None => forall|t: int|
                0 <= t < pending@.len() && #[trigger] pending@[t]
                    ==> !row_le(to_int_mat(need@)[t], to_ints(work@)),
        },
{
    broadcast use lemma_ints_len, lemma_ints_index, lemma_mat_len, lemma_mat_index;

    let n = pending.len();
    let mut t: usize = 0;
    while t < n
        invariant
            t <= n,
            forall|u: int| 0 <= u < t && #[trigger] pending@[u]
                ==> !row_le(to_int_mat(need@)[u], to_ints(work@)),
        decreases n - t,
    {
        if pending[t] {
            if le_row(&need[t], work) {
                return Some(t);
            }
        }
        t = t + 1;
    }
    None
}

impl DeadlockDetector {
    /// Banker's safety check: `true` exactly when the recorded state is
    /// safe, that is, when some ordering lets every task finish.  The
    /// detector itself is not changed.
    #[verifier::loop_isolation(false)]
    pub fn detect(&self) -> (r: bool)
        requires
            self.wf(),
        ensures
            r == self@.is_safe(),
    {
        broadcast use lemma_ints_len, lemma_ints_index, lemma_mat_len, lemma_mat_index;

        let ghost d = self@;
        let n = self.allocation.len();
        let m = self.available.len();
        let mut work: Vec<usize> = Vec::new();
        let mut j: usize = 0;
        while j < m
            invariant
                j <= m,
                work@.len() == j,
                forall|k: int| 0 <= k < j ==> #[trigger] work@[k] == self.available@[k],
            decreases m - j,
        {
            work.push(self.available[j]);
            j = j + 1;
        }
        let mut pending: Vec<bool> = Vec::new();
        let mut t: usize = 0;
        while t < n
            invariant
                t <= n,
                pending@.len() == t,
                forall|k: int| 0 <= k < t ==> #[trigger] pending@[k],
            decreases n - t,
        {
            pending.push(true);
            t = t + 1;
        }
        proof {
            assert(to_ints(work@) =~= d.available);
            assert(pending@ =~= all_pending(d.n_tasks()));
            lemma_done_sum_all_pending(d.allocation, pending@, 0);
            assert forall|k: int| 0 <= k < m
                implies to_ints(work@)[k] == d.available[k] + done_sum(d.allocation, pending@, k) by {
                lemma_done_sum_all_pending(d.allocation, pending@, k);
            }
        }
        let mut stuck: bool = false;
        while !stuck
            invariant
                work@.len() == m,
                pending@.len() == n,
                forall|k: int| 0 <= k < m
                    ==> #[trigger] to_ints(work@)[k]
                        == d.available[k] + done_sum(d.allocation, pending@, k),
                completion_exists(to_ints(work@), d.allocation, d.need, pending@)
                    <==> d.is_safe(),
                stuck ==> forall|t: int| 0 <= t < n && #[trigger] pending@[t]
                    ==> !row_le(d.need[t], to_ints(work@)),
            decreases pending_count(pending@), (if stuck { 0int } else { 1int }),
        {
            let found = find_eligible(&self.need, &work, &pending);
            match found {
                None => {
                    stuck = true;
                },
                Some(cand) => {
                    let ghost w0 = to_ints(work@);
                    let ghost pending0 = pending@;
                    proof {
                        lemma_pending_count_update(pending0, cand as int);
                        assert forall|k: int| 0 <= k < m
                            implies w0[k] + d.allocation[cand as int][k] <= usize::MAX
                                && 0 <= d.allocation[cand as int][k] by {
                            lemma_done_sum_update(d.allocation, pending0, cand as int, k);
                            lemma_done_sum_le_col_sum(
                                d.allocation,
                                pending0.update(cand as int, false),
                                k,
                            );
                        }
                    }
                    let mut k: usize = 0;
                    while k < m
                        invariant
                            k <= m,
                            work@.len() == m,
                            forall|q: int| 0 <= q < k
                                ==> #[trigger] work@[q] as int == w0[q] + d.allocation[cand as int][q],
                            forall|q: int| k <= q < m ==> #[trigger] work@[q] as int == w0[q],
                        decreases m - k,
                    {
                        work[k] = work[k] + self.allocation[cand][k];
                        k = k + 1;
                    }
                    pending[cand] = false;
                    proof {
                        assert(to_ints(work@) =~= row_add(w0, d.allocation[cand as int]));
                        assert(pending@ == pending0.update(cand as int, false));
                        lemma_finish_eligible(w0, d.allocation, d.need, pending0, cand as int);
                        assert forall|q: int| 0 <= q < m
                            implies to_ints(work@)[q]
                                == d.available[q] + done_sum(d.allocation, pending@, q) by {
                            lemma_done_sum_update(d.allocation, pending0, cand as int, q);
                        }
                    }
                },
            }
        }
        let mut all_done: bool = true;
        let ghost mut witness: int = 0;
        let mut t2: usize = 0;
        while t2 < n
            invariant
                t2 <= n,
                all_done ==> forall|k: int| 0 <= k < t2 ==> !(#[trigger] pending@[k]),
                !all_done ==> 0 <= witness < n && pending@[witness],
            decreases n - t2,
        {
            if pending[t2] {
                all_done = false;
                proof {
                    witness = t2 as int;
                }
            }
            t2 = t2 + 1;
        }
        proof {
            if all_done {
                let empty_order = Seq::<int>::empty();
                assert(covers(empty_order, pending@));
                assert(order_completes(empty_order, to_ints(work@), d.allocation, d.need));
                assert(completion_exists(to_ints(work@), d.allocation, d.need, pending@));
            } else {
                lemma_stuck(to_ints(work@), d.allocation, d.need, pending@, witness);
            }
        }
        all_done
    }
}

/// The model after `set_need(t, r, v)`.
pub open spec fn with_need(d: DetectorModel, t: int, r: int, v: int) -> DetectorModel {
    DetectorModel { need: d.need.update(t, d.need[t].update(r, v)), ..d }
}

/// The model after `alloc_resource(t, r, v)`: up to `v` free instances move
/// into `allocation[t][r]`, and the recorded need is cleared.
pub open spec fn with_alloc(d: DetectorModel, t: int, r: int, v: int) -> DetectorModel {
    let moved = if v <= d.available[r] { v } else { d.available[r] };
    DetectorModel {
        available: d.available.update(r, d.available[r] - moved),
        allocation: d.allocation.update(t, d.allocation[t].update(r, d.allocation[t][r] + moved)),
        need: d.need.update(t, d.need[t].update(r, 0)),
        total: d.total,
    }
}

/// The model after `unalloc_resource(t, r, v)`: up to `v` held instances
/// move back into `available[r]`.
pub open spec fn with_unalloc(d: DetectorModel, t: int, r: int, v: int) -> DetectorModel {
    let moved = if v <= d.allocation[t][r] { v } else { d.allocation[t][r] };
    DetectorModel {
        available: d.available.update(r, d.available[r] + moved),
        allocation: d.allocation.update(t, d.allocation[t].update(r, d.allocation[t][r] - moved)),
        need: d.need,
        total: d.total,
    }
}

} // verus!
