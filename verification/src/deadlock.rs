//! Deadlock detection with the banker's algorithm.
//!
//! The detector keeps, for every thread and every resource, how many units
//! the thread holds (`allocation`) and how many it is waiting for (`request`),
//! and how many units of each resource are free (`available`). When detection
//! is enabled, a request is accepted only if, with the request added to what
//! the thread waits for, every thread can still run to its end in some order.

use vstd::prelude::*;
use crate::banker::{
    column_sum, fits, lemma_rows_sum_nonneg, lemma_safe_order_monotone, lemma_take_ids, is_safe, is_safe_order, lemma_column_sum_extend, lemma_rows_sum_entry,
    lemma_rows_sum_le_column, lemma_rows_sum_push, lemma_rows_sum_same_column,
    lemma_rows_sum_update, lemma_stuck_not_safe, lemma_thread_ids, lemma_unfinished_count_mark,
    rows_sum, thread_ids, unfinished_count, work_after,
};
use crate::matrix::{clear_column, clear_row, push_zero_column, set_cell, zero_row};

verus! {

/// The contents of a detector, as mathematical values.
#[verifier::ext_equal]
pub struct DetectorView {
    pub enabled: bool,
    pub available: Seq<usize>,
    pub allocation: Seq<Seq<usize>>,
    pub request: Seq<Seq<usize>>,
    pub thread_count: nat,
    pub resource_count: nat,
}

/// The rows of a matrix, each taken by its view.
pub open spec fn rows_view(m: Seq<Vec<usize>>) -> Seq<Seq<usize>> {
    m.map_values(|row: Vec<usize>| row@)
}

/// `m` with entry `(i, j)` replaced by `v`.
pub open spec fn set_entry(m: Seq<Seq<usize>>, i: int, j: int, v: usize) -> Seq<Seq<usize>> {
    m.update(i, m[i].update(j, v))
}

/// A row of `n` zeros.
pub open spec fn zeros(n: nat) -> Seq<usize> {
    Seq::new(n, |j: int| 0usize)
}

impl DetectorView {
    /// Every row has one entry per resource, there is one row per thread, and
    /// the units of each resource, free and held together, fit in a `usize`.
    pub open spec fn wf(self) -> bool {
        &&& self.available.len() == self.resource_count
        &&& self.allocation.len() == self.thread_count
        &&& self.request.len() == self.thread_count
        &&& forall|t: int|
            0 <= t < self.thread_count ==> (#[trigger] self.allocation[t]).len()
                == self.resource_count
        &&& forall|t: int|
            0 <= t < self.thread_count ==> (#[trigger] self.request[t]).len() == self.resource_count
        &&& forall|r: int| 0 <= r < self.resource_count ==> #[trigger] self.total(r) <= usize::MAX
    }

    /// All units of resource `r`: those that are free and those threads hold.
    pub open spec fn total(self, r: int) -> int {
        self.available[r] + column_sum(self.allocation, r, self.thread_count)
    }

    /// The state is safe with the outstanding requests `request`.
    pub open spec fn safe_with(self, request: Seq<Seq<usize>>) -> bool {
        is_safe(self.available, self.allocation, request, self.thread_count, self.resource_count)
    }

    /// The inputs on which a request can be served without an arithmetic fault:
    /// with detection off the units must be free; with it on, the count of
    /// units waited for must fit in a `usize`.
    pub open spec fn request_allowed(self, tid: int, res: int, cnt: int) -> bool {
        &&& 0 <= tid < self.thread_count
        &&& 0 <= res < self.resource_count
        &&& !self.enabled ==> cnt <= self.available[res]
        &&& self.enabled ==> self.request[tid][res] + cnt <= usize::MAX
    }

    /// `cnt` units of `res` move from the free pool to thread `tid`.
    pub open spec fn grant(self, tid: int, res: int, cnt: int) -> DetectorView {
        DetectorView {
            enabled: self.enabled,
            available: self.available.update(res, (self.available[res] - cnt) as usize),
            allocation: set_entry(
                self.allocation,
                tid,
                res,
                (self.allocation[tid][res] + cnt) as usize,
            ),
            request: self.request,
            thread_count: self.thread_count,
            resource_count: self.resource_count,
        }
    }

    /// The outstanding requests once thread `tid` also waits for `cnt` units of `res`.
    pub open spec fn request_with(self, tid: int, res: int, cnt: int) -> Seq<Seq<usize>> {
        set_entry(self.request, tid, res, (self.request[tid][res] + cnt) as usize)
    }

    /// What a request of `cnt` units of `res` by thread `tid` makes of the
    /// state, and whether it is accepted.
    /// With detection off, the units are handed over at once.
    /// With detection on, the request is refused, changing nothing, when it
    /// would leave the state unsafe; otherwise it is accepted, and the units are
    /// handed over if they are free, or else the thread is recorded as waiting
    /// for them.
    pub open spec fn after_request(self, tid: int, res: int, cnt: int) -> (DetectorView, bool) {
        if !self.enabled {
            (self.grant(tid, res, cnt), true)
        } else if self.safe_with(self.request_with(tid, res, cnt)) {
            if cnt <= self.available[res] {
                (self.grant(tid, res, cnt), true)
            } else {
                (
                    DetectorView {
                        enabled: self.enabled,
                        available: self.available,
                        allocation: self.allocation,
                        request: self.request_with(tid, res, cnt),
                        thread_count: self.thread_count,
                        resource_count: self.resource_count,
                    },
                    true,
                )
            }
        } else {
            (self, false)
        }
    }

    /// Thread `tid` gives back `cnt` units of `res`; refused, changing nothing,
    /// when it holds fewer.
    pub open spec fn after_release(self, tid: int, res: int, cnt: int) -> (DetectorView, bool) {
        if cnt > self.allocation[tid][res] {
            (self, false)
        } else {
            (
                DetectorView {
                    enabled: self.enabled,
                    available: self.available.update(res, (self.available[res] + cnt) as usize),
                    allocation: set_entry(
                        self.allocation,
                        tid,
                        res,
                        (self.allocation[tid][res] - cnt) as usize,
                    ),
                    request: self.request,
                    thread_count: self.thread_count,
                    resource_count: self.resource_count,
                },
                true,
            )
        }
    }

    /// Resource `res` gets `cnt` free units and no thread holds or waits for
    /// it; resources up to `res` come into being, with nothing free, held or
    /// waited for.
    pub open spec fn after_create(self, res: int, cnt: int) -> DetectorView {
        let rc: nat = if res < self.resource_count {
            self.resource_count
        } else {
            (res + 1) as nat
        };
        let old_rc = self.resource_count;
        DetectorView {
            enabled: self.enabled,
            available: Seq::new(
                rc,
                |r: int|
                    if r == res {
                        cnt as usize
                    } else if r < old_rc {
                        self.available[r]
                    } else {
                        0usize
                    },
            ),
            allocation: Seq::new(
                self.thread_count,
                |t: int|
                    Seq::new(
                        rc,
                        |r: int|
                            if r == res {
                                0usize
                            } else if r < old_rc {
                                self.allocation[t][r]
                            } else {
                                0usize
                            },
                    ),
            ),
            request: Seq::new(
                self.thread_count,
                |t: int|
                    Seq::new(
                        rc,
                        |r: int|
                            if r == res {
                                0usize
                            } else if r < old_rc {
                                self.request[t][r]
                            } else {
                                0usize
                            },
                    ),
            ),
            thread_count: self.thread_count,
            resource_count: rc,
        }
    }

    /// Thread `tid` ends: what it holds becomes free, and it holds and waits
    /// for nothing.
    pub open spec fn after_exit(self, tid: int) -> DetectorView {
        DetectorView {
            enabled: self.enabled,
            available: Seq::new(
                self.resource_count,
                |r: int| (self.available[r] + self.allocation[tid][r]) as usize,
            ),
            allocation: self.allocation.update(tid, zeros(self.resource_count)),
            request: self.request.update(tid, zeros(self.resource_count)),
            thread_count: self.thread_count,
            resource_count: self.resource_count,
        }
    }

    /// Thread `tid` starts. A known thread id is cleared as at its end; an
    /// unknown one brings threads up to `tid` into being, holding and waiting
    /// for nothing.
    pub open spec fn after_join(self, tid: int) -> DetectorView {
        if tid < self.thread_count {
            self.after_exit(tid)
        } else {
            let tc = (tid + 1) as nat;
            let old_tc = self.thread_count;
            DetectorView {
                enabled: self.enabled,
                available: self.available,
                allocation: Seq::new(
                    tc,
                    |t: int|
                        if t < old_tc {
                            self.allocation[t]
                        } else {
                            zeros(self.resource_count)
                        },
                ),
                request: Seq::new(
                    tc,
                    |t: int|
                        if t < old_tc {
                            self.request[t]
                        } else {
                            zeros(self.resource_count)
                        },
                ),
                thread_count: tc,
                resource_count: self.resource_count,
            }
        }
    }
}

impl DetectorView {
    /// Replacing row `tid` of the allocation moves each column sum by the
    /// change in that row.
    proof fn lemma_row_change(self, tid: int, row: Seq<usize>, r: int)
        requires
            self.wf(),
            0 <= tid < self.thread_count,
        ensures
            column_sum(self.allocation.update(tid, row), r, self.thread_count)
                == column_sum(self.allocation, r, self.thread_count) + row[r]
                - self.allocation[tid][r],
    {
        lemma_thread_ids(self.thread_count);
        lemma_rows_sum_update(self.allocation, r, thread_ids(self.thread_count), tid, row);
    }

    /// What a thread holds of a resource is part of that resource's total.
    proof fn lemma_held_le_total(self, tid: int, r: int)
        requires
            self.wf(),
            0 <= tid < self.thread_count,
            0 <= r < self.resource_count,
        ensures
            self.available[r] + self.allocation[tid][r] <= self.total(r),
    {
        lemma_thread_ids(self.thread_count);
        lemma_rows_sum_entry(self.allocation, r, thread_ids(self.thread_count), tid);
    }

    pub proof fn lemma_grant(self, tid: int, res: int, cnt: int)
        requires
            self.wf(),
            0 <= tid < self.thread_count,
            0 <= res < self.resource_count,
            0 <= cnt <= self.available[res],
        ensures
            self.grant(tid, res, cnt).wf(),
            self.allocation[tid][res] + cnt <= usize::MAX,
            forall|r: int|
                0 <= r < self.resource_count ==> #[trigger] self.grant(tid, res, cnt).total(r)
                    == self.total(r),
    {
        let g = self.grant(tid, res, cnt);
        self.lemma_held_le_total(tid, res);
        let row = self.allocation[tid].update(res, (self.allocation[tid][res] + cnt) as usize);
        assert forall|r: int| 0 <= r < self.resource_count implies #[trigger] g.total(r)
            == self.total(r) by {
            self.lemma_row_change(tid, row, r);
        }
        assert forall|t: int| 0 <= t < g.thread_count implies (#[trigger] g.allocation[t]).len()
            == g.resource_count by {
            if t != tid {
                assert(g.allocation[t] == self.allocation[t]);
            }
        }
    }

    pub proof fn lemma_release(self, tid: int, res: int, cnt: int)
        requires
            self.wf(),
            0 <= tid < self.thread_count,
            0 <= res < self.resource_count,
            0 <= cnt,
        ensures
            self.after_release(tid, res, cnt).0.wf(),
            self.available[res] + cnt <= usize::MAX || !self.after_release(tid, res, cnt).1,
            forall|r: int|
                0 <= r < self.resource_count ==> #[trigger] self.after_release(
                    tid,
                    res,
                    cnt,
                ).0.total(r) == self.total(r),
    {
        if cnt <= self.allocation[tid][res] {
            let g = self.after_release(tid, res, cnt).0;
            self.lemma_held_le_total(tid, res);
            let row = self.allocation[tid].update(res, (self.allocation[tid][res] - cnt) as usize);
            assert forall|r: int| 0 <= r < self.resource_count implies #[trigger] g.total(r)
                == self.total(r) by {
                self.lemma_row_change(tid, row, r);
            }
            assert forall|t: int|
                0 <= t < g.thread_count implies (#[trigger] g.allocation[t]).len()
                == g.resource_count by {
                if t != tid {
                    assert(g.allocation[t] == self.allocation[t]);
                }
            }
        }
    }

    pub proof fn lemma_request(self, tid: int, res: int, cnt: int)
        requires
            self.wf(),
            self.request_allowed(tid, res, cnt),
            0 <= cnt,
        ensures
            self.after_request(tid, res, cnt).0.wf(),
            forall|r: int|
                0 <= r < self.resource_count ==> #[trigger] self.after_request(
                    tid,
                    res,
                    cnt,
                ).0.total(r) == self.total(r),
    {
        let w = self.request_with(tid, res, cnt);
        if !self.enabled || (self.safe_with(w) && cnt <= self.available[res]) {
            self.lemma_grant(tid, res, cnt);
        } else if self.safe_with(w) {
            let g = self.after_request(tid, res, cnt).0;
            assert forall|t: int| 0 <= t < g.thread_count implies (#[trigger] g.request[t]).len()
                == g.resource_count by {
                if t != tid {
                    assert(g.request[t] == self.request[t]);
                }
            }
            assert forall|r: int| 0 <= r < self.resource_count implies #[trigger] g.total(r)
                == self.total(r) by {
                assert(g.allocation == self.allocation);
            }
        }
    }

    pub proof fn lemma_exit(self, tid: int)
        requires
            self.wf(),
            0 <= tid < self.thread_count,
        ensures
            self.after_exit(tid).wf(),
            forall|r: int|
                0 <= r < self.resource_count ==> self.available[r] + self.allocation[tid][r]
                    <= usize::MAX,
            forall|r: int|
                0 <= r < self.resource_count ==> #[trigger] self.after_exit(tid).total(r)
                    == self.total(r),
    {
        let g = self.after_exit(tid);
        let row = zeros(self.resource_count);
        assert forall|r: int| 0 <= r < self.resource_count implies self.available[r]
            + self.allocation[tid][r] <= usize::MAX by {
            self.lemma_held_le_total(tid, r);
        }
        assert forall|r: int| 0 <= r < self.resource_count implies #[trigger] g.total(r)
            == self.total(r) by {
            self.lemma_row_change(tid, row, r);
        }
        assert forall|t: int| 0 <= t < g.thread_count implies (#[trigger] g.allocation[t]).len()
            == g.resource_count && g.request[t].len() == g.resource_count by {
            if t != tid {
                assert(g.allocation[t] == self.allocation[t]);
                assert(g.request[t] == self.request[t]);
            }
        }
    }

    pub proof fn lemma_join(self, tid: int)
        requires
            self.wf(),
            0 <= tid,
        ensures
            self.after_join(tid).wf(),
            forall|r: int|
                0 <= r < self.resource_count ==> #[trigger] self.after_join(tid).total(r)
                    == self.total(r),
    {
        if tid < self.thread_count {
            self.lemma_exit(tid);
        } else {
            let g = self.after_join(tid);
            assert forall|r: int| 0 <= r < self.resource_count implies #[trigger] g.total(r)
                == self.total(r) by {
                lemma_column_sum_extend(
                    self.allocation,
                    g.allocation,
                    r,
                    self.thread_count,
                    g.thread_count,
                );
            }
        }
    }

    pub proof fn lemma_create(self, res: int, cnt: int)
        requires
            self.wf(),
            0 <= res,
            0 <= cnt <= usize::MAX,
        ensures
            self.after_create(res, cnt).wf(),
    {
        let g = self.after_create(res, cnt);
        assert forall|r: int| 0 <= r < g.resource_count implies #[trigger] g.total(r)
            <= usize::MAX by {
            if r == res || r >= self.resource_count {
                lemma_column_sum_extend(g.allocation, g.allocation, r, 0, g.thread_count);
                assert(column_sum(g.allocation, r, 0) == 0);
            } else {
                lemma_thread_ids(self.thread_count);
                lemma_rows_sum_same_column(
                    g.allocation,
                    self.allocation,
                    r,
                    thread_ids(self.thread_count),
                );
                assert(self.total(r) <= usize::MAX);
            }
        }
    }
}

/// A struct for detecting potential deadlocks in the system.
#[derive(Clone, Debug)]
pub struct DeadlockDetectorInner {
    /// is deadlock detector enabled
    pub enabled: bool,
    /// available matrix
    pub available: Vec<usize>,
    /// allocation matrix
    pub allocation: Vec<Vec<usize>>,
    /// request matrix
    pub request: Vec<Vec<usize>>,
    /// thread count, increase only
    pub thread_count: usize,
    /// resource count, increase only
    pub resource_count: usize,
}

impl View for DeadlockDetectorInner {
    type V = DetectorView;

    open spec fn view(&self) -> DetectorView {
        DetectorView {
            enabled: self.enabled,
            available: self.available@,
            allocation: rows_view(self.allocation@),
            request: rows_view(self.request@),
            thread_count: self.thread_count as nat,
            resource_count: self.resource_count as nat,
        }
    }
}

/// Whether `need` is at most `work` in each of the first `n` entries.
fn row_fits(need: &Vec<usize>, work: &Vec<usize>, n: usize) -> (b: bool)
    requires
        need@.len() >= n,
        work@.len() >= n,
    ensures
        b == (forall|r: int| 0 <= r < n ==> need@[r] <= #[trigger] work@[r]),
{
    let mut r: usize = 0;
    while r < n
        invariant
            r <= n,
            need@.len() >= n,
            work@.len() >= n,
            forall|q: int| 0 <= q < r ==> need@[q] <= #[trigger] work@[q],
        decreases n - r,
    {
        if need[r] > work[r] {
            return false;
        }
        r = r + 1;
    }
    true
}

/// Adds `row` to `work`, entry by entry.
fn add_row(work: &mut Vec<usize>, row: &Vec<usize>)
    requires
        old(work)@.len() == row@.len(),
        forall|r: int| 0 <= r < row@.len() ==> old(work)@[r] + row@[r] <= usize::MAX,
    ensures
        final(work)@.len() == old(work)@.len(),
        forall|r: int|
            0 <= r < row@.len() ==> #[trigger] final(work)@[r] == old(work)@[r] + row@[r],
{
    let n = row.len();
    let mut r: usize = 0;
    while r < n
        invariant
            n == row@.len(),
            work@.len() == n,
            r <= n,
            forall|q: int| 0 <= q < n ==> old(work)@[q] + row@[q] <= usize::MAX,
            forall|q: int| 0 <= q < r ==> #[trigger] work@[q] == old(work)@[q] + row@[q],
            forall|q: int| r <= q < n ==> #[trigger] work@[q] == old(work)@[q],
        decreases n - r,
    {
        let v = work[r] + row[r];
        work.set(r, v);
        r = r + 1;
    }
}

impl DeadlockDetectorInner {
    /// The contents of a fresh detector: disabled, one thread (the main
    /// thread) and no resource.
    pub open spec fn new_view() -> DetectorView {
        DetectorView {
            enabled: false,
            available: Seq::empty(),
            allocation: seq![Seq::empty()],
            request: seq![Seq::empty()],
            thread_count: 1,
            resource_count: 0,
        }
    }

    /// Creates a new deadlock detector with default settings.
    ///
    /// Returns an empty detector with all matrices initialized to empty vectors and disabled by default.
    pub fn new() -> (d: Self)
        ensures
            d@.wf(),
            d@ == (DetectorView {
                enabled: false,
                available: Seq::empty(),
                allocation: seq![Seq::empty()],
                request: seq![Seq::empty()],
                thread_count: 1,
                resource_count: 0,
            }),
    {
        let mut allocation: Vec<Vec<usize>> = Vec::new();
        allocation.push(Vec::new());
        let mut request: Vec<Vec<usize>> = Vec::new();
        request.push(Vec::new());
        let d = Self {
            enabled: false,
            available: Vec::new(),
            allocation,
            request,
            // process thread count, default is 1 (main thread)
            thread_count: 1,
            resource_count: 0,
        };
        assert(d@ =~= (DetectorView {
            enabled: false,
            available: Seq::empty(),
            allocation: seq![Seq::empty()],
            request: seq![Seq::empty()],
            thread_count: 1,
            resource_count: 0,
        }));
        d
    }

    /// The first thread, by id, that has not finished and whose outstanding
    /// request fits in `work`.
    fn find_runnable(&self, finished: &Vec<bool>, work: &Vec<usize>) -> (found: Option<usize>)
        requires
            self@.wf(),
            finished@.len() == self.thread_count,
            work@.len() == self.resource_count,
        ensures
            match found {
                Some(t) => {
                    &&& t < self.thread_count
                    &&& !finished@[t as int]
                    &&& forall|r: int|
                        0 <= r < self.resource_count ==> self@.request[t as int][r]
                            <= #[trigger] work@[r]
                },
                None => forall|t: int|
                    0 <= t < self.thread_count ==> #[trigger] finished@[t] || !(forall|r: int|
                        0 <= r < self.resource_count ==> self@.request[t][r] <= #[trigger] work@[r]),
            },
    {
        let mut t: usize = 0;
        while t < self.thread_count
            invariant
                self@.wf(),
                finished@.len() == self.thread_count,
                work@.len() == self.resource_count,
                t <= self.thread_count,
                forall|u: int|
                    0 <= u < t ==> #[trigger] finished@[u] || !(forall|r: int|
                        0 <= r < self.resource_count ==> self@.request[u][r] <= #[trigger] work@[r]),
            decreases self.thread_count - t,
        {
            proof {
                assert(self@.request[t as int].len() == self.resource_count);
            }
            if !finished[t] && row_fits(&self.request[t], work, self.resource_count) {
                return Some(t);
            }
            t = t + 1;
        }
        None
    }

    /// Runs the threads to their ends, one at a time, each time the first by id
    /// whose outstanding request fits in what is free, until none is left that
    /// can: the state is safe when every thread has finished.
    fn check_safety(&self) -> (safe: bool)
        requires
            self@.wf(),
        ensures
            safe == self@.safe_with(self@.request),
    {
        let tc = self.thread_count;
        let rc = self.resource_count;
        let ghost s = self@;
        let mut finished: Vec<bool> = Vec::new();
        let mut i: usize = 0;
        while i < tc
            invariant
                i <= tc,
                finished@ =~= Seq::new(i as nat, |j: int| false),
            decreases tc - i,
        {
            finished.push(false);
            i = i + 1;
        }
        let mut work: Vec<usize> = Vec::new();
        i = 0;
        while i < rc
            invariant
                s == self@,
                s.wf(),
                rc == s.resource_count,
                i <= rc,
                work@.len() == i,
                forall|j: int| 0 <= j < i ==> #[trigger] work@[j] == s.available[j],
            decreases rc - i,
        {
            work.push(self.available[i]);
            i = i + 1;
        }
        let ghost mut order: Seq<int> = Seq::empty();
        proof {
            assert forall|t: int| 0 <= t < tc implies (finished@[t] <==> order.contains(t)) by {}
        }
        loop
            invariant
                s == self@,
                s.wf(),
                tc == s.thread_count,
                rc == s.resource_count,
                finished@.len() == tc,
                work@.len() == rc,
                order.no_duplicates(),
                forall|k: int| 0 <= k < order.len() ==> 0 <= #[trigger] order[k] < tc,
                forall|t: int| 0 <= t < tc ==> (#[trigger] finished@[t] <==> order.contains(t)),
                forall|r: int|
                    0 <= r < rc ==> #[trigger] work@[r] == s.available[r] + rows_sum(
                        s.allocation,
                        r,
                        order,
                    ),
                forall|k: int|
                    0 <= k < order.len() ==> fits(
                        s.request[#[trigger] order[k]],
                        work_after(s.available, s.allocation, order.take(k), rc as nat),
                        rc as nat,
                    ),
            ensures
                s == self@,
                s.wf(),
                finished@.len() == tc,
                order.no_duplicates(),
                forall|k: int| 0 <= k < order.len() ==> 0 <= #[trigger] order[k] < tc,
                forall|t: int| 0 <= t < tc ==> (#[trigger] finished@[t] <==> order.contains(t)),
                forall|k: int|
                    0 <= k < order.len() ==> fits(
                        s.request[#[trigger] order[k]],
                        work_after(s.available, s.allocation, order.take(k), rc as nat),
                        rc as nat,
                    ),
                forall|t: int|
                    0 <= t < tc && !order.contains(t) ==> !fits(
                        #[trigger] s.request[t],
                        work_after(s.available, s.allocation, order, rc as nat),
                        rc as nat,
                    ),
            decreases unfinished_count(finished@),
        {
            match self.find_runnable(&finished, &work) {
                None => {
                    proof {
                        let w = work_after(s.available, s.allocation, order, rc as nat);
                        assert forall|t: int|
                            0 <= t < tc && !order.contains(t) implies !fits(
                            #[trigger] s.request[t],
                            w,
                            rc as nat,
                        ) by {
                            assert(!finished@[t]);
                            if fits(s.request[t], w, rc as nat) {
                                assert forall|r: int| 0 <= r < rc implies s.request[t][r]
                                    <= #[trigger] work@[r] by {
                                    assert(s.request[t][r] <= w[r]);
                                }
                            }
                        }
                    }
                    break ;
                },
                Some(t) => {
                    let ghost next = order.push(t as int);
                    proof {
                        assert(!order.contains(t as int));
                        assert(next.no_duplicates()) by {
                            assert forall|a: int, b: int|
                                0 <= a < next.len() && 0 <= b < next.len() && a != b implies next[a]
                                != next[b] by {
                                if a == order.len() {
                                    assert(order[b] == next[b]);
                                } else if b == order.len() {
                                    assert(order[a] == next[a]);
                                } else {
                                    assert(order[a] == next[a]);
                                    assert(order[b] == next[b]);
                                }
                            }
                        }
                        assert forall|k: int| 0 <= k < next.len() implies 0 <= #[trigger] next[k]
                            < tc by {
                            if k < order.len() {
                                assert(next[k] == order[k]);
                            }
                        }
                        assert forall|r: int| 0 <= r < rc implies work@[r]
                            + s.allocation[t as int][r] <= usize::MAX by {
                            lemma_rows_sum_push(s.allocation, r, order, t as int);
                            lemma_rows_sum_le_column(s.allocation, r, next, tc as nat);
                            assert(s.total(r) <= usize::MAX);
                        }
                        lemma_unfinished_count_mark(finished@, t as int);
                        assert(s.allocation[t as int].len() == rc);
                    }
                    let ghost w0 = work@;
                    add_row(&mut work, &self.allocation[t]);
                    finished.set(t, true);
                    proof {
                        let w = work_after(s.available, s.allocation, order, rc as nat);
                        assert forall|r: int| 0 <= r < rc implies #[trigger] work@[r]
                            == s.available[r] + rows_sum(s.allocation, r, next) by {
                            lemma_rows_sum_push(s.allocation, r, order, t as int);
                        }
                        assert forall|u: int| 0 <= u < tc implies (#[trigger] finished@[u]
                            <==> next.contains(u)) by {
                            if u == t {
                                assert(next[order.len() as int] == u);
                            } else if order.contains(u) {
                                let p = choose|p: int| 0 <= p < order.len() && order[p] == u;
                                assert(next[p] == u);
                            } else if next.contains(u) {
                                let p = choose|p: int| 0 <= p < next.len() && next[p] == u;
                                assert(order[p] == u);
                            }
                        }
                        assert forall|k: int| 0 <= k < next.len() implies fits(
                            s.request[#[trigger] next[k]],
                            work_after(s.available, s.allocation, next.take(k), rc as nat),
                            rc as nat,
                        ) by {
                            if k < order.len() {
                                assert(next.take(k) =~= order.take(k));
                                assert(next[k] == order[k]);
                            } else {
                                assert(next.take(k) =~= order);
                                assert forall|r: int| 0 <= r < rc implies s.request[t as int][r]
                                    <= #[trigger] w[r] by {
                                    assert(s.request[t as int][r] <= w0[r]);
                                }
                            }
                        }
                        order = next;
                    }
                },
            }
        }
        let mut all = true;
        i = 0;
        while i < tc
            invariant
                i <= tc,
                finished@.len() == tc,
                all <==> (forall|j: int| 0 <= j < i ==> #[trigger] finished@[j]),
            decreases tc - i,
        {
            if !finished[i] {
                all = false;
            }
            i = i + 1;
        }
        proof {
            if all {
                assert forall|t: int| 0 <= t < tc implies #[trigger] order.contains(t) by {
                    assert(finished@[t]);
                }
                assert(is_safe_order(
                    s.available,
                    s.allocation,
                    s.request,
                    tc as nat,
                    rc as nat,
                    order,
                ));
            } else {
                let t0 = choose|j: int| 0 <= j < tc && !#[trigger] finished@[j];
                lemma_stuck_not_safe(
                    s.available,
                    s.allocation,
                    s.request,
                    tc as nat,
                    rc as nat,
                    order,
                    t0,
                );
            }
        }
        all
    }
}

impl DeadlockDetectorInner {
    /// request resource
    ///
    /// With detection off, the units are handed over and the request is
    /// accepted. With detection on, the request is accepted exactly when the
    /// state stays safe with it added to what the thread waits for; an
    /// accepted request is served at once when the units are free and is
    /// otherwise recorded as waiting; a refused one changes nothing.
    pub fn request_resource(&mut self, tid: usize, res_id: usize, res_cnt: usize) -> (accepted:
        bool)
        requires
            old(self)@.wf(),
            old(self)@.request_allowed(tid as int, res_id as int, res_cnt as int),
        ensures
            (final(self)@, accepted) == old(self)@.after_request(
                tid as int,
                res_id as int,
                res_cnt as int,
            ),
            final(self)@.wf(),
            !accepted ==> final(self)@ == old(self)@,
            old(self).enabled ==> (accepted == old(self)@.safe_with(
                old(self)@.request_with(tid as int, res_id as int, res_cnt as int),
            )),
            old(self).enabled ==> accepted == is_safe(
                old(self)@.available,
                old(self)@.allocation,
                old(self)@.request.update(
                    tid as int,
                    old(self)@.request[tid as int].update(
                        res_id as int,
                        (old(self)@.request[tid as int][res_id as int] + res_cnt) as usize,
                    ),
                ),
                old(self)@.thread_count,
                old(self)@.resource_count,
            ),
            old(self).enabled && accepted && res_cnt > old(self)@.available[res_id as int]
                ==> final(self)@.request[tid as int][res_id as int] == old(
                self,
            )@.request[tid as int][res_id as int] + res_cnt,
            final(self).thread_count == old(self).thread_count,
            final(self).resource_count == old(self).resource_count,
            forall|r: int|
                0 <= r < old(self)@.resource_count ==> #[trigger] final(self)@.total(r) == old(
                    self,
                )@.total(r),
    {
        let ghost s = self@;
        proof {
            if s.enabled {
                law_request_decided_with_added_count(s, tid as int, res_id as int, res_cnt as int);
            }
            s.lemma_request(tid as int, res_id as int, res_cnt as int);
            assert(s.allocation[tid as int].len() == s.resource_count);
            assert(s.request[tid as int].len() == s.resource_count);
        }
        if !self.enabled {
            proof {
                s.lemma_grant(tid as int, res_id as int, res_cnt as int);
            }
            let held = self.allocation[tid][res_id];
            set_cell(&mut self.allocation, tid, res_id, held + res_cnt);
            let free = self.available[res_id];
            self.available.set(res_id, free - res_cnt);
            assert(self@ =~= s.grant(tid as int, res_id as int, res_cnt as int));
            return true;
        }
        let waiting = self.request[tid][res_id];
        set_cell(&mut self.request, tid, res_id, waiting + res_cnt);
        proof {
            assert(self@ =~= DetectorView {
                request: s.request_with(tid as int, res_id as int, res_cnt as int),
                ..s
            });
            let w = self@;
            assert forall|t: int| 0 <= t < w.thread_count implies (#[trigger] w.request[t]).len()
                == w.resource_count by {
                if t != tid {
                    assert(w.request[t] == s.request[t]);
                }
            }
            assert forall|r: int| 0 <= r < w.resource_count implies #[trigger] w.total(r)
                <= usize::MAX by {
                assert(w.total(r) == s.total(r));
            }
        }
        let safe = self.check_safety();
        assert(self@.request[tid as int].len() == self.resource_count);
        if safe {
            if self.available[res_id] >= res_cnt {
                set_cell(&mut self.request, tid, res_id, waiting);
                proof {
                    s.lemma_grant(tid as int, res_id as int, res_cnt as int);
                }
                let held = self.allocation[tid][res_id];
                set_cell(&mut self.allocation, tid, res_id, held + res_cnt);
                let free = self.available[res_id];
                self.available.set(res_id, free - res_cnt);
                assert(self@.request[tid as int] =~= s.request[tid as int]);
                assert(self@.request =~= s.request);
                assert(self@ =~= s.grant(tid as int, res_id as int, res_cnt as int));
            }
            true
        } else {
            set_cell(&mut self.request, tid, res_id, waiting);
            assert(self@.request[tid as int] =~= s.request[tid as int]);
            assert(self@.request =~= s.request);
            assert(self@ =~= s);
            false
        }
    }

    /// release resource
    ///
    /// Refused, changing nothing, when the thread holds fewer units than it
    /// gives back.
    pub fn release_resource(&mut self, tid: usize, res_id: usize, res_cnt: usize) -> (released:
        bool)
        requires
            old(self)@.wf(),
            tid < old(self).thread_count,
            res_id < old(self).resource_count,
        ensures
            (final(self)@, released) == old(self)@.after_release(
                tid as int,
                res_id as int,
                res_cnt as int,
            ),
            final(self)@.wf(),
            released == (res_cnt <= old(self)@.allocation[tid as int][res_id as int]),
            final(self).thread_count == old(self).thread_count,
            final(self).resource_count == old(self).resource_count,
            forall|r: int|
                0 <= r < old(self)@.resource_count ==> #[trigger] final(self)@.total(r) == old(
                    self,
                )@.total(r),
    {
        let ghost s = self@;
        proof {
            s.lemma_release(tid as int, res_id as int, res_cnt as int);
            assert(s.allocation[tid as int].len() == s.resource_count);
        }
        let alloc_cnt = self.allocation[tid][res_id];
        if res_cnt > alloc_cnt {
            return false;
        }
        set_cell(&mut self.allocation, tid, res_id, alloc_cnt - res_cnt);
        let free = self.available[res_id];
        self.available.set(res_id, free + res_cnt);
        assert(self@ =~= s.after_release(tid as int, res_id as int, res_cnt as int).0);
        true
    }

    /// A resource (mutex / semaphore) created by process
    /// assume the resource will never be deleted.
    pub fn create_resource(&mut self, res_id: usize, res_cnt: usize)
        requires
            old(self)@.wf(),
            res_id < usize::MAX,
        ensures
            final(self)@ == old(self)@.after_create(res_id as int, res_cnt as int),
            final(self)@.wf(),
            final(self)@.available[res_id as int] == res_cnt,
            final(self).thread_count == old(self).thread_count,
            final(self).resource_count >= old(self).resource_count,
    {
        let ghost s = self@;
        let ghost goal = s.after_create(res_id as int, res_cnt as int);
        if res_id >= self.resource_count {
            while res_id >= self.resource_count
                invariant
                    self.enabled == s.enabled,
                    self.thread_count == s.thread_count,
                    s.resource_count <= self.resource_count <= res_id + 1,
                    res_id < usize::MAX,
                    self.available@.len() == self.resource_count,
                    self.allocation@.len() == s.thread_count,
                    self.request@.len() == s.thread_count,
                    forall|r: int|
                        0 <= r < self.resource_count ==> #[trigger] self.available@[r] == if r
                            < s.resource_count {
                            s.available[r]
                        } else {
                            0
                        },
                    forall|t: int|
                        0 <= t < s.thread_count ==> (#[trigger] self.allocation@[t])@ =~= Seq::new(
                            self.resource_count as nat,
                            |r: int|
                                if r < s.resource_count {
                                    s.allocation[t][r]
                                } else {
                                    0usize
                                },
                        ),
                    forall|t: int|
                        0 <= t < s.thread_count ==> (#[trigger] self.request@[t])@ =~= Seq::new(
                            self.resource_count as nat,
                            |r: int|
                                if r < s.resource_count {
                                    s.request[t][r]
                                } else {
                                    0usize
                                },
                        ),
                decreases res_id + 1 - self.resource_count,
            {
                let ghost before = *self;
                self.available.push(0);
                push_zero_column(&mut self.allocation);
                push_zero_column(&mut self.request);
                self.resource_count = self.resource_count + 1;
                proof {
                    assert forall|t: int| 0 <= t < s.thread_count implies (
                    #[trigger] self.allocation@[t])@ =~= Seq::new(
                        self.resource_count as nat,
                        |r: int|
                            if r < s.resource_count {
                                s.allocation[t][r]
                            } else {
                                0usize
                            },
                    ) by {
                        assert(rows_view(self.allocation@)[t] == rows_view(before.allocation@)[t].push(
                            0,
                        ));
                    }
                    assert forall|t: int| 0 <= t < s.thread_count implies (
                    #[trigger] self.request@[t])@ =~= Seq::new(
                        self.resource_count as nat,
                        |r: int|
                            if r < s.resource_count {
                                s.request[t][r]
                            } else {
                                0usize
                            },
                    ) by {
                        assert(rows_view(self.request@)[t] == rows_view(before.request@)[t].push(0));
                    }
                }
            }
            self.available.set(res_id, res_cnt);
            proof {
                assert(self@.available =~= goal.available);
                assert forall|t: int| 0 <= t < s.thread_count implies #[trigger] self@.allocation[t]
                    =~= goal.allocation[t] by {
                    assert(self.allocation@[t]@ =~= self@.allocation[t]);
                }
                assert forall|t: int| 0 <= t < s.thread_count implies #[trigger] self@.request[t]
                    =~= goal.request[t] by {
                    assert(self.request@[t]@ =~= self@.request[t]);
                }
                assert(self@.allocation =~= goal.allocation);
                assert(self@.request =~= goal.request);
            }
        } else {
            self.available.set(res_id, res_cnt);
            proof {
                assert forall|t: int| 0 <= t < s.thread_count implies res_id < (
                #[trigger] self.allocation@[t])@.len() by {
                    assert(s.allocation[t].len() == s.resource_count);
                }
            }
            // update matrix
            clear_column(&mut self.allocation, res_id);
            assert forall|t: int| 0 <= t < s.thread_count implies res_id < (
            #[trigger] self.request@[t])@.len() by {
                assert(s.request[t].len() == s.resource_count);
            }
            clear_column(&mut self.request, res_id);
            proof {
                assert(self@.available =~= goal.available);
                assert forall|t: int| 0 <= t < s.thread_count implies #[trigger] self@.allocation[t]
                    =~= goal.allocation[t] by {
                    assert(s.allocation[t].len() == s.resource_count);
                }
                assert forall|t: int| 0 <= t < s.thread_count implies #[trigger] self@.request[t]
                    =~= goal.request[t] by {
                    assert(s.request[t].len() == s.resource_count);
                }
                assert(self@.allocation =~= goal.allocation);
                assert(self@.request =~= goal.request);
            }
        }
        proof {
            assert(self@ =~= goal);
            s.lemma_create(res_id as int, res_cnt as int);
        }
    }

    /// All that thread `tid` holds becomes free, and it holds and waits for nothing.
    fn clear_matrix_for_tid(&mut self, tid: usize)
        requires
            old(self)@.wf(),
            tid < old(self).thread_count,
        ensures
            final(self)@ == old(self)@.after_exit(tid as int),
            final(self)@.wf(),
            forall|r: int|
                0 <= r < old(self)@.resource_count ==> #[trigger] final(self)@.total(r) == old(
                    self,
                )@.total(r),
    {
        let ghost s = self@;
        proof {
            s.lemma_exit(tid as int);
            assert(s.allocation[tid as int].len() == s.resource_count);
            assert(s.request[tid as int].len() == s.resource_count);
        }
        let mut rid: usize = 0;
        while rid < self.resource_count
            invariant
                s.wf(),
                tid < s.thread_count,
                self.resource_count == s.resource_count,
                self.allocation@ == old(self).allocation@,
                self.request@ == old(self).request@,
                self.enabled == s.enabled,
                self.thread_count == s.thread_count,
                rows_view(self.allocation@) == s.allocation,
                s.allocation[tid as int].len() == s.resource_count,
                self.available@.len() == s.resource_count,
                rid <= self.resource_count,
                forall|r: int|
                    0 <= r < s.resource_count ==> s.available[r] + s.allocation[tid as int][r]
                        <= usize::MAX,
                forall|r: int|
                    0 <= r < rid ==> #[trigger] self.available@[r] == s.available[r]
                        + s.allocation[tid as int][r],
                forall|r: int|
                    rid <= r < s.resource_count ==> #[trigger] self.available@[r]
                        == s.available[r],
            decreases self.resource_count - rid,
        {
            let v = self.available[rid] + self.allocation[tid][rid];
            self.available.set(rid, v);
            rid = rid + 1;
        }
        clear_row(&mut self.allocation, tid);
        clear_row(&mut self.request, tid);
        assert(self@ =~= s.after_exit(tid as int));
    }

    /// A thread created by process
    pub fn thread_join(&mut self, tid: usize)
        requires
            old(self)@.wf(),
            tid < usize::MAX,
        ensures
            final(self)@ == old(self)@.after_join(tid as int),
            final(self)@.wf(),
            final(self).thread_count >= old(self).thread_count,
            tid < old(self).thread_count ==> final(self).thread_count == old(self).thread_count,
            tid >= old(self).thread_count ==> final(self).thread_count == tid + 1,
            forall|t: int|
                0 <= t < old(self)@.thread_count && t != tid ==> #[trigger] final(self)@.request[t]
                    == old(self)@.request[t] && final(self)@.allocation[t] == old(
                    self,
                )@.allocation[t],
            forall|t: int, r: int|
                0 <= t < final(self)@.thread_count && 0 <= r < old(self)@.resource_count && (t
                    == tid || t >= old(self)@.thread_count) ==> #[trigger] final(self)@.request[t][r]
                    == 0 && final(self)@.allocation[t][r] == 0,
            forall|r: int|
                0 <= r < old(self)@.resource_count ==> #[trigger] final(self)@.available[r] == if tid
                    < old(self)@.thread_count {
                    old(self)@.available[r] + old(self)@.allocation[tid as int][r]
                } else {
                    old(self)@.available[r] as int
                },
            final(self).resource_count == old(self).resource_count,
            forall|r: int|
                0 <= r < old(self)@.resource_count ==> #[trigger] final(self)@.total(r) == old(
                    self,
                )@.total(r),
    {
        let ghost s = self@;
        proof {
            s.lemma_join(tid as int);
            if tid < s.thread_count {
                law_exit_clears_only_that_thread(s, tid as int);
            } else {
                law_join_adds_idle_threads(s, tid as int);
            }
        }
        if tid >= self.thread_count {
            while tid >= self.thread_count
                invariant
                    self.enabled == s.enabled,
                    self.resource_count == s.resource_count,
                    self.available@ == s.available,
                    s.thread_count <= self.thread_count <= tid + 1,
                    tid < usize::MAX,
                    self.allocation@.len() == self.thread_count,
                    self.request@.len() == self.thread_count,
                    forall|t: int|
                        0 <= t < self.thread_count ==> (#[trigger] self.allocation@[t])@ == if t
                            < s.thread_count {
                            s.allocation[t]
                        } else {
                            zeros(s.resource_count)
                        },
                    forall|t: int|
                        0 <= t < self.thread_count ==> (#[trigger] self.request@[t])@ == if t
                            < s.thread_count {
                            s.request[t]
                        } else {
                            zeros(s.resource_count)
                        },
                decreases tid + 1 - self.thread_count,
            {
                let row = zero_row(self.resource_count);
                self.allocation.push(row);
                let row = zero_row(self.resource_count);
                self.request.push(row);
                self.thread_count = self.thread_count + 1;
            }
            assert(self@ =~= s.after_join(tid as int));
        } else {
            self.clear_matrix_for_tid(tid);
        }
    }

    /// A thread exited
    pub fn thread_exit(&mut self, tid: usize)
        requires
            old(self)@.wf(),
            tid < old(self).thread_count,
        ensures
            final(self)@ == old(self)@.after_exit(tid as int),
            final(self)@.wf(),
            final(self).thread_count == old(self).thread_count,
            final(self).resource_count == old(self).resource_count,
            forall|t: int|
                0 <= t < old(self)@.thread_count && t != tid ==> #[trigger] final(self)@.request[t]
                    == old(self)@.request[t] && final(self)@.allocation[t] == old(
                    self,
                )@.allocation[t],
            forall|r: int|
                0 <= r < old(self)@.resource_count ==> #[trigger] final(self)@.available[r] == old(
                    self,
                )@.available[r] + old(self)@.allocation[tid as int][r] && final(self)@.request[tid
                    as int][r] == 0 && final(self)@.allocation[tid as int][r] == 0,
            forall|r: int|
                0 <= r < old(self)@.resource_count ==> #[trigger] final(self)@.total(r) == old(
                    self,
                )@.total(r),
    {
        proof {
            law_exit_clears_only_that_thread(old(self)@, tid as int);
        }
        // restore available
        self.clear_matrix_for_tid(tid);
    }
}

/// A wrapper struct for deadlock detection that provides exclusive access to the detector.
pub struct DeadLockDetector {
    inner: DeadlockDetectorInner,
}

impl DeadLockDetector {
    /// The detector inside.
    pub closed spec fn inner(&self) -> DeadlockDetectorInner {
        self.inner
    }

    /// create a deadlock detector impl with banker
    pub fn new() -> (d: Self)
        ensures
            d.inner()@.wf(),
            d.inner()@ == DeadlockDetectorInner::new_view(),
    {
        Self { inner: DeadlockDetectorInner::new() }
    }

    /// Get the mutable reference of the inner detector
    pub fn inner_exclusive_access(&mut self) -> (inner: &mut DeadlockDetectorInner)
        ensures
            *inner == old(self).inner(),
            final(self).inner() == *final(inner),
    {
        &mut self.inner
    }
}

/// A request that is served at once is undone by releasing the same units:
/// the release succeeds and the detector is back where it was.
pub proof fn law_release_undoes_served_request(s: DetectorView, tid: int, res: int, cnt: int)
    requires
        s.wf(),
        s.request_allowed(tid, res, cnt),
        0 <= cnt,
        s.enabled ==> s.safe_with(s.request_with(tid, res, cnt)) && cnt <= s.available[res],
    ensures
        s.after_request(tid, res, cnt).1,
        s.after_request(tid, res, cnt).0.after_release(tid, res, cnt) == (s, true),
{
    s.lemma_grant(tid, res, cnt);
    let a = s.after_request(tid, res, cnt).0;
    assert(a == s.grant(tid, res, cnt));
    let b = a.after_release(tid, res, cnt).0;
    assert(s.allocation[tid].len() == s.resource_count);
    assert(b.allocation[tid] =~= s.allocation[tid]);
    assert(b.allocation =~= s.allocation);
    assert(b.available =~= s.available);
    assert(b =~= s);
}

/// Starting a thread whose id is already known clears it exactly as its end
/// does.
pub proof fn law_join_of_known_thread_is_exit(s: DetectorView, tid: int)
    requires
        0 <= tid < s.thread_count,
    ensures
        s.after_join(tid) == s.after_exit(tid),
{
}

/// Giving units back never turns a safe state unsafe.
pub proof fn law_release_keeps_safety(s: DetectorView, tid: int, res: int, cnt: int)
    requires
        s.wf(),
        0 <= tid < s.thread_count,
        0 <= res < s.resource_count,
        0 <= cnt,
        s.safe_with(s.request),
    ensures
        s.after_release(tid, res, cnt).0.safe_with(s.after_release(tid, res, cnt).0.request),
{
    let n = s.after_release(tid, res, cnt).0;
    if cnt <= s.allocation[tid][res] {
        s.lemma_release(tid, res, cnt);
        let order = choose|order: Seq<int>|
            is_safe_order(
                s.available,
                s.allocation,
                s.request,
                s.thread_count,
                s.resource_count,
                order,
            );
        let row = s.allocation[tid].update(res, (s.allocation[tid][res] - cnt) as usize);
        assert(n.allocation == s.allocation.update(tid, row));
        assert forall|k: int, r: int|
            0 <= k <= order.len() && 0 <= r < s.resource_count implies s.available[r] + #[trigger] rows_sum(
            s.allocation,
            r,
            order.take(k),
        ) <= n.available[r] + rows_sum(n.allocation, r, order.take(k)) by {
            lemma_take_ids(order, k, s.thread_count);
            lemma_rows_sum_update(s.allocation, r, order.take(k), tid, row);
        }
        lemma_safe_order_monotone(
            s.available,
            s.allocation,
            s.request,
            n.available,
            n.allocation,
            n.request,
            s.thread_count,
            s.resource_count,
            order,
        );
    }
}

/// A thread's end never turns a safe state unsafe.
pub proof fn law_exit_keeps_safety(s: DetectorView, tid: int)
    requires
        s.wf(),
        0 <= tid < s.thread_count,
        s.safe_with(s.request),
    ensures
        s.after_exit(tid).safe_with(s.after_exit(tid).request),
{
    let n = s.after_exit(tid);
    s.lemma_exit(tid);
    let order = choose|order: Seq<int>|
        is_safe_order(
            s.available,
            s.allocation,
            s.request,
            s.thread_count,
            s.resource_count,
            order,
        );
    let row = zeros(s.resource_count);
    assert forall|k: int, r: int|
        0 <= k <= order.len() && 0 <= r < s.resource_count implies s.available[r] + #[trigger] rows_sum(
        s.allocation,
        r,
        order.take(k),
    ) <= n.available[r] + rows_sum(n.allocation, r, order.take(k)) by {
        lemma_take_ids(order, k, s.thread_count);
        lemma_rows_sum_update(s.allocation, r, order.take(k), tid, row);
    }
    assert forall|t: int, r: int|
        0 <= t < s.thread_count && 0 <= r < s.resource_count implies #[trigger] n.request[t][r]
        <= s.request[t][r] by {
        if t != tid {
            assert(n.request[t] == s.request[t]);
        }
    }
    lemma_safe_order_monotone(
        s.available,
        s.allocation,
        s.request,
        n.available,
        n.allocation,
        n.request,
        s.thread_count,
        s.resource_count,
        order,
    );
}

/// Starting a thread never turns a safe state unsafe.
pub proof fn law_join_keeps_safety(s: DetectorView, tid: int)
    requires
        s.wf(),
        0 <= tid,
        s.safe_with(s.request),
    ensures
        s.after_join(tid).safe_with(s.after_join(tid).request),
{
    if tid < s.thread_count {
        law_exit_keeps_safety(s, tid);
    } else {
        let n = s.after_join(tid);
        let tc = s.thread_count;
        let order = choose|order: Seq<int>|
            is_safe_order(s.available, s.allocation, s.request, tc, s.resource_count, order);
        // the new threads, which hold and wait for nothing, finish last
        let fresh = Seq::new((tid + 1 - tc) as nat, |i: int| tc + i);
        let longer = order + fresh;
        assert forall|i: int| 0 <= i < longer.len() implies 0 <= #[trigger] longer[i]
            < n.thread_count by {
            if i < order.len() {
                assert(longer[i] == order[i]);
            } else {
                assert(longer[i] == fresh[i - order.len()]);
            }
        }
        assert(longer.no_duplicates()) by {
            assert forall|a: int, b: int|
                0 <= a < longer.len() && 0 <= b < longer.len() && a != b implies longer[a]
                != longer[b] by {
                if a < order.len() {
                    assert(longer[a] == order[a]);
                }
                if b < order.len() {
                    assert(longer[b] == order[b]);
                }
            }
        }
        assert forall|t: int| 0 <= t < n.thread_count implies #[trigger] longer.contains(t) by {
            if t < tc {
                assert(order.contains(t));
                let p = choose|p: int| 0 <= p < order.len() && order[p] == t;
                assert(longer[p] == t);
            } else {
                assert(longer[order.len() + t - tc] == t);
            }
        }
        assert forall|k: int| 0 <= k < longer.len() implies fits(
            n.request[#[trigger] longer[k]],
            work_after(n.available, n.allocation, longer.take(k), n.resource_count),
            n.resource_count,
        ) by {
            let w = work_after(n.available, n.allocation, longer.take(k), n.resource_count);
            if k < order.len() {
                let p = order.take(k);
                assert(longer.take(k) =~= p);
                assert(longer[k] == order[k]);
                let w0 = work_after(s.available, s.allocation, p, s.resource_count);
                assert(fits(s.request[order[k]], w0, s.resource_count));
                assert forall|r: int| 0 <= r < n.resource_count implies n.request[longer[k]][r]
                    <= #[trigger] w[r] by {
                    assert forall|i: int| 0 <= i < p.len() implies n.allocation[#[trigger] p[i]][r]
                        == s.allocation[p[i]][r] by {
                        assert(p[i] == order[i]);
                    }
                    lemma_rows_sum_same_column(n.allocation, s.allocation, r, p);
                    assert(s.request[order[k]][r] <= w0[r]);
                }
            } else {
                assert(longer[k] == fresh[k - order.len()]);
                assert forall|r: int| 0 <= r < n.resource_count implies n.request[longer[k]][r]
                    <= #[trigger] w[r] by {
                    lemma_rows_sum_nonneg(n.allocation, r, longer.take(k));
                }
            }
        }
        assert(is_safe_order(
            n.available,
            n.allocation,
            n.request,
            n.thread_count,
            n.resource_count,
            longer,
        ));
    }
}

/// Creating or resetting a resource never turns a safe state unsafe.
pub proof fn law_create_keeps_safety(s: DetectorView, res: int, cnt: int)
    requires
        s.wf(),
        0 <= res,
        0 <= cnt <= usize::MAX,
        s.safe_with(s.request),
    ensures
        s.after_create(res, cnt).safe_with(s.after_create(res, cnt).request),
{
    let n = s.after_create(res, cnt);
    let order = choose|order: Seq<int>|
        is_safe_order(
            s.available,
            s.allocation,
            s.request,
            s.thread_count,
            s.resource_count,
            order,
        );
    assert forall|k: int| 0 <= k < order.len() implies fits(
        n.request[#[trigger] order[k]],
        work_after(n.available, n.allocation, order.take(k), n.resource_count),
        n.resource_count,
    ) by {
        let p = order.take(k);
        let t = order[k];
        let w = work_after(n.available, n.allocation, p, n.resource_count);
        let w0 = work_after(s.available, s.allocation, p, s.resource_count);
        assert(fits(s.request[t], w0, s.resource_count));
        assert(0 <= t < s.thread_count);
        assert forall|r: int| 0 <= r < n.resource_count implies n.request[t][r] <= #[trigger] w[r] by {
            lemma_rows_sum_nonneg(n.allocation, r, p);
            if r != res && r < s.resource_count {
                assert forall|i: int| 0 <= i < p.len() implies n.allocation[#[trigger] p[i]][r]
                    == s.allocation[p[i]][r] by {
                    assert(p[i] == order[i]);
                }
                lemma_rows_sum_same_column(n.allocation, s.allocation, r, p);
                assert(s.request[t][r] <= w0[r]);
            }
        }
    }
    assert(is_safe_order(
        n.available,
        n.allocation,
        n.request,
        n.thread_count,
        n.resource_count,
        order,
    ));
}

/// With detection on, a request that is accepted but cannot be served at
/// once leaves the state safe with the thread waiting.
pub proof fn law_waiting_request_leaves_safe_state(s: DetectorView, tid: int, res: int, cnt: int)
    requires
        s.enabled,
        s.after_request(tid, res, cnt).1,
        cnt > s.available[res],
    ensures
        s.after_request(tid, res, cnt).0.safe_with(s.after_request(tid, res, cnt).0.request),
{
}

/// With detection on, a request is not refused when a larger one by the same
/// thread for the same resource, from the same state, would be accepted.
pub proof fn law_smaller_request_not_refused(s: DetectorView, tid: int, res: int, c1: int, c2: int)
    requires
        s.wf(),
        s.enabled,
        0 <= c1 <= c2,
        s.request_allowed(tid, res, c2),
        s.after_request(tid, res, c2).1,
    ensures
        s.after_request(tid, res, c1).1,
{
    let big = s.request_with(tid, res, c2);
    let small = s.request_with(tid, res, c1);
    let order = choose|order: Seq<int>|
        is_safe_order(s.available, s.allocation, big, s.thread_count, s.resource_count, order);
    assert(s.request[tid].len() == s.resource_count);
    assert forall|t: int, r: int|
        0 <= t < s.thread_count && 0 <= r < s.resource_count implies #[trigger] small[t][r]
        <= big[t][r] by {
        if t != tid {
            assert(small[t] == s.request[t] && big[t] == s.request[t]);
        }
    }
    lemma_safe_order_monotone(
        s.available,
        s.allocation,
        big,
        s.available,
        s.allocation,
        small,
        s.thread_count,
        s.resource_count,
        order,
    );
}

/// Creating the same resource twice with the same count gives the state that
/// creating it once gives.
pub proof fn law_create_twice_is_once(s: DetectorView, res: int, cnt: int)
    requires
        s.wf(),
        0 <= res,
        0 <= cnt <= usize::MAX,
    ensures
        s.after_create(res, cnt).after_create(res, cnt) == s.after_create(res, cnt),
{
    let g = s.after_create(res, cnt);
    let h = g.after_create(res, cnt);
    assert(h.resource_count == g.resource_count);
    assert(h.available =~= g.available);
    assert forall|t: int| 0 <= t < g.thread_count implies #[trigger] h.allocation[t]
        =~= g.allocation[t] by {}
    assert forall|t: int| 0 <= t < g.thread_count implies #[trigger] h.request[t]
        =~= g.request[t] by {}
    assert(h.allocation =~= g.allocation);
    assert(h.request =~= g.request);
    assert(h =~= g);
}

/// With detection on, a request is decided on the outstanding requests in
/// which the thread's wait for the resource grows by the units asked: it is
/// accepted exactly when every thread can then still finish in some order.
/// A refused request changes nothing; an accepted one whose units are free
/// moves them to the thread; an accepted one whose units are not free adds
/// them to what the thread waits for and changes nothing else.
pub proof fn law_request_decided_with_added_count(s: DetectorView, tid: int, res: int, cnt: int)
    requires
        s.wf(),
        s.enabled,
        s.request_allowed(tid, res, cnt),
        0 <= cnt,
    ensures
        s.after_request(tid, res, cnt).1 == is_safe(
            s.available,
            s.allocation,
            s.request.update(tid, s.request[tid].update(res, (s.request[tid][res] + cnt) as usize)),
            s.thread_count,
            s.resource_count,
        ),
        !s.after_request(tid, res, cnt).1 ==> s.after_request(tid, res, cnt).0 == s,
        s.after_request(tid, res, cnt).1 && cnt <= s.available[res] ==> {
            let n = s.after_request(tid, res, cnt).0;
            &&& n.request == s.request
            &&& n.available[res] == s.available[res] - cnt
            &&& n.allocation[tid][res] == s.allocation[tid][res] + cnt
            &&& forall|r: int| 0 <= r < s.resource_count && r != res ==> n.available[r] == s.available[r]
            &&& forall|t: int, r: int|
                0 <= t < s.thread_count && 0 <= r < s.resource_count && (t != tid || r != res)
                    ==> #[trigger] n.allocation[t][r] == s.allocation[t][r]
        },
        s.after_request(tid, res, cnt).1 && cnt > s.available[res] ==> {
            let n = s.after_request(tid, res, cnt).0;
            &&& n.available == s.available
            &&& n.allocation == s.allocation
            &&& n.request[tid][res] == s.request[tid][res] + cnt
            &&& n.request[tid].len() == s.request[tid].len()
            &&& forall|t: int, r: int|
                0 <= t < s.thread_count && 0 <= r < s.resource_count && (t != tid || r != res)
                    ==> #[trigger] n.request[t][r] == s.request[t][r]
        },
{
    if cnt <= s.available[res] {
        s.lemma_grant(tid, res, cnt);
    }
    let n = s.after_request(tid, res, cnt).0;
    assert forall|t: int, r: int|
        0 <= t < s.thread_count && 0 <= r < s.resource_count && (t != tid || r != res)
            implies #[trigger] n.allocation[t][r] == s.allocation[t][r] by {
        if t != tid {
            assert(n.allocation[t] == s.allocation[t]);
        }
    }
    assert forall|t: int, r: int|
        0 <= t < s.thread_count && 0 <= r < s.resource_count && (t != tid || r != res)
            implies #[trigger] n.request[t][r] == s.request[t][r] by {
        if t != tid {
            assert(n.request[t] == s.request[t]);
        }
    }
}

/// A thread's end frees what it held and clears its own rows, and leaves
/// every other thread's holdings and waits as they were.
pub proof fn law_exit_clears_only_that_thread(s: DetectorView, tid: int)
    requires
        s.wf(),
        0 <= tid < s.thread_count,
    ensures
        s.after_exit(tid).thread_count == s.thread_count,
        s.after_exit(tid).resource_count == s.resource_count,
        s.after_exit(tid).enabled == s.enabled,
        forall|t: int|
            0 <= t < s.thread_count && t != tid ==> #[trigger] s.after_exit(tid).request[t]
                == s.request[t] && s.after_exit(tid).allocation[t] == s.allocation[t],
        s.after_exit(tid).request[tid].len() == s.resource_count,
        s.after_exit(tid).allocation[tid].len() == s.resource_count,
        forall|r: int|
            0 <= r < s.resource_count ==> #[trigger] s.after_exit(tid).available[r]
                == s.available[r] + s.allocation[tid][r] && s.after_exit(tid).request[tid][r] == 0
                && s.after_exit(tid).allocation[tid][r] == 0,
{
    s.lemma_exit(tid);
}

/// Starting a thread with a new id adds threads up to that id, each holding
/// and waiting for nothing, and leaves everything else as it was.
pub proof fn law_join_adds_idle_threads(s: DetectorView, tid: int)
    requires
        s.wf(),
        s.thread_count <= tid,
    ensures
        s.after_join(tid).thread_count == tid + 1,
        s.after_join(tid).resource_count == s.resource_count,
        s.after_join(tid).enabled == s.enabled,
        s.after_join(tid).available == s.available,
        forall|t: int|
            0 <= t < s.thread_count ==> #[trigger] s.after_join(tid).request[t] == s.request[t]
                && s.after_join(tid).allocation[t] == s.allocation[t],
        forall|t: int, r: int|
            s.thread_count <= t <= tid && 0 <= r < s.resource_count ==> #[trigger] s.after_join(
                tid,
            ).request[t][r] == 0 && s.after_join(tid).allocation[t][r] == 0,
        forall|t: int|
            s.thread_count <= t <= tid ==> #[trigger] s.after_join(tid).request[t].len()
                == s.resource_count && s.after_join(tid).allocation[t].len() == s.resource_count,
{
}

} // verus!
