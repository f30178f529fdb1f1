//! The mathematics of the banker's safety check: column sums of a matrix of
//! counts over a list of threads, what it means for a state to be safe, and
//! the lemmas about those sums that the detector's proofs use.

use vstd::prelude::*;

verus! {

/// The sum of column `r` of the matrix `m` over the rows listed in `rows`.
pub open spec fn rows_sum(m: Seq<Seq<usize>>, r: int, rows: Seq<int>) -> int
    decreases rows.len(),
{
    if rows.len() == 0 {
        0
    } else {
        rows_sum(m, r, rows.drop_last()) + m[rows.last()][r]
    }
}

/// The thread ids `0, 1, ..., n - 1`, in order.
pub open spec fn thread_ids(n: nat) -> Seq<int> {
    Seq::new(n, |i: int| i)
}

/// The sum of column `r` of `m` over its first `n` rows.
pub open spec fn column_sum(m: Seq<Seq<usize>>, r: int, n: nat) -> int {
    rows_sum(m, r, thread_ids(n))
}

/// What is free of each resource once the threads in `done` have finished and
/// handed back what they hold.
pub open spec fn work_after(
    available: Seq<usize>,
    allocation: Seq<Seq<usize>>,
    done: Seq<int>,
    resource_count: nat,
) -> Seq<int> {
    Seq::new(resource_count, |r: int| available[r] + rows_sum(allocation, r, done))
}

/// A thread whose outstanding request is `need` can run to its end with `work`.
pub open spec fn fits(need: Seq<usize>, work: Seq<int>, resource_count: nat) -> bool {
    forall|r: int| 0 <= r < resource_count ==> need[r] <= #[trigger] work[r]
}

/// `order` lists every thread exactly once, and each thread in it can finish
/// with what is free once the threads before it have finished.
pub open spec fn is_safe_order(
    available: Seq<usize>,
    allocation: Seq<Seq<usize>>,
    request: Seq<Seq<usize>>,
    thread_count: nat,
    resource_count: nat,
    order: Seq<int>,
) -> bool {
    &&& order.no_duplicates()
    &&& forall|i: int| 0 <= i < order.len() ==> 0 <= #[trigger] order[i] < thread_count
    &&& forall|t: int| 0 <= t < thread_count ==> #[trigger] order.contains(t)
    &&& forall|k: int|
        0 <= k < order.len() ==> fits(
            request[#[trigger] order[k]],
            work_after(available, allocation, order.take(k), resource_count),
            resource_count,
        )
}

/// A state is safe when its threads can all finish in some order.
pub open spec fn is_safe(
    available: Seq<usize>,
    allocation: Seq<Seq<usize>>,
    request: Seq<Seq<usize>>,
    thread_count: nat,
    resource_count: nat,
) -> bool {
    exists|order: Seq<int>|
        is_safe_order(available, allocation, request, thread_count, resource_count, order)
}

/// The number of `false` entries of `f`.
pub open spec fn unfinished_count(f: Seq<bool>) -> nat
    decreases f.len(),
{
    if f.len() == 0 {
        0
    } else {
        unfinished_count(f.drop_last()) + if f.last() {
            0nat
        } else {
            1nat
        }
    }
}

pub proof fn lemma_unfinished_count_mark(f: Seq<bool>, t: int)
    requires
        0 <= t < f.len(),
        !f[t],
    ensures
        unfinished_count(f.update(t, true)) + 1 == unfinished_count(f),
    decreases f.len(),
{
    let g = f.update(t, true);
    if t == f.len() - 1 {
        assert(g.drop_last() =~= f.drop_last());
    } else {
        assert(g.drop_last() =~= f.drop_last().update(t, true));
        lemma_unfinished_count_mark(f.drop_last(), t);
    }
}

pub proof fn lemma_rows_sum_nonneg(m: Seq<Seq<usize>>, r: int, rows: Seq<int>)
    ensures
        rows_sum(m, r, rows) >= 0,
    decreases rows.len(),
{
    if rows.len() > 0 {
        lemma_rows_sum_nonneg(m, r, rows.drop_last());
    }
}

pub proof fn lemma_rows_sum_push(m: Seq<Seq<usize>>, r: int, rows: Seq<int>, x: int)
    ensures
        rows_sum(m, r, rows.push(x)) == rows_sum(m, r, rows) + m[x][r],
{
    assert(rows.push(x).drop_last() =~= rows);
}

/// Taking one row out of the list takes its entry out of the sum.
pub proof fn lemma_rows_sum_remove(m: Seq<Seq<usize>>, r: int, rows: Seq<int>, i: int)
    requires
        0 <= i < rows.len(),
    ensures
        rows_sum(m, r, rows) == rows_sum(m, r, rows.remove(i)) + m[rows[i]][r],
    decreases rows.len(),
{
    let d = rows.drop_last();
    if i == rows.len() - 1 {
        assert(rows.remove(i) =~= d);
    } else {
        assert(rows.remove(i).drop_last() =~= d.remove(i));
        assert(rows.remove(i).last() == rows.last());
        lemma_rows_sum_remove(m, r, d, i);
    }
}

/// A sum over a duplicate-free sublist is no larger than the sum over the list.
pub proof fn lemma_rows_sum_subset(m: Seq<Seq<usize>>, r: int, a: Seq<int>, b: Seq<int>)
    requires
        a.no_duplicates(),
        b.no_duplicates(),
        forall|x: int| a.contains(x) ==> b.contains(x),
    ensures
        rows_sum(m, r, a) <= rows_sum(m, r, b),
    decreases a.len(),
{
    if a.len() == 0 {
        lemma_rows_sum_nonneg(m, r, b);
    } else {
        let x = a.last();
        let a1 = a.drop_last();
        assert(a.contains(x)) by {
            assert(a[a.len() - 1] == x);
        }
        let j = b.index_of(x);
        let b1 = b.remove(j);
        assert forall|y: int| a1.contains(y) implies b1.contains(y) by {
            let p = choose|p: int| 0 <= p < a1.len() && a1[p] == y;
            assert(a[p] == y);
            assert(a.contains(y));
            assert(y != x) by {
                assert(a[a.len() - 1] == x);
            }
            assert(b.contains(y));
            let q = choose|q: int| 0 <= q < b.len() && b[q] == y;
            assert(q != j);
            if q < j {
                assert(b1[q] == y);
            } else {
                assert(b1[q - 1] == y);
            }
        }
        assert(b1.no_duplicates()) by {
            assert forall|p: int, q: int|
                0 <= p < b1.len() && 0 <= q < b1.len() && p != q implies b1[p] != b1[q] by {
                let pp = if p < j {
                    p
                } else {
                    p + 1
                };
                let qq = if q < j {
                    q
                } else {
                    q + 1
                };
                assert(b1[p] == b[pp]);
                assert(b1[q] == b[qq]);
            }
        }
        lemma_rows_sum_subset(m, r, a1, b1);
        lemma_rows_sum_remove(m, r, b, j);
    }
}

/// An entry that occurs in the list is no larger than the sum.
pub proof fn lemma_rows_sum_entry(m: Seq<Seq<usize>>, r: int, rows: Seq<int>, x: int)
    requires
        rows.no_duplicates(),
        rows.contains(x),
    ensures
        m[x][r] <= rows_sum(m, r, rows),
{
    let single = seq![x];
    assert(single.drop_last() =~= Seq::<int>::empty());
    assert forall|y: int| single.contains(y) implies rows.contains(y) by {
        assert(single[0] == x);
    }
    assert(single.last() == x);
    assert(rows_sum(m, r, single) == rows_sum(m, r, Seq::<int>::empty()) + m[x][r]);
    lemma_rows_sum_subset(m, r, single, rows);
}

/// Replacing row `t` changes the sum by the change in that row's entry, when
/// `t` is listed.
pub proof fn lemma_rows_sum_update(
    m: Seq<Seq<usize>>,
    r: int,
    rows: Seq<int>,
    t: int,
    row: Seq<usize>,
)
    requires
        rows.no_duplicates(),
        0 <= t < m.len(),
        forall|i: int| 0 <= i < rows.len() ==> 0 <= #[trigger] rows[i] < m.len(),
    ensures
        rows_sum(m.update(t, row), r, rows) == rows_sum(m, r, rows) + if rows.contains(t) {
            row[r] - m[t][r]
        } else {
            0
        },
    decreases rows.len(),
{
    if rows.len() > 0 {
        let d = rows.drop_last();
        let x = rows.last();
        assert(rows[rows.len() - 1] == x);
        lemma_rows_sum_update(m, r, d, t, row);
        if d.contains(t) {
            let p = choose|p: int| 0 <= p < d.len() && d[p] == t;
            assert(rows[p] == t);
        }
        if rows.contains(t) && x != t {
            let p = choose|p: int| 0 <= p < rows.len() && rows[p] == t;
            assert(d[p] == t);
        }
        if x == t {
            assert(!d.contains(t)) by {
                if d.contains(t) {
                    let p = choose|p: int| 0 <= p < d.len() && d[p] == t;
                    assert(rows[p] == rows[rows.len() - 1]);
                }
            }
        }
    }
}

/// Sums over the same rows agree when the two matrices agree in the column.
pub proof fn lemma_rows_sum_same_column(
    m1: Seq<Seq<usize>>,
    m2: Seq<Seq<usize>>,
    r: int,
    rows: Seq<int>,
)
    requires
        forall|i: int| 0 <= i < rows.len() ==> m1[#[trigger] rows[i]][r] == m2[rows[i]][r],
    ensures
        rows_sum(m1, r, rows) == rows_sum(m2, r, rows),
    decreases rows.len(),
{
    if rows.len() > 0 {
        let d = rows.drop_last();
        assert forall|i: int| 0 <= i < d.len() implies m1[#[trigger] d[i]][r] == m2[d[i]][r] by {
            assert(d[i] == rows[i]);
        }
        lemma_rows_sum_same_column(m1, m2, r, d);
        assert(rows[rows.len() - 1] == rows.last());
    }
}

/// A column over the first `n2` rows of `m2` sums to the column over the first
/// `n1` rows of `m1` when the rows agree up to `n1` and the rest hold zero.
pub proof fn lemma_column_sum_extend(
    m1: Seq<Seq<usize>>,
    m2: Seq<Seq<usize>>,
    r: int,
    n1: nat,
    n2: nat,
)
    requires
        n1 <= n2,
        forall|t: int| 0 <= t < n1 ==> m2[t][r] == m1[t][r],
        forall|t: int| n1 <= t < n2 ==> m2[t][r] == 0,
    ensures
        column_sum(m2, r, n2) == column_sum(m1, r, n1),
    decreases n2,
{
    if n2 == n1 {
        lemma_rows_sum_same_column(m2, m1, r, thread_ids(n1));
    } else {
        let n = (n2 - 1) as nat;
        assert(thread_ids(n2).drop_last() =~= thread_ids(n));
        lemma_column_sum_extend(m1, m2, r, n1, n);
    }
}

/// The first thread ids form a duplicate-free list of the ids below `n`.
pub proof fn lemma_thread_ids(n: nat)
    ensures
        thread_ids(n).no_duplicates(),
        forall|t: int| 0 <= t < n <==> #[trigger] thread_ids(n).contains(t),
{
    assert forall|t: int| 0 <= t < n implies #[trigger] thread_ids(n).contains(t) by {
        assert(thread_ids(n)[t] == t);
    }
}

/// Every listed thread id below `n` makes the sum over `rows` at most the
/// column sum over the first `n` rows.
pub proof fn lemma_rows_sum_le_column(m: Seq<Seq<usize>>, r: int, rows: Seq<int>, n: nat)
    requires
        rows.no_duplicates(),
        forall|i: int| 0 <= i < rows.len() ==> 0 <= #[trigger] rows[i] < n,
    ensures
        rows_sum(m, r, rows) <= column_sum(m, r, n),
{
    lemma_thread_ids(n);
    assert forall|x: int| rows.contains(x) implies thread_ids(n).contains(x) by {
        let p = choose|p: int| 0 <= p < rows.len() && rows[p] == x;
        assert(0 <= rows[p] < n);
    }
    lemma_rows_sum_subset(m, r, rows, thread_ids(n));
}

/// The first position, up to `j`, whose thread is not in `done`.
pub proof fn lemma_first_outside(order: Seq<int>, done: Seq<int>, j: int) -> (k: int)
    requires
        0 <= j < order.len(),
        !done.contains(order[j]),
    ensures
        0 <= k <= j,
        !done.contains(order[k]),
        forall|i: int| 0 <= i < k ==> done.contains(#[trigger] order[i]),
    decreases j,
{
    if exists|i: int| 0 <= i < j && !done.contains(#[trigger] order[i]) {
        let i = choose|i: int| 0 <= i < j && !done.contains(#[trigger] order[i]);
        lemma_first_outside(order, done, i)
    } else {
        j
    }
}

/// When the threads in `done` have finished and no other thread can finish,
/// while some thread has not, no order lets every thread finish.
pub proof fn lemma_stuck_not_safe(
    available: Seq<usize>,
    allocation: Seq<Seq<usize>>,
    request: Seq<Seq<usize>>,
    thread_count: nat,
    resource_count: nat,
    done: Seq<int>,
    t0: int,
)
    requires
        done.no_duplicates(),
        0 <= t0 < thread_count,
        !done.contains(t0),
        forall|t: int|
            0 <= t < thread_count && !done.contains(t) ==> !fits(
                #[trigger] request[t],
                work_after(available, allocation, done, resource_count),
                resource_count,
            ),
    ensures
        !is_safe(available, allocation, request, thread_count, resource_count),
{
    if is_safe(available, allocation, request, thread_count, resource_count) {
        let order = choose|order: Seq<int>|
            is_safe_order(available, allocation, request, thread_count, resource_count, order);
        assert(order.contains(t0));
        let j = choose|j: int| 0 <= j < order.len() && order[j] == t0;
        let k = lemma_first_outside(order, done, j);
        let p = order.take(k);
        let x = order[k];
        assert forall|y: int| p.contains(y) implies done.contains(y) by {
            let i = choose|i: int| 0 <= i < p.len() && p[i] == y;
            assert(order[i] == y);
        }
        assert(p.no_duplicates()) by {
            assert forall|a: int, b: int|
                0 <= a < p.len() && 0 <= b < p.len() && a != b implies p[a] != p[b] by {
                assert(p[a] == order[a]);
                assert(p[b] == order[b]);
            }
        }
        let w1 = work_after(available, allocation, p, resource_count);
        let w2 = work_after(available, allocation, done, resource_count);
        assert(fits(request[x], w1, resource_count));
        assert forall|r: int| 0 <= r < resource_count implies request[x][r] <= #[trigger] w2[r] by {
            assert(request[x][r] <= w1[r]);
            lemma_rows_sum_subset(allocation, r, p, done);
        }
        assert(fits(request[x], w2, resource_count));
        assert(0 <= x < thread_count);
    }
}

/// A safe order stays safe when no thread waits for more and, whichever of
/// its prefixes has finished, no less is free.
pub proof fn lemma_safe_order_monotone(
    available1: Seq<usize>,
    allocation1: Seq<Seq<usize>>,
    request1: Seq<Seq<usize>>,
    available2: Seq<usize>,
    allocation2: Seq<Seq<usize>>,
    request2: Seq<Seq<usize>>,
    thread_count: nat,
    resource_count: nat,
    order: Seq<int>,
)
    requires
        is_safe_order(available1, allocation1, request1, thread_count, resource_count, order),
        forall|t: int, r: int|
            0 <= t < thread_count && 0 <= r < resource_count ==> #[trigger] request2[t][r]
                <= request1[t][r],
        forall|k: int, r: int|
            0 <= k <= order.len() && 0 <= r < resource_count ==> available1[r] + #[trigger] rows_sum(
                allocation1,
                r,
                order.take(k),
            ) <= available2[r] + rows_sum(allocation2, r, order.take(k)),
    ensures
        is_safe_order(available2, allocation2, request2, thread_count, resource_count, order),
{
    assert forall|k: int| 0 <= k < order.len() implies fits(
        request2[#[trigger] order[k]],
        work_after(available2, allocation2, order.take(k), resource_count),
        resource_count,
    ) by {
        let w1 = work_after(available1, allocation1, order.take(k), resource_count);
        let w2 = work_after(available2, allocation2, order.take(k), resource_count);
        assert(fits(request1[order[k]], w1, resource_count));
        assert forall|r: int| 0 <= r < resource_count implies request2[order[k]][r]
            <= #[trigger] w2[r] by {
            assert(request1[order[k]][r] <= w1[r]);
            assert(request2[order[k]][r] <= request1[order[k]][r]);
        }
    }
}

/// A prefix of a duplicate-free list of thread ids below `n` is one too.
pub proof fn lemma_take_ids(order: Seq<int>, k: int, n: nat)
    requires
        order.no_duplicates(),
        forall|i: int| 0 <= i < order.len() ==> 0 <= #[trigger] order[i] < n,
        0 <= k <= order.len(),
    ensures
        order.take(k).no_duplicates(),
        forall|i: int| 0 <= i < order.take(k).len() ==> 0 <= #[trigger] order.take(k)[i] < n,
{
    assert forall|i: int| 0 <= i < order.take(k).len() implies 0 <= #[trigger] order.take(k)[i]
        < n by {
        assert(order.take(k)[i] == order[i]);
    }
    assert forall|a: int, b: int|
        0 <= a < order.take(k).len() && 0 <= b < order.take(k).len() && a != b implies order.take(
        k,
    )[a] != order.take(k)[b] by {
        assert(order.take(k)[a] == order[a]);
        assert(order.take(k)[b] == order[b]);
    }
}

} // verus!
