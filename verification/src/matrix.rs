//! Small operations on a matrix of counts stored as a vector of rows.

use vstd::prelude::*;
use crate::deadlock::{rows_view, set_entry, zeros};

verus! {

/// A row of `n` zeros.
pub fn zero_row(n: usize) -> (row: Vec<usize>)
    ensures
        row@ == zeros(n as nat),
{
    let mut row: Vec<usize> = Vec::new();
    let mut j: usize = 0;
    while j < n
        invariant
            j <= n,
            row@ =~= zeros(j as nat),
        decreases n - j,
    {
        row.push(0);
        j = j + 1;
    }
    row
}

/// Entry `(i, j)` becomes `v`.
pub fn set_cell(m: &mut Vec<Vec<usize>>, i: usize, j: usize, v: usize)
    requires
        i < old(m)@.len(),
        j < old(m)@[i as int]@.len(),
    ensures
        final(m)@.len() == old(m)@.len(),
        rows_view(final(m)@) == set_entry(rows_view(old(m)@), i as int, j as int, v),
{
    m[i].set(j, v);
    assert(rows_view(m@) =~= set_entry(rows_view(old(m)@), i as int, j as int, v));
}

/// Row `i` becomes all zeros.
pub fn clear_row(m: &mut Vec<Vec<usize>>, i: usize)
    requires
        i < old(m)@.len(),
    ensures
        final(m)@.len() == old(m)@.len(),
        rows_view(final(m)@) == rows_view(old(m)@).update(
            i as int,
            zeros(old(m)@[i as int]@.len()),
        ),
{
    let n = m[i].len();
    let row = zero_row(n);
    m.set(i, row);
    assert(rows_view(m@) =~= rows_view(old(m)@).update(i as int, zeros(n as nat)));
}

/// Every row gets a zero at its end.
pub fn push_zero_column(m: &mut Vec<Vec<usize>>)
    ensures
        final(m)@.len() == old(m)@.len(),
        forall|t: int|
            0 <= t < old(m)@.len() ==> (#[trigger] rows_view(final(m)@)[t]) == rows_view(
                old(m)@,
            )[t].push(0),
{
    let n = m.len();
    let mut t: usize = 0;
    while t < n
        invariant
            n == old(m)@.len(),
            m@.len() == n,
            t <= n,
            forall|u: int| 0 <= u < t ==> (#[trigger] m@[u])@ == old(m)@[u]@.push(0),
            forall|u: int| t <= u < n ==> (#[trigger] m@[u])@ == old(m)@[u]@,
        decreases n - t,
    {
        m[t].push(0);
        t = t + 1;
    }
}

/// Column `j` becomes all zeros.
pub fn clear_column(m: &mut Vec<Vec<usize>>, j: usize)
    requires
        forall|t: int| 0 <= t < old(m)@.len() ==> j < (#[trigger] old(m)@[t])@.len(),
    ensures
        final(m)@.len() == old(m)@.len(),
        forall|t: int|
            0 <= t < old(m)@.len() ==> (#[trigger] rows_view(final(m)@)[t]) == rows_view(
                old(m)@,
            )[t].update(j as int, 0),
{
    let n = m.len();
    let mut t: usize = 0;
    while t < n
        invariant
            n == old(m)@.len(),
            m@.len() == n,
            t <= n,
            forall|u: int| 0 <= u < n ==> j < (#[trigger] old(m)@[u])@.len(),
            forall|u: int| 0 <= u < t ==> (#[trigger] m@[u])@ == old(m)@[u]@.update(j as int, 0),
            forall|u: int| t <= u < n ==> (#[trigger] m@[u])@ == old(m)@[u]@,
        decreases n - t,
    {
        m[t].set(j, 0);
        t = t + 1;
    }
}

} // verus!
