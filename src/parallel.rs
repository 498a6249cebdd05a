//! The data-parallel loops, run by rayon's thread pool.

use vstd::prelude::*;
use rayon::iter::{IntoParallelIterator, IntoParallelRefMutIterator, ParallelIterator};
use crate::matrix::{or_pivot_row, Matrix};
use crate::relation::{pivot_row, row_closed};

verus! {

/// Relies on rayon's `into_par_iter` on the range `0..n` and `ParallelIterator::all`:
/// the result is true exactly when the predicate holds of every index; after a
/// counterexample the remaining indices may be skipped.
#[verifier::external_body]
pub(crate) fn par_all_rows_closed(m: &Matrix, n: usize) -> (r: bool)
    requires
        m.wf(),
        n == m@.len(),
    ensures
        r == (forall|i: int| 0 <= i < m@.len() ==> #[trigger] row_closed(m@, i)),
{
    (0..n).into_par_iter().all(|i| m.row_is_closed(i))
}

/// Relies on rayon's `par_iter_mut` on a `Vec` and `ParallelIterator::for_each`:
/// the update runs exactly once on each row, each row lent to one worker.
#[verifier::external_body]
pub(crate) fn par_or_pivot_rows(rows: &mut Vec<Vec<bool>>, k: usize, pivot: &Vec<bool>)
    requires
        k < pivot@.len(),
        forall|i: int| 0 <= i < old(rows)@.len() ==> #[trigger] old(rows)@[i]@.len() == pivot@.len(),
    ensures
        final(rows)@.len() == old(rows)@.len(),
        forall|i: int|
            0 <= i < old(rows)@.len() ==> #[trigger] final(rows)@[i]@ == pivot_row(old(rows)@[i]@, k as int, pivot@),
{
    rows.par_iter_mut().for_each(|row| or_pivot_row(row, k, pivot))
}

} // verus!
