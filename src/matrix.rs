//! The relation matrix: construction, cell access, the checks of the
//! relational properties and the three closures.

use vstd::prelude::*;
use crate::relation::{
    antisymmetric, asymmetric, in_range, irreflexive, is_square, is_transitive_closure,
    lemma_transitive_by_rows, lemma_warshall_done, lemma_warshall_start, lemma_warshall_step,
    pivot_row, reflexive, reflexive_closure, row_closed, symmetric, symmetric_closure, transitive,
    warshall_invariant, warshall_step,
};
use crate::parallel::{par_all_rows_closed, par_or_pivot_rows};

verus! {

/// What can go wrong when a matrix is built or one of its cells is reached.
#[derive(Debug, Clone, Copy, PartialEq, Eq, Structural)]
pub enum MatrixError {
    /// The rows given do not form a square grid.
    DimensionError,
    /// A row or column index is not below the size of the matrix.
    IndexOutOfBounds,
}

/// The random number generator of fastrand, held by the caller and lent to
/// `Matrix::new_random`; seeded, it gives the same cells on every run.
#[verifier::external_type_specification]
#[verifier::external_body]
pub struct ExRng(fastrand::Rng);

/// Relies on fastrand's `Rng::bool`: it draws one bit and advances the
/// generator. Nothing is promised of the bit.
pub assume_specification[ fastrand::Rng::bool ](rng: &mut fastrand::Rng) -> bool;

/// A binary relation over `{0, .., n-1}` as an `n x n` grid of cells.
pub struct Matrix {
    cells: Vec<Vec<bool>>,
}

/// Each row of a grid of integers, seen as a sequence.
pub open spec fn grid_of(data: Seq<Vec<u8>>) -> Seq<Seq<u8>> {
    data.map_values(|r: Vec<u8>| r@)
}

/// The grid of integers has as many columns in each row as it has rows.
pub open spec fn is_square_grid(g: Seq<Seq<u8>>) -> bool {
    forall|i: int| 0 <= i < g.len() ==> #[trigger] g[i].len() == g.len()
}

/// The relation that a grid of integers describes: a nonzero entry relates
/// its row to its column.
pub open spec fn relation_of(g: Seq<Seq<u8>>) -> Seq<Seq<bool>> {
    Seq::new(g.len(), |i: int| Seq::new(g[i].len(), |j: int| g[i][j] != 0))
}

impl View for Matrix {
    type V = Seq<Seq<bool>>;

    closed spec fn view(&self) -> Seq<Seq<bool>> {
        self.cells@.map_values(|r: Vec<bool>| r@)
    }
}

impl Matrix {
    /// The matrix is square.
    pub open spec fn wf(&self) -> bool {
        is_square(self@)
    }

    /// Builds the relation whose cell `(i, j)` is set where `data[i][j]` is
    /// nonzero. Fails with `DimensionError` unless every row is as long as
    /// there are rows.
    pub fn new(data: Vec<Vec<u8>>) -> (r: Result<Matrix, MatrixError>)
        ensures
            match r {
                Ok(m) => m.wf() && is_square_grid(grid_of(data@)) && m@ == relation_of(grid_of(data@)),
                Err(e) => e == MatrixError::DimensionError && !is_square_grid(grid_of(data@)),
            },
    {
        let n = data.len();
        let ghost g = grid_of(data@);
        let mut cells: Vec<Vec<bool>> = Vec::new();
        let mut i: usize = 0;
        while i < n
            invariant
                n == data.len(),
                g == grid_of(data@),
                i <= n,
                cells.len() == i,
                forall|a: int| 0 <= a < i ==> #[trigger] g[a].len() == n,
                forall|a: int| 0 <= a < i ==> #[trigger] cells@[a]@ == relation_of(g)[a],
            decreases n - i,
        {
            if data[i].len() != n {
                assert(g[i as int].len() != g.len());
                return Err(MatrixError::DimensionError);
            }
            let mut row: Vec<bool> = Vec::new();
            let mut j: usize = 0;
            while j < n
                invariant
                    n == data.len(),
                    g == grid_of(data@),
                    i < n,
                    data[i as int].len() == n,
                    j <= n,
                    row@.len() == j,
                    forall|b: int| 0 <= b < j ==> #[trigger] row@[b] == (g[i as int][b] != 0),
                decreases n - j,
            {
                row.push(data[i][j] != 0);
                j += 1;
            }
            assert(row@ =~= relation_of(g)[i as int]);
            cells.push(row);
            i += 1;
        }
        let m = Matrix { cells };
        assert(m@ =~= relation_of(g));
        Ok(m)
    }

    /// A `size x size` matrix whose cells are drawn from `rng`, one bit per
    /// cell, row after row.
    pub fn new_random(size: usize, rng: &mut fastrand::Rng) -> (r: Matrix)
        ensures
            r.wf(),
            r@.len() == size,
    {
        let mut cells: Vec<Vec<bool>> = Vec::new();
        let mut i: usize = 0;
        while i < size
            invariant
                i <= size,
                cells.len() == i,
                forall|a: int| 0 <= a < i ==> #[trigger] cells@[a]@.len() == size,
            decreases size - i,
        {
            let mut row: Vec<bool> = Vec::new();
            let mut j: usize = 0;
            while j < size
                invariant
                    j <= size,
                    row@.len() == j,
                decreases size - j,
            {
                row.push(rng.bool());
                j += 1;
            }
            cells.push(row);
            i += 1;
        }
        let r = Matrix { cells };
        assert forall|a: int| 0 <= a < r@.len() implies #[trigger] r@[a].len() == r@.len() by {
            assert(r@[a] == r.cells@[a]@);
        }
        r
    }

    /// The number of elements of the underlying set.
    pub fn size(&self) -> (r: usize)
        ensures
            r == self@.len(),
    {
        self.cells.len()
    }

    /// Each stored row is as long as there are rows.
    closed spec fn cells_square(&self) -> bool {
        forall|a: int| 0 <= a < self.cells@.len() ==> #[trigger] self.cells@[a]@.len() == self.cells@.len()
    }

    proof fn lemma_cells_square(&self)
        requires
            self.wf(),
        ensures
            self.cells_square(),
    {
        assert forall|a: int| 0 <= a < self.cells@.len() implies #[trigger] self.cells@[a]@.len() == self.cells@.len() by {
            assert(self.cells@[a]@ == self@[a]);
        }
    }

    /// The cell `(i, j)`: whether `i` relates to `j`. Fails with
    /// `IndexOutOfBounds` unless both indices are below the size.
    pub fn get(&self, i: usize, j: usize) -> (r: Result<bool, MatrixError>)
        requires
            self.wf(),
        ensures
            in_range(self@, i as int, j as int) ==> r == Ok::<bool, MatrixError>(self@[i as int][j as int]),
            !in_range(self@, i as int, j as int) ==> r == Err::<bool, MatrixError>(MatrixError::IndexOutOfBounds),
    {
        proof {
            self.lemma_cells_square();
        }
        if i < self.cells.len() && j < self.cells.len() {
            assert(self.cells@[i as int]@ == self@[i as int]);
            Ok(self.cells[i][j])
        } else {
            Err(MatrixError::IndexOutOfBounds)
        }
    }

    /// Sets the cell `(i, j)` to `v`. Fails with `IndexOutOfBounds`, leaving
    /// the matrix as it was, unless both indices are below the size.
    pub fn set(&mut self, i: usize, j: usize, v: bool) -> (r: Result<(), MatrixError>)
        requires
            old(self).wf(),
        ensures
            final(self).wf(),
            in_range(old(self)@, i as int, j as int) ==> r == Ok::<(), MatrixError>(())
                && final(self)@ == old(self)@.update(i as int, old(self)@[i as int].update(j as int, v)),
            !in_range(old(self)@, i as int, j as int) ==> r == Err::<(), MatrixError>(MatrixError::IndexOutOfBounds)
                && final(self)@ == old(self)@,
    {
        proof {
            self.lemma_cells_square();
        }
        if i < self.cells.len() && j < self.cells.len() {
            let ghost m = self@;
            self.cells[i][j] = v;
            assert(self@ =~= m.update(i as int, m[i as int].update(j as int, v)));
            Ok(())
        } else {
            Err(MatrixError::IndexOutOfBounds)
        }
    }

    /// Whether every element relates to itself.
    pub fn is_reflexive(&self) -> (r: bool)
        requires
            self.wf(),
        ensures
            r == reflexive(self@),
    {
        proof {
            self.lemma_cells_square();
        }
        let n = self.cells.len();
        let mut i: usize = 0;
        while i < n
            invariant
                self.wf(),
                self.cells_square(),
                n == self@.len(),
                i <= n,
                forall|a: int| 0 <= a < i ==> #[trigger] self@[a][a],
            decreases n - i,
        {
            if !self.cells[i][i] {
                assert(!self@[i as int][i as int]);
                return false;
            }
            i += 1;
        }
        true
    }

    /// Whether no element relates to itself.
    pub fn is_irreflexive(&self) -> (r: bool)
        requires
            self.wf(),
        ensures
            r == irreflexive(self@),
    {
        proof {
            self.lemma_cells_square();
        }
        let n = self.cells.len();
        let mut i: usize = 0;
        while i < n
            invariant
                self.wf(),
                self.cells_square(),
                n == self@.len(),
                i <= n,
                forall|a: int| 0 <= a < i ==> !#[trigger] self@[a][a],
            decreases n - i,
        {
            if self.cells[i][i] {
                assert(self@[i as int][i as int]);
                return false;
            }
            i += 1;
        }
        true
    }

    /// Whether every pair holds in both directions or in neither.
    pub fn is_symmetric(&self) -> (r: bool)
        requires
            self.wf(),
        ensures
            r == symmetric(self@),
    {
        proof {
            self.lemma_cells_square();
        }
        let ghost m = self@;
        let n = self.cells.len();
        let mut i: usize = 0;
        while i < n
            invariant
                m == self@,
                self.wf(),
                self.cells_square(),
                n == m.len(),
                i <= n,
                forall|a: int, b: int| 0 <= a < i && 0 <= b < n ==> #[trigger] m[a][b] == m[b][a],
            decreases n - i,
        {
            let mut j: usize = 0;
            while j < n
                invariant
                    m == self@,
                    self.wf(),
                    self.cells_square(),
                self.cells_square(),
                    n == m.len(),
                    i < n,
                    j <= n,
                    forall|a: int, b: int| 0 <= a < i && 0 <= b < n ==> #[trigger] m[a][b] == m[b][a],
                    forall|b: int| 0 <= b < j ==> #[trigger] m[i as int][b] == m[b][i as int],
                decreases n - j,
            {
                if self.cells[i][j] != self.cells[j][i] {
                    assert(self@[i as int][j as int] != self@[j as int][i as int]);
                    return false;
                }
                j += 1;
            }
            i += 1;
        }
        true
    }

    /// Whether no two distinct elements relate in both directions; the
    /// diagonal is not looked at.
    pub fn is_antisymmetric(&self) -> (r: bool)
        requires
            self.wf(),
        ensures
            r == antisymmetric(self@),
    {
        proof {
            self.lemma_cells_square();
        }
        let ghost m = self@;
        let n = self.cells.len();
        let mut i: usize = 0;
        while i < n
            invariant
                m == self@,
                self.wf(),
                self.cells_square(),
                n == m.len(),
                i <= n,
                forall|a: int, b: int| 0 <= a < i && 0 <= b < n && a != b ==> !(#[trigger] m[a][b] && m[b][a]),
            decreases n - i,
        {
            let mut j: usize = 0;
            while j < n
                invariant
                    m == self@,
                    self.wf(),
                    self.cells_square(),
                self.cells_square(),
                    n == m.len(),
                    i < n,
                    j <= n,
                    forall|a: int, b: int| 0 <= a < i && 0 <= b < n && a != b ==> !(#[trigger] m[a][b] && m[b][a]),
                    forall|b: int| 0 <= b < j && b != i ==> !(#[trigger] m[i as int][b] && m[b][i as int]),
                decreases n - j,
            {
                if j != i && self.cells[i][j] && self.cells[j][i] {
                    assert(self@[i as int][j as int] && self@[j as int][i as int]);
                    return false;
                }
                j += 1;
            }
            i += 1;
        }
        proof {
            assert forall|a: int, b: int| in_range(m, a, b) && a != b implies !(#[trigger] m[a][b] && m[b][a]) by {}
        }
        true
    }

    /// Whether no pair relates in both directions, an element and itself
    /// included.
    pub fn is_asymmetric(&self) -> (r: bool)
        requires
            self.wf(),
        ensures
            r == asymmetric(self@),
    {
        proof {
            self.lemma_cells_square();
        }
        let ghost m = self@;
        let n = self.cells.len();
        let mut i: usize = 0;
        while i < n
            invariant
                m == self@,
                self.wf(),
                self.cells_square(),
                n == m.len(),
                i <= n,
                forall|a: int, b: int| 0 <= a < i && 0 <= b < n ==> !(#[trigger] m[a][b] && m[b][a]),
            decreases n - i,
        {
            let mut j: usize = 0;
            while j < n
                invariant
                    m == self@,
                    self.wf(),
                    self.cells_square(),
                self.cells_square(),
                    n == m.len(),
                    i < n,
                    j <= n,
                    forall|a: int, b: int| 0 <= a < i && 0 <= b < n ==> !(#[trigger] m[a][b] && m[b][a]),
                    forall|b: int| 0 <= b < j ==> !(#[trigger] m[i as int][b] && m[b][i as int]),
                decreases n - j,
            {
                if self.cells[i][j] && self.cells[j][i] {
                    assert(self@[i as int][j as int] && self@[j as int][i as int]);
                    return false;
                }
                j += 1;
            }
            i += 1;
        }
        true
    }

    /// Whether the relation is an equivalence: reflexive, symmetric and
    /// transitive. Later checks are skipped once one fails.
    pub fn is_equivalence(&self) -> (r: bool)
        requires
            self.wf(),
        ensures
            r == (reflexive(self@) && symmetric(self@) && transitive(self@)),
    {
        self.is_reflexive() && self.is_symmetric() && self.is_transitive()
    }

    /// The reflexive closure, as a new matrix: every diagonal cell set.
    pub fn make_reflexive(&self) -> (r: Matrix)
        requires
            self.wf(),
        ensures
            r.wf(),
            r@ == reflexive_closure(self@),
            reflexive(r@),
    {
        let ghost m = self@;
        let mut r = self.duplicate();
        let n = r.cells.len();
        let mut i: usize = 0;
        while i < n
            invariant
                is_square(m),
                n == m.len(),
                i <= n,
                r.cells@.len() == n,
                forall|a: int| 0 <= a < i ==> #[trigger] r.cells@[a]@ == reflexive_closure(m)[a],
                forall|a: int| i <= a < n ==> #[trigger] r.cells@[a]@ == m[a],
            decreases n - i,
        {
            r.cells[i][i] = true;
            assert(r.cells@[i as int]@ =~= reflexive_closure(m)[i as int]);
            i += 1;
        }
        assert(r@ =~= reflexive_closure(m));
        r
    }

    /// The symmetric closure, as a new matrix: every pair that holds in one
    /// direction set in both.
    pub fn make_symmetric(&self) -> (r: Matrix)
        requires
            self.wf(),
        ensures
            r.wf(),
            r@ == symmetric_closure(self@),
            symmetric(r@),
    {
        proof {
            self.lemma_cells_square();
        }
        let ghost m = self@;
        let n = self.cells.len();
        let mut cells: Vec<Vec<bool>> = Vec::new();
        let mut i: usize = 0;
        while i < n
            invariant
                m == self@,
                self.wf(),
                self.cells_square(),
                n == m.len(),
                i <= n,
                cells.len() == i,
                forall|a: int| 0 <= a < i ==> #[trigger] cells@[a]@ == symmetric_closure(m)[a],
            decreases n - i,
        {
            let mut row: Vec<bool> = Vec::new();
            let mut j: usize = 0;
            while j < n
                invariant
                    m == self@,
                    self.wf(),
                    self.cells_square(),
                self.cells_square(),
                    n == m.len(),
                    i < n,
                    j <= n,
                    row@.len() == j,
                    forall|b: int| 0 <= b < j ==> #[trigger] row@[b] == (m[i as int][b] || m[b][i as int]),
                decreases n - j,
            {
                row.push(self.cells[i][j] || self.cells[j][i]);
                j += 1;
            }
            assert(row@ =~= symmetric_closure(m)[i as int]);
            cells.push(row);
            i += 1;
        }
        let r = Matrix { cells };
        assert(r@ =~= symmetric_closure(m));
        r
    }

    /// A matrix with the same cells.
    fn duplicate(&self) -> (r: Matrix)
        ensures
            r@ == self@,
    {
        let n = self.cells.len();
        let mut cells: Vec<Vec<bool>> = Vec::new();
        let mut i: usize = 0;
        while i < n
            invariant
                n == self@.len(),
                i <= n,
                cells.len() == i,
                forall|a: int| 0 <= a < i ==> #[trigger] cells@[a]@ == self@[a],
            decreases n - i,
        {
            let row = self.cells[i].clone();
            assert(row@ =~= self@[i as int]);
            cells.push(row);
            i += 1;
        }
        let r = Matrix { cells };
        assert(r@ =~= self@);
        r
    }

    /// Whether row `i` is closed: every `j` that `i` reaches through some
    /// `k` is related to `i` directly. Reads the matrix only.
    pub(crate) fn row_is_closed(&self, i: usize) -> (r: bool)
        requires
            self.wf(),
            i < self@.len(),
        ensures
            r == row_closed(self@, i as int),
    {
        let ghost m = self@;
        let n = self.cells.len();
        let row = &self.cells[i];
        let mut k: usize = 0;
        while k < n
            invariant
                m == self@,
                self.wf(),
                n == m.len(),
                i < n,
                row@ == m[i as int],
                k <= n,
                forall|a: int, j: int|
                    #![trigger m[i as int][a], m[a][j]]
                    0 <= a < k && 0 <= j < n && m[i as int][a] && m[a][j] ==> m[i as int][j],
            decreases n - k,
        {
            if row[k] {
                let mid_row = &self.cells[k];
                let mut j: usize = 0;
                while j < n
                    invariant
                        m == self@,
                        self.wf(),
                        n == m.len(),
                        i < n,
                        k < n,
                        row@ == m[i as int],
                        mid_row@ == m[k as int],
                        m[i as int][k as int],
                        j <= n,
                        forall|a: int, b: int|
                            #![trigger m[i as int][a], m[a][b]]
                            0 <= a < k && 0 <= b < n && m[i as int][a] && m[a][b] ==> m[i as int][b],
                        forall|b: int| 0 <= b < j && #[trigger] m[k as int][b] ==> m[i as int][b],
                    decreases n - j,
                {
                    if mid_row[j] && !row[j] {
                        return false;
                    }
                    j += 1;
                }
            }
            k += 1;
        }
        true
    }

    /// Whether the relation is transitive. Rows are checked in parallel, on
    /// the matrix as it is; the check stops early at a counterexample.
    pub fn is_transitive(&self) -> (r: bool)
        requires
            self.wf(),
        ensures
            r == transitive(self@),
    {
        let r = par_all_rows_closed(self, self.cells.len());
        proof {
            lemma_transitive_by_rows(self@);
        }
        r
    }

    /// Whether the relation is transitive, checked row after row on one thread.
    pub fn is_transitive_sequential(&self) -> (r: bool)
        requires
            self.wf(),
        ensures
            r == transitive(self@),
    {
        proof {
            lemma_transitive_by_rows(self@);
        }
        let n = self.cells.len();
        let mut i: usize = 0;
        while i < n
            invariant
                self.wf(),
                n == self@.len(),
                i <= n,
                forall|a: int| 0 <= a < i ==> #[trigger] row_closed(self@, a),
            decreases n - i,
        {
            if !self.row_is_closed(i) {
                return false;
            }
            i += 1;
        }
        true
    }

    /// One pass of Warshall's algorithm through the intermediate `k`, in
    /// place. Row `k` does not change in its own pass, so each row is
    /// updated from its old value and a copy of row `k`; with `parallel`
    /// the rows are split among worker threads.
    fn warshall_pass(&mut self, k: usize, parallel: bool)
        requires
            old(self).wf(),
            k < old(self)@.len(),
        ensures
            final(self)@ == warshall_step(old(self)@, k as int),
    {
        let ghost m = self@;
        let n = self.cells.len();
        let pivot = self.cells[k].clone();
        assert(pivot@ =~= m[k as int]);
        if parallel {
            assert forall|i: int| 0 <= i < n implies #[trigger] self.cells@[i]@.len() == pivot@.len() by {
                assert(self.cells@[i]@ == m[i]);
            }
            par_or_pivot_rows(&mut self.cells, k, &pivot);
        } else {
            let mut i: usize = 0;
            while i < n
                invariant
                    n == m.len(),
                    is_square(m),
                    k < n,
                    pivot@ == m[k as int],
                    i <= n,
                    self.cells@.len() == n,
                    forall|a: int| 0 <= a < i ==> #[trigger] self.cells@[a]@ == pivot_row(m[a], k as int, pivot@),
                    forall|a: int| i <= a < n ==> #[trigger] self.cells@[a]@ == m[a],
                decreases n - i,
            {
                or_pivot_row(&mut self.cells[i], k, &pivot);
                i += 1;
            }
        }
        assert(self@ =~= warshall_step(m, k as int));
    }

    /// Runs Warshall's algorithm in place: afterwards the matrix holds the
    /// transitive closure of what it held before.
    fn warshall(&mut self, parallel: bool)
        requires
            old(self).wf(),
        ensures
            is_transitive_closure(old(self)@, final(self)@),
    {
        let ghost m = self@;
        let n = self.cells.len();
        proof {
            lemma_warshall_start(m);
        }
        let mut k: usize = 0;
        while k < n
            invariant
                n == m.len(),
                k <= n,
                warshall_invariant(m, self@, k as int),
            decreases n - k,
        {
            proof {
                lemma_warshall_step(m, self@, k as int);
            }
            self.warshall_pass(k, parallel);
            k += 1;
        }
        proof {
            lemma_warshall_done(m, self@);
        }
    }

    /// Replaces the relation by its transitive closure, in place. Each pass
    /// of Warshall's algorithm spreads its rows over worker threads and
    /// ends before the next one starts.
    pub fn close_transitive(&mut self)
        requires
            old(self).wf(),
        ensures
            final(self).wf(),
            is_transitive_closure(old(self)@, final(self)@),
    {
        self.warshall(true);
    }

    /// The transitive closure, as a new matrix; the passes of Warshall's
    /// algorithm run in parallel.
    pub fn make_transitive(&self) -> (r: Matrix)
        requires
            self.wf(),
        ensures
            r.wf(),
            is_transitive_closure(self@, r@),
    {
        let mut r = self.duplicate();
        r.close_transitive();
        r
    }

    /// The transitive closure, as a new matrix, computed on one thread.
    pub fn make_transitive_sequential(&self) -> (r: Matrix)
        requires
            self.wf(),
        ensures
            r.wf(),
            is_transitive_closure(self@, r@),
    {
        let mut r = self.duplicate();
        r.warshall(false);
        r
    }
}

/// Updates `row` for the pass of Warshall's algorithm through `k`, where
/// `pivot` is row `k`: the row gains every column that `k` relates to, if
/// it relates to `k`.
pub(crate) fn or_pivot_row(row: &mut Vec<bool>, k: usize, pivot: &Vec<bool>)
    requires
        old(row)@.len() == pivot@.len(),
        k < pivot@.len(),
    ensures
        final(row)@ == pivot_row(old(row)@, k as int, pivot@),
{
    let ghost start = row@;
    let through = row[k];
    let n = row.len();
    let mut j: usize = 0;
    while j < n
        invariant
            n == row@.len(),
            n == pivot@.len(),
            n == start.len(),
            k < n,
            through == start[k as int],
            j <= n,
            forall|b: int| 0 <= b < j ==> #[trigger] row@[b] == (start[b] || (through && pivot@[b])),
            forall|b: int| j <= b < n ==> #[trigger] row@[b] == start[b],
        decreases n - j,
    {
        if through && pivot[j] {
            row[j] = true;
        }
        j += 1;
    }
    assert(row@ =~= pivot_row(start, k as int, pivot@));
}

} // verus!
