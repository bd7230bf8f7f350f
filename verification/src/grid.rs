//! The dense table that holds the lengths of longest common subsequences of
//! prefix pairs, stored row-major in a single flat vector.

use vstd::prelude::*;

verus! {

/// Both spec and exec code address the flat vector by `i * cols + j`; these
/// two lemmas give the facts about that linear index that the bounds and
/// frame conditions need.
proof fn lemma_row_major_in_range(rows: int, cols: int, i: int, j: int)
    by (nonlinear_arith)
    requires
        0 <= i < rows,
        0 <= j < cols,
    ensures
        0 <= i * cols + j < rows * cols,
{
}

proof fn lemma_row_major_injective(cols: int, i1: int, j1: int, i2: int, j2: int)
    by (nonlinear_arith)
    requires
        0 <= j1 < cols,
        0 <= j2 < cols,
        i1 * cols + j1 == i2 * cols + j2,
    ensures
        i1 == i2,
        j1 == j2,
{
}

/// A rectangular table of `u32` entries with shape `(rows, cols)`.
///
/// Out-of-range access is a contract violation: `get` and `set` demand
/// in-range indices, so a verified caller can never reach the out-of-bounds
/// panic of the backing vector.
pub struct Grid {
    cells: Vec<u32>,
    rows: usize,
    cols: usize,
}

impl Grid {
    /// The shape is at least 1x1 and the flat vector covers it exactly.
    pub closed spec fn wf(self) -> bool {
        &&& self.rows >= 1
        &&& self.cols >= 1
        &&& self.rows * self.cols <= usize::MAX
        &&& self.cells@.len() == self.rows * self.cols
    }

    pub closed spec fn spec_rows(self) -> int {
        self.rows as int
    }

    pub closed spec fn spec_cols(self) -> int {
        self.cols as int
    }

    /// The entry at row `i`, column `j`.
    pub closed spec fn cell(self, i: int, j: int) -> u32
        recommends
            0 <= i < self.spec_rows(),
            0 <= j < self.spec_cols(),
    {
        self.cells@[i * self.spec_cols() + j]
    }

    /// Builds an `(m + 1) x (n + 1)` table with every entry zero.
    pub fn new(m: usize, n: usize) -> (g: Grid)
        requires
            (m + 1) * (n + 1) <= usize::MAX,
        ensures
            g.wf(),
            g.spec_rows() == m + 1,
            g.spec_cols() == n + 1,
            forall|i: int, j: int| 0 <= i <= m && 0 <= j <= n ==> g.cell(i, j) == 0,
    {
        proof {
            assert((m + 1) * 1 <= (m + 1) * (n + 1) && (n + 1) * 1 <= (m + 1) * (n + 1))
                by (nonlinear_arith)
            ;
        }
        let rows = m + 1;
        let cols = n + 1;
        let total = rows * cols;
        let mut cells: Vec<u32> = Vec::new();
        let mut k: usize = 0;
        while k < total
            invariant
                k <= total,
                cells@.len() == k,
                forall|t: int| 0 <= t < k ==> cells@[t] == 0,
            decreases total - k,
        {
            cells.push(0);
            k = k + 1;
        }
        let g = Grid { cells, rows, cols };
        proof {
            assert forall|i: int, j: int| 0 <= i <= m && 0 <= j <= n implies g.cell(i, j) == 0 by {
                lemma_row_major_in_range(g.spec_rows(), g.spec_cols(), i, j);
            }
        }
        g
    }

    /// Bounds-checked read.
    pub fn get(&self, i: usize, j: usize) -> (v: u32)
        requires
            self.wf(),
            i < self.spec_rows(),
            j < self.spec_cols(),
        ensures
            v == self.cell(i as int, j as int),
    {
        proof {
            lemma_row_major_in_range(self.spec_rows(), self.spec_cols(), i as int, j as int);
        }
        self.cells[i * self.cols + j]
    }

    /// Bounds-checked write; every other entry keeps its value.
    pub fn set(&mut self, i: usize, j: usize, v: u32)
        requires
            old(self).wf(),
            i < old(self).spec_rows(),
            j < old(self).spec_cols(),
        ensures
            final(self).wf(),
            final(self).spec_rows() == old(self).spec_rows(),
            final(self).spec_cols() == old(self).spec_cols(),
            final(self).cell(i as int, j as int) == v,
            forall|i2: int, j2: int|
                0 <= i2 < old(self).spec_rows() && 0 <= j2 < old(self).spec_cols() && !(i2 == i
                    && j2 == j) ==> final(self).cell(i2, j2) == old(self).cell(i2, j2),
    {
        proof {
            lemma_row_major_in_range(self.spec_rows(), self.spec_cols(), i as int, j as int);
        }
        let idx = i * self.cols + j;
        self.cells[idx] = v;
        proof {
            assert forall|i2: int, j2: int|
                0 <= i2 < old(self).spec_rows() && 0 <= j2 < old(self).spec_cols() && !(i2 == i
                    && j2 == j) implies self.cell(i2, j2) == old(self).cell(i2, j2) by {
                lemma_row_major_in_range(self.spec_rows(), self.spec_cols(), i2, j2);
                if i2 * self.spec_cols() + j2 == idx {
                    lemma_row_major_injective(self.spec_cols(), i2, j2, i as int, j as int);
                }
            }
        }
    }

    /// The pair `(rows, cols)`, for diagnostics and tests.
    pub fn shape(&self) -> (s: (usize, usize))
        ensures
            s.0 == self.spec_rows(),
            s.1 == self.spec_cols(),
    {
        (self.rows, self.cols)
    }
}

} // verus!
