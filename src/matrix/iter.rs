//! Traversals of a matrix: all cells, rows, columns, and cells with their positions.

use vstd::prelude::*;

use super::{
    filled, grid_of, is_grid, lemma_cell_of_index, lemma_filled_done, lemma_filled_next_row, lemma_filled_push,
    lemma_filled_start, Dim, Matrix,
};

verus! {

/// Column `j` of a grid: cell `j` of each row, top to bottom.
pub open spec fn column_of<T>(g: Seq<Seq<T>>, j: int) -> Seq<T> {
    Seq::new(g.len(), |i: int| g[i][j])
}

impl<T: Copy, M: Dim, N: Dim> Matrix<T, M, N> {
    /// All cells in storage order: row by row, left to right.
    pub fn iter(&self) -> (r: Vec<T>)
        ensures
            r@.len() == M::dim() * N::dim(),
            grid_of(r@, M::dim(), N::dim()) == self@,
    {
        proof {
            use_type_invariant(self);
        }
        let mut v: Vec<T> = Vec::new();
        let mut k: usize = 0;
        while k < self.data.len()
            invariant
                k <= self.data@.len(),
                v@ == self.data@.subrange(0, k as int),
            decreases self.data@.len() - k,
        {
            v.push(self.data[k]);
            k = k + 1;
        }
        proof {
            assert(v@ == self.data@);
        }
        v
    }

    /// Replaces every cell, in storage order, by what `f` makes of it.
    pub fn iter_mut<F: Fn(T) -> T>(&mut self, f: F)
        requires
            forall|i: int, j: int|
                0 <= i < M::dim() && 0 <= j < N::dim() ==> f.requires((old(self)@[i][j],)),
        ensures
            forall|i: int, j: int|
                0 <= i < M::dim() && 0 <= j < N::dim() ==> f.ensures(
                    (old(self)@[i][j],),
                    #[trigger] final(self)@[i][j],
                ),
    {
        proof {
            use_type_invariant(&*self);
            M::lemma_dim_range();
            N::lemma_dim_range();
        }
        let ghost before = self.data@;
        let ghost m = M::dim();
        let ghost n = N::dim();
        proof {
            assert forall|k: int| 0 <= k < before.len() implies f.requires((#[trigger] before[k],)) by {
                lemma_cell_of_index(m, n, k);
                let i = k / (n as int);
                let j = k % (n as int);
                assert(old(self)@[i][j] == before[k]);
            }
        }
        let len = self.data.len();
        let mut k: usize = 0;
        while k < len
            invariant
                len == before.len(),
                before.len() == m * n,
                m == M::dim(),
                n == N::dim(),
                self.data@.len() == len,
                k <= len,
                forall|t: int| 0 <= t < len ==> f.requires((#[trigger] before[t],)),
                forall|t: int| 0 <= t < k ==> f.ensures((before[t],), #[trigger] self.data@[t]),
                forall|t: int| k <= t < len ==> #[trigger] self.data@[t] == before[t],
            decreases len - k,
        {
            let x = self.data[k];
            let y = f(x);
            self.data[k] = y;
            k = k + 1;
        }
        proof {
            assert forall|i: int, j: int| 0 <= i < m && 0 <= j < n implies f.ensures(
                (old(self)@[i][j],),
                #[trigger] self@[i][j],
            ) by {
                super::lemma_cell_in_storage(m, n, i, j);
            }
        }
    }

    /// The `N` cells of row `i`, left to right.
    pub fn iter_row(&self, i: usize) -> (r: Vec<T>)
        requires
            i < M::dim(),
        ensures
            r@ == self@[i as int],
    {
        proof {
            self.lemma_shape();
        }
        let n = N::size();
        let mut v: Vec<T> = Vec::new();
        let mut j: usize = 0;
        while j < n
            invariant
                n == N::dim(),
                i < M::dim(),
                j <= n,
                is_grid(self@, M::dim(), N::dim()),
                v@ == self@[i as int].subrange(0, j as int),
            decreases n - j,
        {
            v.push(*self.index(i, j));
            j = j + 1;
        }
        proof {
            assert(v@ == self@[i as int]);
        }
        v
    }

    /// The `M` cells of column `j`, top to bottom.
    pub fn iter_col(&self, j: usize) -> (r: Vec<T>)
        requires
            j < N::dim(),
        ensures
            r@ == column_of(self@, j as int),
    {
        proof {
            self.lemma_shape();
        }
        let m = M::size();
        let mut v: Vec<T> = Vec::new();
        let mut i: usize = 0;
        while i < m
            invariant
                m == M::dim(),
                j < N::dim(),
                i <= m,
                is_grid(self@, M::dim(), N::dim()),
                v@ == column_of(self@, j as int).subrange(0, i as int),
            decreases m - i,
        {
            v.push(*self.index(i, j));
            i = i + 1;
        }
        proof {
            assert(v@ == column_of(self@, j as int));
        }
        v
    }

    /// Every row, top to bottom.
    pub fn iter_rows(&self) -> (r: Vec<Vec<T>>)
        ensures
            r@.len() == M::dim(),
            forall|i: int| 0 <= i < M::dim() ==> #[trigger] r@[i]@ == self@[i],
    {
        let m = M::size();
        let mut v: Vec<Vec<T>> = Vec::new();
        let mut i: usize = 0;
        while i < m
            invariant
                m == M::dim(),
                i <= m,
                v@.len() == i,
                forall|a: int| 0 <= a < i ==> #[trigger] v@[a]@ == self@[a],
            decreases m - i,
        {
            let row = self.iter_row(i);
            v.push(row);
            i = i + 1;
        }
        v
    }

    /// Every column, left to right.
    pub fn iter_cols(&self) -> (r: Vec<Vec<T>>)
        ensures
            r@.len() == N::dim(),
            forall|j: int| 0 <= j < N::dim() ==> #[trigger] r@[j]@ == column_of(self@, j),
    {
        let n = N::size();
        let mut v: Vec<Vec<T>> = Vec::new();
        let mut j: usize = 0;
        while j < n
            invariant
                n == N::dim(),
                j <= n,
                v@.len() == j,
                forall|b: int| 0 <= b < j ==> #[trigger] v@[b]@ == column_of(self@, b),
            decreases n - j,
        {
            let col = self.iter_col(j);
            v.push(col);
            j = j + 1;
        }
        v
    }

    /// Each cell with its position, `(i, j, cell)`, in row-major order.
    pub fn iter_indexed(&self) -> (r: Vec<(usize, usize, T)>)
        ensures
            r@.len() == M::dim() * N::dim(),
            grid_of(r@, M::dim(), N::dim()) == indexed_of(self@),
    {
        proof {
            self.lemma_shape();
        }
        let ghost g = indexed_of(self@);
        let m = M::size();
        let n = N::size();
        let mut v: Vec<(usize, usize, T)> = Vec::new();
        let mut i: usize = 0;
        proof {
            lemma_filled_start(v@, g, n as nat);
        }
        while i < m
            invariant
                m == M::dim(),
                n == N::dim(),
                i <= m,
                is_grid(self@, M::dim(), N::dim()),
                filled(v@, g, n as nat, i as int, 0),
                g == indexed_of(self@),
            decreases m - i,
        {
            let mut j: usize = 0;
            while j < n
                invariant
                    m == M::dim(),
                    n == N::dim(),
                    i < m,
                    j <= n,
                    is_grid(self@, M::dim(), N::dim()),
                    filled(v@, g, n as nat, i as int, j as int),
                    g == indexed_of(self@),
                decreases n - j,
            {
                let x = *self.index(i, j);
                proof {
                    lemma_filled_push(v@, g, n as nat, i as int, j as int);
                }
                v.push((i, j, x));
                j = j + 1;
            }
            proof {
                lemma_filled_next_row(v@, g, n as nat, i as int);
            }
            i = i + 1;
        }
        proof {
            lemma_filled_done(v@, g, m as nat, n as nat);
        }
        v
    }
}

/// Each cell of the grid paired with its row and column.
pub open spec fn indexed_of<T>(g: Seq<Seq<T>>) -> Seq<Seq<(usize, usize, T)>> {
    Seq::new(g.len(), |i: int| Seq::new(g[i].len(), |j: int| (i as usize, j as usize, g[i][j])))
}

} // verus!
