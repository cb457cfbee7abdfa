//! The matrix container: row-major storage whose shape is fixed by size tags, with
//! construction, indexing, transposition and the proof patterns the other modules share.

use vstd::prelude::*;
use vstd::std_specs::cmp::PartialEqSpec;

mod adjugate;
mod determinant;
mod iter;
mod ops;
mod typestate;

pub use adjugate::{lemma_mul_adjugate_3x3, lemma_mul_inverse_3x3, scale_of};
pub use determinant::{
    adjugate_of, cofactor_fits, cofactor_matrix_of, cofactor_of, cofactors_fit, det_fits, det_of,
    expansion_of, fits, ints, invert_fits, inverse_of, lemma_det_2, lemma_det_fits_value,
    lemma_ints_submatrix, minor_of, quotient, remove_col_of, remove_row_of, submatrix_of,
    Determinant,
};
pub use iter::{column_of, indexed_of};
pub use ops::{
    dot_of, identity_of, lemma_mul_identity_left, lemma_mul_identity_right, mul_fits, mul_of,
};
pub use typestate::{Dim, Sub, M1, M2, M3, M4};

verus! {

/// Arranges a row-major sequence as `m` rows of `n` cells: cell `(i, j)` is `data[n * i + j]`.
pub open spec fn grid_of<T>(data: Seq<T>, m: nat, n: nat) -> Seq<Seq<T>> {
    Seq::new(m, |i: int| Seq::new(n, |j: int| data[n * i + j]))
}

/// `g` has `m` rows, each of `n` cells.
pub open spec fn is_grid<T>(g: Seq<Seq<T>>, m: nat, n: nat) -> bool {
    &&& g.len() == m
    &&& forall|i: int| 0 <= i < m ==> #[trigger] g[i].len() == n
}

/// Cell `(i, j)` of an `m` by `n` grid lies inside a row-major storage of `m * n` cells.
pub proof fn lemma_cell_in_storage(m: nat, n: nat, i: int, j: int)
    requires
        0 <= i < m,
        0 <= j < n,
    ensures
        0 <= n * i + j < m * n,
{
    assert(0 <= n * i + j < m * n) by (nonlinear_arith)
        requires
            0 <= i < m,
            0 <= j < n,
    ;
}

/// In row-major order a cell of an earlier row comes before every cell of a later row.
pub proof fn lemma_earlier_row(n: nat, a: int, b: int, i: int, j: int)
    requires
        0 <= a < i,
        0 <= b < n,
        0 <= j,
    ensures
        n * a + b < n * i + j,
{
    assert(n * a + b < n * i + j) by (nonlinear_arith)
        requires
            0 <= a < i,
            0 <= b < n,
            0 <= j,
    ;
}

/// The first `i` rows and the first `j` cells of row `i` of the grid `g`, whose rows have `n`
/// cells, stand in `out` at their row-major positions.
spec fn filled<T>(out: Seq<T>, g: Seq<Seq<T>>, n: nat, i: int, j: int) -> bool {
    &&& 0 <= i
    &&& 0 <= j <= n
    &&& out.len() == n * i + j
    &&& forall|a: int, b: int| 0 <= a < i && 0 <= b < n ==> out[n * a + b] == #[trigger] g[a][b]
    &&& forall|b: int| 0 <= b < j ==> out[n * i + b] == #[trigger] g[i][b]
}

proof fn lemma_filled_start<T>(out: Seq<T>, g: Seq<Seq<T>>, n: nat)
    requires
        out.len() == 0,
    ensures
        filled(out, g, n, 0, 0),
{
}

proof fn lemma_filled_push<T>(out: Seq<T>, g: Seq<Seq<T>>, n: nat, i: int, j: int)
    requires
        filled(out, g, n, i, j),
        j < n,
    ensures
        filled(out.push(g[i][j]), g, n, i, j + 1),
{
    let o2 = out.push(g[i][j]);
    assert forall|a: int, b: int| 0 <= a < i && 0 <= b < n implies o2[n * a + b] == #[trigger] g[a][b] by {
        lemma_earlier_row(n, a, b, i, j);
    }
}

proof fn lemma_filled_next_row<T>(out: Seq<T>, g: Seq<Seq<T>>, n: nat, i: int)
    requires
        filled(out, g, n, i, n as int),
    ensures
        filled(out, g, n, i + 1, 0),
{
    assert(n * (i + 1) == n * i + n) by (nonlinear_arith);
}

proof fn lemma_filled_done<T>(out: Seq<T>, g: Seq<Seq<T>>, m: nat, n: nat)
    requires
        filled(out, g, n, m as int, 0),
        is_grid(g, m, n),
    ensures
        grid_of(out, m, n) == g,
        out.len() == m * n,
{
    assert(n * m == m * n) by (nonlinear_arith);
    assert forall|i: int| 0 <= i < m implies #[trigger] grid_of(out, m, n)[i] =~= g[i] by {
        assert forall|j: int| 0 <= j < n implies grid_of(out, m, n)[i][j] == #[trigger] g[i][j] by {
        }
    }
    assert(grid_of(out, m, n) =~= g);
}

/// The transpose of a grid of `m` rows and `n` columns: cell `(i, j)` of the result is cell
/// `(j, i)` of `g`.
pub open spec fn transpose_of<T>(g: Seq<Seq<T>>, m: nat, n: nat) -> Seq<Seq<T>> {
    Seq::new(n, |i: int| Seq::new(m, |j: int| g[j][i]))
}

/// Transposing twice gives back the grid.
pub proof fn lemma_transpose_involutive<T>(g: Seq<Seq<T>>, m: nat, n: nat)
    requires
        is_grid(g, m, n),
    ensures
        transpose_of(transpose_of(g, m, n), n, m) == g,
{
    let t = transpose_of(transpose_of(g, m, n), n, m);
    assert forall|i: int| 0 <= i < m implies #[trigger] t[i] =~= g[i] by {
    }
    assert(t =~= g);
}

/// Position `k` of a row-major storage of `m * n` cells is cell `(k / n, k % n)`.
proof fn lemma_cell_of_index(m: nat, n: nat, k: int)
    requires
        n > 0,
        0 <= k < m * n,
    ensures
        0 <= k / (n as int) < m,
        0 <= k % (n as int) < n,
        n * (k / (n as int)) + k % (n as int) == k,
{
    let d = n as int;
    vstd::arithmetic::div_mod::lemma_fundamental_div_mod(k, d);
    vstd::arithmetic::div_mod::lemma_mod_bound(k, d);
    vstd::arithmetic::div_mod::lemma_div_pos_is_pos(k, d);
    assert(k < d * (m as int)) by (nonlinear_arith)
        requires
            k < m * n,
            d == n,
    ;
    vstd::arithmetic::div_mod::lemma_multiply_divide_lt(k, d, m as int);
}

/// A matrix of `M` rows and `N` columns, stored row-major: cell `(i, j)` sits at `N * i + j`.
#[derive(Debug)]
pub struct Matrix<T, M: Dim, N: Dim> {
    _m: core::marker::PhantomData<M>,
    _n: core::marker::PhantomData<N>,
    data: Vec<T>,
}

impl<T, M: Dim, N: Dim> View for Matrix<T, M, N> {
    type V = Seq<Seq<T>>;

    /// The cells, row by row.
    closed spec fn view(&self) -> Seq<Seq<T>> {
        grid_of(self.data@, M::dim(), N::dim())
    }
}

impl<T, M: Dim, N: Dim> Matrix<T, M, N> {
    #[verifier::type_invariant]
    spec fn shape_ok(&self) -> bool {
        self.data@.len() == M::dim() * N::dim()
    }

    /// The view has `M` rows of `N` cells.
    pub proof fn lemma_shape(&self)
        ensures
            is_grid(self@, M::dim(), N::dim()),
            1 <= M::dim() <= 4,
            1 <= N::dim() <= 4,
    {
        M::lemma_dim_range();
        N::lemma_dim_range();
    }

    /// Cell `(i, j)` lies inside the storage, which holds at most 16 cells.
    proof fn lemma_cell(i: int, j: int)
        requires
            0 <= i < M::dim(),
            0 <= j < N::dim(),
        ensures
            0 <= N::dim() * i + j < M::dim() * N::dim() <= 16,
    {
        M::lemma_dim_range();
        N::lemma_dim_range();
        lemma_cell_in_storage(M::dim(), N::dim(), i, j);
        assert(M::dim() * N::dim() <= 16) by (nonlinear_arith)
            requires
                M::dim() <= 4,
                N::dim() <= 4,
        ;
    }

    /// Wraps a row-major sequence of exactly `M * N` values.
    pub fn from(v: Vec<T>) -> (r: Self)
        requires
            v@.len() == M::dim() * N::dim(),
        ensures
            r@ == grid_of(v@, M::dim(), N::dim()),
    {
        Matrix { _m: core::marker::PhantomData, _n: core::marker::PhantomData, data: v }
    }

    /// An empty buffer with room for the `M * N` cells of a matrix of this shape, to be filled
    /// in row-major order and then wrapped by `from`.
    pub fn new_uninitialized() -> (r: Vec<T>)
        ensures
            r@.len() == 0,
    {
        proof {
            M::lemma_dim_range();
            N::lemma_dim_range();
            Self::lemma_cell(0, 0);
        }
        Vec::with_capacity(M::size() * N::size())
    }

    /// The number of rows.
    pub fn width(&self) -> (r: usize)
        ensures
            r == M::dim(),
    {
        M::size()
    }

    /// The number of columns.
    pub fn height(&self) -> (r: usize)
        ensures
            r == N::dim(),
    {
        N::size()
    }

    /// The position of cell `(i, j)` in the row-major storage.
    pub fn to_row_major(i: usize, j: usize) -> (r: usize)
        requires
            N::dim() * i + j <= usize::MAX,
        ensures
            r == N::dim() * i + j,
    {
        N::size() * i + j
    }

    /// The cell in row `i`, column `j`.
    pub fn index(&self, i: usize, j: usize) -> (r: &T)
        requires
            i < M::dim(),
            j < N::dim(),
        ensures
            *r == self@[i as int][j as int],
    {
        proof {
            use_type_invariant(self);
            Self::lemma_cell(i as int, j as int);
        }
        &self.data[N::size() * i + j]
    }

    /// Overwrites the cell in row `i`, column `j`, leaving every other cell as it was.
    pub fn set(&mut self, i: usize, j: usize, value: T)
        requires
            i < M::dim(),
            j < N::dim(),
        ensures
            final(self)@ == old(self)@.update(i as int, old(self)@[i as int].update(j as int, value)),
    {
        proof {
            use_type_invariant(&*self);
            Self::lemma_cell(i as int, j as int);
        }
        let k = N::size() * i + j;
        self.data[k] = value;
        proof {
            let n = N::dim();
            assert forall|a: int, b: int| 0 <= a < M::dim() && 0 <= b < n && (a, b) != (i as int, j as int)
                implies #[trigger] (n * a + b) != k by {
                if a < i {
                    lemma_earlier_row(n, a, b, i as int, j as int);
                } else if a > i {
                    lemma_earlier_row(n, i as int, j as int, a, b);
                }
            }
            let target = old(self)@.update(i as int, old(self)@[i as int].update(j as int, value));
            assert forall|a: int| 0 <= a < M::dim() implies #[trigger] self@[a] =~= target[a] by {
                assert forall|b: int| 0 <= b < n implies #[trigger] self@[a][b] == target[a][b] by {
                    Self::lemma_cell(a, b);
                }
            }
            assert(self@ =~= target);
        }
    }
}

impl<T: Copy, M: Dim, N: Dim> Matrix<T, M, N> {
    /// The `N` by `M` matrix whose cell `(i, j)` is cell `(j, i)` of this one.
    pub fn transpose(&self) -> (r: Matrix<T, N, M>)
        ensures
            r@ == transpose_of(self@, M::dim(), N::dim()),
    {
        proof {
            use_type_invariant(self);
            M::lemma_dim_range();
            N::lemma_dim_range();
        }
        let ghost g = transpose_of(self@, M::dim(), N::dim());
        let m = N::size();
        let n = M::size();
        let mut v: Vec<T> = Matrix::<T, N, M>::new_uninitialized();
        let mut i: usize = 0;
        proof {
            lemma_filled_start(v@, g, n as nat);
        }
        while i < m
            invariant
                m == N::dim(),
                n == M::dim(),
                1 <= n <= 4,
                1 <= m <= 4,
                i <= m,
                filled(v@, g, n as nat, i as int, 0),
                self.data@.len() == M::dim() * N::dim(),
                g == transpose_of(self@, M::dim(), N::dim()),
            decreases m - i,
        {
            let mut j: usize = 0;
            while j < n
                invariant
                    m == N::dim(),
                    n == M::dim(),
                    1 <= n <= 4,
                    1 <= m <= 4,
                    i < m,
                    j <= n,
                    filled(v@, g, n as nat, i as int, j as int),
                    self.data@.len() == M::dim() * N::dim(),
                    g == transpose_of(self@, M::dim(), N::dim()),
                decreases n - j,
            {
                let x = *self.index(j, i);
                proof {
                    lemma_filled_push(v@, g, n as nat, i as int, j as int);
                }
                v.push(x);
                j = j + 1;
            }
            proof {
                lemma_filled_next_row(v@, g, n as nat, i as int);
            }
            i = i + 1;
        }
        proof {
            lemma_filled_done(v@, g, m as nat, n as nat);
        }
        Matrix::from(v)
    }
}

impl<T: Copy, M: Dim, N: Dim> Matrix<T, M, N> {
    /// Builds the matrix from `M` rows of `N` values each, given top to bottom.
    pub fn from_rows(rows: Vec<Vec<T>>) -> (r: Self)
        requires
            rows@.len() == M::dim(),
            forall|i: int| 0 <= i < M::dim() ==> #[trigger] rows@[i]@.len() == N::dim(),
        ensures
            r@ == rows_of(rows@),
    {
        proof {
            M::lemma_dim_range();
            N::lemma_dim_range();
        }
        let ghost g = rows_of(rows@);
        let m = M::size();
        let n = N::size();
        let mut v: Vec<T> = Self::new_uninitialized();
        let mut i: usize = 0;
        proof {
            lemma_filled_start(v@, g, n as nat);
        }
        while i < m
            invariant
                m == M::dim(),
                n == N::dim(),
                i <= m,
                rows@.len() == m,
                forall|a: int| 0 <= a < m ==> #[trigger] rows@[a]@.len() == n,
                g == rows_of(rows@),
                filled(v@, g, n as nat, i as int, 0),
            decreases m - i,
        {
            let mut j: usize = 0;
            while j < n
                invariant
                    m == M::dim(),
                    n == N::dim(),
                    i < m,
                    j <= n,
                    rows@.len() == m,
                    forall|a: int| 0 <= a < m ==> #[trigger] rows@[a]@.len() == n,
                    g == rows_of(rows@),
                    filled(v@, g, n as nat, i as int, j as int),
                decreases n - j,
            {
                proof {
                    lemma_filled_push(v@, g, n as nat, i as int, j as int);
                }
                v.push(rows[i][j]);
                j = j + 1;
            }
            proof {
                lemma_filled_next_row(v@, g, n as nat, i as int);
            }
            i = i + 1;
        }
        proof {
            lemma_filled_done(v@, g, m as nat, n as nat);
        }
        Matrix::from(v)
    }
}

/// The rows of a vector of row vectors, as a grid.
pub open spec fn rows_of<T>(rows: Seq<Vec<T>>) -> Seq<Seq<T>> {
    Seq::new(rows.len(), |i: int| rows[i]@)
}

/// A 2 by 2 matrix.
pub type Matrix2x2<T> = Matrix<T, M2, M2>;

/// A 3 by 3 matrix.
pub type Matrix3x3<T> = Matrix<T, M3, M3>;

/// A 4 by 4 matrix.
pub type Matrix4x4<T> = Matrix<T, M4, M4>;

impl<T: PartialEq, M: Dim, N: Dim> PartialEq for Matrix<T, M, N> {
    /// Two matrices of one shape are equal when every cell equals the cell at the same position.
    fn eq(&self, other: &Self) -> (r: bool) {
        proof {
            use_type_invariant(self);
            use_type_invariant(other);
            M::lemma_dim_range();
            N::lemma_dim_range();
        }
        let ghost m = M::dim();
        let ghost n = N::dim();
        let len = self.data.len();
        let mut k: usize = 0;
        while k < len
            invariant
                len == self.data@.len(),
                len == other.data@.len(),
                len == m * n,
                m == M::dim(),
                n == N::dim(),
                n > 0,
                k <= len,
                T::obeys_eq_spec() ==> forall|t: int|
                    0 <= t < k ==> #[trigger] self.data@[t].eq_spec(&other.data@[t]),
            decreases len - k,
        {
            if !(self.data[k] == other.data[k]) {
                proof {
                    if T::obeys_eq_spec() {
                        let kk = k as int;
                        lemma_cell_of_index(m, n, kk);
                        let i = kk / (n as int);
                        let j = kk % (n as int);
                        assert(!self@[i][j].eq_spec(&other@[i][j]));
                    }
                }
                return false;
            }
            k = k + 1;
        }
        proof {
            if T::obeys_eq_spec() {
                assert forall|i: int, j: int| 0 <= i < m && 0 <= j < n implies #[trigger] self@[i][j].eq_spec(
                    &other@[i][j],
                ) by {
                    lemma_cell_in_storage(m, n, i, j);
                }
            }
        }
        true
    }
}

impl<T: PartialEq, M: Dim, N: Dim> vstd::std_specs::cmp::PartialEqSpecImpl for Matrix<T, M, N> {
    open spec fn obeys_eq_spec() -> bool {
        T::obeys_eq_spec()
    }

    /// Every cell equals, by the cells' own `==`, the cell at the same position.
    open spec fn eq_spec(&self, other: &Self) -> bool {
        forall|i: int, j: int|
            0 <= i < M::dim() && 0 <= j < N::dim() ==> #[trigger] self@[i][j].eq_spec(&other@[i][j])
    }
}

impl<T: Copy, M: Dim, N: Dim> Clone for Matrix<T, M, N> {
    /// An independent matrix with the same cells.
    fn clone(&self) -> (r: Self)
        ensures
            r@ == self@,
    {
        proof {
            use_type_invariant(self);
        }
        let mut data: Vec<T> = Vec::new();
        let mut k: usize = 0;
        while k < self.data.len()
            invariant
                k <= self.data@.len(),
                data@ == self.data@.subrange(0, k as int),
            decreases self.data@.len() - k,
        {
            data.push(self.data[k]);
            k = k + 1;
        }
        proof {
            assert(data@ == self.data@);
        }
        Matrix { _m: core::marker::PhantomData, _n: core::marker::PhantomData, data }
    }
}

} // verus!
