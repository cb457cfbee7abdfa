//! Submatrices, and the determinant, cofactors, adjugate and inverse by Laplace expansion.

use vstd::prelude::*;

use super::{
    filled, is_grid, lemma_filled_done, lemma_filled_next_row, lemma_filled_push,
    lemma_filled_start, transpose_of, Dim, Matrix, Sub, M2, M3, M4,
};

verus! {

/// The grid without row `i`.
pub open spec fn remove_row_of<T>(g: Seq<Seq<T>>, i: int) -> Seq<Seq<T>> {
    Seq::new((g.len() - 1) as nat, |a: int| if a < i { g[a] } else { g[a + 1] })
}

/// The grid without column `j`.
pub open spec fn remove_col_of<T>(g: Seq<Seq<T>>, j: int) -> Seq<Seq<T>> {
    Seq::new(
        g.len(),
        |a: int| Seq::new((g[a].len() - 1) as nat, |b: int| if b < j { g[a][b] } else { g[a][b + 1] }),
    )
}

/// The grid without row `i` and column `j`.
pub open spec fn submatrix_of<T>(g: Seq<Seq<T>>, i: int, j: int) -> Seq<Seq<T>> {
    remove_col_of(remove_row_of(g, i), j)
}

/// The cells as mathematical integers.
pub open spec fn ints(g: Seq<Seq<i64>>) -> Seq<Seq<int>> {
    Seq::new(g.len(), |i: int| Seq::new(g[i].len(), |j: int| g[i][j] as int))
}

/// `x` can be held by an `i64`.
pub open spec fn fits(x: int) -> bool {
    i64::MIN <= x <= i64::MAX
}

/// The determinant of a square grid by Laplace expansion along row 0.
pub open spec fn det_of(g: Seq<Seq<int>>) -> int
    decreases g.len(), g.len() + 3,
{
    if g.len() == 0 {
        1
    } else if g.len() == 1 {
        g[0][0]
    } else {
        expansion_of(g, g.len())
    }
}

/// The first `k` terms of the expansion along row 0: the sum over `j < k` of
/// `g[0][j] * cofactor(0, j)`.
pub open spec fn expansion_of(g: Seq<Seq<int>>, k: nat) -> int
    decreases g.len(), k + 2,
{
    if k == 0 {
        0
    } else {
        expansion_of(g, (k - 1) as nat) + g[0][k - 1] * cofactor_of(g, 0, k - 1)
    }
}

/// The determinant of the grid without row `i` and column `j`.
pub open spec fn minor_of(g: Seq<Seq<int>>, i: int, j: int) -> int
    decreases g.len(), 0nat,
{
    if g.len() == 0 {
        0
    } else {
        det_of(submatrix_of(g, i, j))
    }
}

/// The minor of `(i, j)`, negated where `i + j` is odd.
pub open spec fn cofactor_of(g: Seq<Seq<int>>, i: int, j: int) -> int
    decreases g.len(), 1nat,
{
    if (i + j) % 2 == 0 {
        minor_of(g, i, j)
    } else {
        -minor_of(g, i, j)
    }
}

/// Every value that the expansion of `g` computes, products and partial sums included, can be
/// held by an `i64`.
pub open spec fn det_fits(g: Seq<Seq<int>>) -> bool
    decreases g.len(),
{
    if g.len() <= 1 {
        true
    } else if g.len() == 2 {
        &&& fits(g[0][0] * g[1][1])
        &&& fits(g[0][1] * g[1][0])
        &&& fits(det_of(g))
    } else {
        forall|j: int|
            0 <= j < g.len() ==> {
                &&& det_fits(#[trigger] submatrix_of(g, 0, j))
                &&& fits(cofactor_of(g, 0, j))
                &&& fits(g[0][j] * cofactor_of(g, 0, j))
                &&& fits(expansion_of(g, (j + 1) as nat))
            }
    }
}

/// Cofactor `(i, j)` and every value that computing it takes can be held by an `i64`.
pub open spec fn cofactor_fits(g: Seq<Seq<int>>, i: int, j: int) -> bool {
    &&& det_fits(submatrix_of(g, i, j))
    &&& fits(det_of(submatrix_of(g, i, j)))
    &&& fits(cofactor_of(g, i, j))
}

/// Every cell replaced by its cofactor.
pub open spec fn cofactor_matrix_of(g: Seq<Seq<int>>) -> Seq<Seq<int>> {
    Seq::new(g.len(), |i: int| Seq::new(g.len(), |j: int| cofactor_of(g, i, j)))
}

/// The adjugate: the transpose of the cofactor matrix.
pub open spec fn adjugate_of(g: Seq<Seq<int>>) -> Seq<Seq<int>> {
    transpose_of(cofactor_matrix_of(g), g.len(), g.len())
}

/// `x / d` rounded toward zero, as integer division does: for `x >= 0` the Euclidean quotient
/// already rounds that way, and a negative `x` is divided through `-x`.
pub open spec fn quotient(x: int, d: int) -> int {
    if x >= 0 {
        x / d
    } else {
        -((-x) / d)
    }
}

/// The adjugate with every cell divided by the determinant, rounding toward zero.
pub open spec fn inverse_of(g: Seq<Seq<int>>) -> Seq<Seq<int>> {
    Seq::new(
        g.len(),
        |i: int| Seq::new(g.len(), |j: int| quotient(adjugate_of(g)[i][j], det_of(g))),
    )
}

/// Every cofactor, and every value that computing it takes, can be held by an `i64`.
pub open spec fn cofactors_fit(g: Seq<Seq<int>>) -> bool {
    forall|i: int, j: int| 0 <= i < g.len() && 0 <= j < g.len() ==> #[trigger] cofactor_fits(g, i, j)
}

/// Every value that inverting `g` computes can be held by an `i64`: the determinant, and, where
/// it is not 0, every cofactor and every cell of the adjugate divided by it.
pub open spec fn invert_fits(g: Seq<Seq<int>>) -> bool {
    &&& det_fits(g)
    &&& det_of(g) != 0 ==> {
        &&& cofactors_fit(g)
        &&& forall|i: int, j: int|
            0 <= i < g.len() && 0 <= j < g.len() ==> fits(
                quotient(#[trigger] adjugate_of(g)[i][j], det_of(g)),
            )
    }
}

impl<T: Copy, M: Dim + Sub, N: Dim> Matrix<T, M, N> {
    /// The matrix one row smaller, without row `i`: the remaining rows keep their order.
    pub fn remove_row(&self, i: usize) -> (r: Matrix<T, M::SUB, N>)
        requires
            i < M::dim(),
        ensures
            r@ == remove_row_of(self@, i as int),
    {
        proof {
            self.lemma_shape();
            M::lemma_sub();
            M::SUB::lemma_dim_range();
        }
        let ghost g = remove_row_of(self@, i as int);
        let m = M::size() - 1;
        let n = N::size();
        let mut v: Vec<T> = Matrix::<T, M::SUB, N>::new_uninitialized();
        let mut a: usize = 0;
        proof {
            lemma_filled_start(v@, g, n as nat);
        }
        while a < m
            invariant
                m + 1 == M::dim(),
                n == N::dim(),
                i < M::dim(),
                a <= m,
                is_grid(self@, M::dim(), N::dim()),
                filled(v@, g, n as nat, a as int, 0),
                g == remove_row_of(self@, i as int),
            decreases m - a,
        {
            let src = if a < i { a } else { a + 1 };
            let mut b: usize = 0;
            while b < n
                invariant
                    m + 1 == M::dim(),
                    n == N::dim(),
                    a < m,
                    b <= n,
                    src as int == (if a < i { a as int } else { a + 1 }),
                    is_grid(self@, M::dim(), N::dim()),
                    filled(v@, g, n as nat, a as int, b as int),
                    g == remove_row_of(self@, i as int),
                decreases n - b,
            {
                let x = *self.index(src, b);
                proof {
                    lemma_filled_push(v@, g, n as nat, a as int, b as int);
                }
                v.push(x);
                b = b + 1;
            }
            proof {
                lemma_filled_next_row(v@, g, n as nat, a as int);
            }
            a = a + 1;
        }
        proof {
            lemma_filled_done(v@, g, m as nat, n as nat);
        }
        Matrix::from(v)
    }
}

impl<T: Copy, M: Dim, N: Dim + Sub> Matrix<T, M, N> {
    /// The matrix one column smaller, without column `j`: each row keeps its other cells in
    /// order.
    pub fn remove_col(&self, j: usize) -> (r: Matrix<T, M, N::SUB>)
        requires
            j < N::dim(),
        ensures
            r@ == remove_col_of(self@, j as int),
    {
        proof {
            self.lemma_shape();
            N::lemma_sub();
            N::SUB::lemma_dim_range();
        }
        let ghost g = remove_col_of(self@, j as int);
        let m = M::size();
        let n = N::size() - 1;
        let mut v: Vec<T> = Matrix::<T, M, N::SUB>::new_uninitialized();
        let mut a: usize = 0;
        proof {
            lemma_filled_start(v@, g, n as nat);
        }
        while a < m
            invariant
                m == M::dim(),
                n + 1 == N::dim(),
                j < N::dim(),
                a <= m,
                is_grid(self@, M::dim(), N::dim()),
                filled(v@, g, n as nat, a as int, 0),
                g == remove_col_of(self@, j as int),
            decreases m - a,
        {
            let mut b: usize = 0;
            while b < n
                invariant
                    m == M::dim(),
                    n + 1 == N::dim(),
                    j < N::dim(),
                    a < m,
                    b <= n,
                    is_grid(self@, M::dim(), N::dim()),
                    filled(v@, g, n as nat, a as int, b as int),
                    g == remove_col_of(self@, j as int),
                decreases n - b,
            {
                let src = if b < j { b } else { b + 1 };
                let x = *self.index(a, src);
                proof {
                    lemma_filled_push(v@, g, n as nat, a as int, b as int);
                }
                v.push(x);
                b = b + 1;
            }
            proof {
                lemma_filled_next_row(v@, g, n as nat, a as int);
            }
            a = a + 1;
        }
        proof {
            assert(is_grid(g, m as nat, n as nat));
            lemma_filled_done(v@, g, m as nat, n as nat);
        }
        Matrix::from(v)
    }
}

impl<T: Copy, M: Dim + Sub, N: Dim + Sub> Matrix<T, M, N> {
    /// The matrix without row `i` and column `j`.
    pub fn submatrix(&self, i: usize, j: usize) -> (r: Matrix<T, M::SUB, N::SUB>)
        requires
            i < M::dim(),
            j < N::dim(),
        ensures
            r@ == submatrix_of(self@, i as int, j as int),
    {
        self.remove_row(i).remove_col(j)
    }
}

/// Taking integers commutes with dropping a row and a column.
pub proof fn lemma_ints_submatrix(g: Seq<Seq<i64>>, m: nat, i: int, j: int)
    requires
        is_grid(g, m, m),
        0 <= i < m,
        0 <= j < m,
    ensures
        ints(submatrix_of(g, i, j)) == submatrix_of(ints(g), i, j),
        is_grid(ints(g), m, m),
{
    let l = ints(submatrix_of(g, i, j));
    let r = submatrix_of(ints(g), i, j);
    assert forall|a: int| 0 <= a < m - 1 implies #[trigger] l[a] =~= r[a] by {
    }
    assert(l =~= r);
}

/// The determinant of a 2 by 2 grid is `a * d - b * c`.
pub proof fn lemma_det_2(g: Seq<Seq<int>>)
    requires
        is_grid(g, 2, 2),
    ensures
        det_of(g) == g[0][0] * g[1][1] - g[0][1] * g[1][0],
{
    let s0 = submatrix_of(g, 0, 0);
    let s1 = submatrix_of(g, 0, 1);
    assert(det_of(s0) == g[1][1]);
    assert(det_of(s1) == g[1][0]);
    assert(minor_of(g, 0, 0) == g[1][1]);
    assert(minor_of(g, 0, 1) == g[1][0]);
    assert(cofactor_of(g, 0, 0) == g[1][1]);
    assert(cofactor_of(g, 0, 1) == -g[1][0]);
    assert(expansion_of(g, 0) == 0);
    assert(expansion_of(g, 1) == g[0][0] * g[1][1]);
    assert(expansion_of(g, 2) == g[0][0] * g[1][1] + g[0][1] * (-g[1][0]));
    assert(g[0][1] * (-g[1][0]) == -(g[0][1] * g[1][0])) by (nonlinear_arith);
}

/// Where the expansion of a grid of two or more rows fits, so does its result.
pub proof fn lemma_det_fits_value(g: Seq<Seq<int>>)
    requires
        g.len() >= 2,
        det_fits(g),
    ensures
        fits(det_of(g)),
{
    if g.len() > 2 {
        let n = g.len() as int;
        assert(det_fits(submatrix_of(g, 0, n - 1)));
    }
}

} // verus!

verus! {

/// A size tag of square matrices whose determinant can be computed.
pub trait Determinant: Dim + Sized {
    /// The determinant of `m`.
    fn det(m: &Matrix<i64, Self, Self>) -> (r: i64)
        requires
            det_fits(ints(m@)),
        ensures
            r == det_of(ints(m@)),
    ;
}

impl Determinant for M2 {
    fn det(m: &Matrix<i64, M2, M2>) -> (r: i64) {
        proof {
            m.lemma_shape();
            lemma_det_2(ints(m@));
        }
        let a = *m.index(0, 0);
        let b = *m.index(0, 1);
        let c = *m.index(1, 0);
        let d = *m.index(1, 1);
        a * d - b * c
    }
}

impl Determinant for M3 {
    fn det(m: &Matrix<i64, M3, M3>) -> (r: i64) {
        laplace(m)
    }
}

impl Determinant for M4 {
    fn det(m: &Matrix<i64, M4, M4>) -> (r: i64) {
        laplace(m)
    }
}

/// The determinant of a matrix of three or more rows, by expansion along row 0.
fn laplace<M: Sub>(m: &Matrix<i64, M, M>) -> (r: i64)
    where
        M::SUB: Determinant,
    requires
        M::dim() >= 3,
        det_fits(ints(m@)),
    ensures
        r == det_of(ints(m@)),
{
    proof {
        m.lemma_shape();
    }
    let ghost g = ints(m@);
    let n = M::size();
    let mut sum: i64 = 0;
    let mut j: usize = 0;
    while j < n
        invariant
            n == M::dim(),
            3 <= n <= 4,
            j <= n,
            is_grid(m@, n as nat, n as nat),
            g == ints(m@),
            det_fits(g),
            sum == expansion_of(g, j as nat),
        decreases n - j,
    {
        proof {
            lemma_ints_submatrix(m@, n as nat, 0, j as int);
            assert(det_fits(submatrix_of(g, 0, j as int)));
            lemma_det_fits_value(submatrix_of(g, 0, j as int));
        }
        let c = m.cofactor(0, j);
        let a = *m.index(0, j);
        sum = sum + a * c;
        j = j + 1;
    }
    sum
}

impl<M: Sub> Matrix<i64, M, M>
    where
        M::SUB: Determinant,
{
    /// The determinant of the matrix without row `i` and column `j`.
    pub fn minor(&self, i: usize, j: usize) -> (r: i64)
        requires
            i < M::dim(),
            j < M::dim(),
            det_fits(submatrix_of(ints(self@), i as int, j as int)),
        ensures
            r == minor_of(ints(self@), i as int, j as int),
    {
        proof {
            self.lemma_shape();
            lemma_ints_submatrix(self@, M::dim(), i as int, j as int);
        }
        M::SUB::det(&self.submatrix(i, j))
    }

    /// The minor of `(i, j)`, negated where `i + j` is odd.
    pub fn cofactor(&self, i: usize, j: usize) -> (r: i64)
        requires
            i < M::dim(),
            j < M::dim(),
            cofactor_fits(ints(self@), i as int, j as int),
        ensures
            r == cofactor_of(ints(self@), i as int, j as int),
    {
        proof {
            self.lemma_shape();
        }
        let minor = self.minor(i, j);
        if (i + j) % 2 == 0 {
            minor
        } else {
            -minor
        }
    }
}

} // verus!

verus! {

impl<M: Determinant> Matrix<i64, M, M> {
    /// The determinant: `a * d - b * c` for 2 by 2, expansion along row 0 above that.
    pub fn det(&self) -> (r: i64)
        requires
            det_fits(ints(self@)),
        ensures
            r == det_of(ints(self@)),
    {
        M::det(self)
    }
}

impl<M: Sub + Determinant> Matrix<i64, M, M>
    where
        M::SUB: Determinant,
{
    /// The transpose of the matrix of cofactors.
    pub fn adjugate(&self) -> (r: Self)
        requires
            cofactors_fit(ints(self@)),
        ensures
            ints(r@) == adjugate_of(ints(self@)),
    {
        proof {
            self.lemma_shape();
        }
        let ghost cg = ints(self@);
        let ghost g = Seq::new(M::dim(), |i: int| Seq::new(M::dim(), |j: int| cofactor_of(cg, i, j) as i64));
        let n = M::size();
        let mut v: Vec<i64> = Self::new_uninitialized();
        let mut i: usize = 0;
        proof {
            lemma_filled_start(v@, g, n as nat);
        }
        while i < n
            invariant
                n == M::dim(),
                i <= n,
                is_grid(self@, n as nat, n as nat),
                cg == ints(self@),
                cofactors_fit(cg),
                g == Seq::new(M::dim(), |i: int| Seq::new(M::dim(), |j: int| cofactor_of(cg, i, j) as i64)),
                filled(v@, g, n as nat, i as int, 0),
            decreases n - i,
        {
            let mut j: usize = 0;
            while j < n
                invariant
                    n == M::dim(),
                    i < n,
                    j <= n,
                    is_grid(self@, n as nat, n as nat),
                    cg == ints(self@),
                    cofactors_fit(cg),
                    g == Seq::new(M::dim(), |i: int| Seq::new(M::dim(), |j: int| cofactor_of(cg, i, j) as i64)),
                    filled(v@, g, n as nat, i as int, j as int),
                decreases n - j,
            {
                proof {
                    assert(cofactor_fits(cg, i as int, j as int));
                    lemma_filled_push(v@, g, n as nat, i as int, j as int);
                }
                let c = self.cofactor(i, j);
                v.push(c);
                j = j + 1;
            }
            proof {
                lemma_filled_next_row(v@, g, n as nat, i as int);
            }
            i = i + 1;
        }
        proof {
            lemma_filled_done(v@, g, n as nat, n as nat);
        }
        let cm = Self::from(v);
        let r = cm.transpose();
        proof {
            let l = ints(r@);
            let e = adjugate_of(cg);
            assert forall|a: int| 0 <= a < n implies #[trigger] l[a] =~= e[a] by {
                assert forall|b: int| 0 <= b < n implies #[trigger] l[a][b] == e[a][b] by {
                    assert(cofactor_fits(cg, b, a));
                }
            }
            assert(l =~= e);
        }
        r
    }

    /// The inverse: the adjugate divided, cell by cell and rounding toward zero, by the
    /// determinant; `None` where the determinant is 0.
    pub fn invert(&self) -> (r: Option<Self>)
        requires
            invert_fits(ints(self@)),
        ensures
            r.is_none() <==> det_of(ints(self@)) == 0,
            r matches Some(inv) ==> ints(inv@) == inverse_of(ints(self@)),
    {
        proof {
            self.lemma_shape();
        }
        let ghost g = ints(self@);
        let det = self.det();
        if det == 0 {
            None
        } else {
            let mut m = self.adjugate();
            let ghost adj = m@;
            proof {
                assert forall|i: int, j: int| 0 <= i < M::dim() && 0 <= j < M::dim() implies fits(
                    quotient(adj[i][j] as int, det as int),
                ) by {
                    assert(ints(adj)[i][j] == adjugate_of(g)[i][j]);
                }
            }
            let divide = |x: i64| -> (q: i64)
                requires
                    det != 0,
                    fits(quotient(x as int, det as int)),
                ensures
                    q == quotient(x as int, det as int),
            {
                x / det
            };
            m.iter_mut(divide);
            proof {
                let l = ints(m@);
                let e = inverse_of(g);
                assert forall|a: int| 0 <= a < M::dim() implies #[trigger] l[a] =~= e[a] by {
                    assert forall|b: int| 0 <= b < M::dim() implies #[trigger] l[a][b] == e[a][b] by {
                        assert(ints(adj)[a][b] == adjugate_of(g)[a][b]);
                    }
                }
                assert(l =~= e);
            }
            Some(m)
        }
    }
}

} // verus!
