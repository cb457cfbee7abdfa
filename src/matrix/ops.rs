//! Matrix multiplication, the identity, and zero-filled construction.

use vstd::prelude::*;

use super::determinant::{fits, ints};
use super::{
    filled, is_grid, lemma_filled_done, lemma_filled_next_row, lemma_filled_push,
    lemma_filled_start, Dim, Matrix,
};

verus! {

/// The sum over `t < k` of `a[r][t] * b[t][c]`.
pub open spec fn dot_of(a: Seq<Seq<int>>, b: Seq<Seq<int>>, r: int, c: int, k: nat) -> int
    decreases k,
{
    if k == 0 {
        0
    } else {
        dot_of(a, b, r, c, (k - 1) as nat) + a[r][k - 1] * b[k - 1][c]
    }
}

/// The product of `a`, of `m` rows, and `b`, of `n` rows and `p` columns: cell `(r, c)` is the
/// dot product of row `r` of `a` and column `c` of `b`.
pub open spec fn mul_of(a: Seq<Seq<int>>, b: Seq<Seq<int>>, m: nat, n: nat, p: nat) -> Seq<Seq<int>> {
    Seq::new(m, |r: int| Seq::new(p, |c: int| dot_of(a, b, r, c, n)))
}

/// Every product and partial sum that multiplying `a` by `b` computes can be held by an `i64`.
pub open spec fn mul_fits(a: Seq<Seq<int>>, b: Seq<Seq<int>>, m: nat, n: nat, p: nat) -> bool {
    forall|r: int, c: int, k: int|
        0 <= r < m && 0 <= c < p && 0 <= k < n ==> {
            &&& fits(a[r][k] * b[k][c])
            &&& fits(#[trigger] dot_of(a, b, r, c, (k + 1) as nat))
        }
}

/// The `n` by `n` grid with 1 on the diagonal and 0 elsewhere.
pub open spec fn identity_of(n: nat) -> Seq<Seq<int>> {
    Seq::new(n, |i: int| Seq::new(n, |j: int| if i == j { 1 } else { 0 }))
}

/// The first `k` terms of a dot product with an identity column pick out cell `c` once `k`
/// passes `c`.
proof fn lemma_dot_identity_right(a: Seq<Seq<int>>, n: nat, r: int, c: int, k: nat)
    requires
        0 <= c < n,
        k <= n,
    ensures
        dot_of(a, identity_of(n), r, c, k) == if c < k { a[r][c] } else { 0 },
    decreases k,
{
    if k > 0 {
        lemma_dot_identity_right(a, n, r, c, (k - 1) as nat);
    }
}

/// The first `k` terms of a dot product with an identity row pick out row `r` once `k`
/// passes `r`.
proof fn lemma_dot_identity_left(a: Seq<Seq<int>>, m: nat, r: int, c: int, k: nat)
    requires
        0 <= r < m,
        k <= m,
    ensures
        dot_of(identity_of(m), a, r, c, k) == if r < k { a[r][c] } else { 0 },
    decreases k,
{
    if k > 0 {
        lemma_dot_identity_left(a, m, r, c, (k - 1) as nat);
    }
}

/// Multiplying on the right by the identity leaves a matrix unchanged: `A * I == A`.
pub proof fn lemma_mul_identity_right(a: Seq<Seq<int>>, m: nat, n: nat)
    requires
        is_grid(a, m, n),
    ensures
        mul_of(a, identity_of(n), m, n, n) == a,
{
    let p = mul_of(a, identity_of(n), m, n, n);
    assert forall|r: int| 0 <= r < m implies #[trigger] p[r] =~= a[r] by {
        assert forall|c: int| 0 <= c < n implies #[trigger] p[r][c] == a[r][c] by {
            lemma_dot_identity_right(a, n, r, c, n);
        }
    }
    assert(p =~= a);
}

/// Multiplying on the left by the identity leaves a matrix unchanged: `I * A == A`.
pub proof fn lemma_mul_identity_left(a: Seq<Seq<int>>, m: nat, n: nat)
    requires
        is_grid(a, m, n),
    ensures
        mul_of(identity_of(m), a, m, m, n) == a,
{
    let p = mul_of(identity_of(m), a, m, m, n);
    assert forall|r: int| 0 <= r < m implies #[trigger] p[r] =~= a[r] by {
        assert forall|c: int| 0 <= c < n implies #[trigger] p[r][c] == a[r][c] by {
            lemma_dot_identity_left(a, m, r, c, m);
        }
    }
    assert(p =~= a);
}

impl<T: Default + Copy, M: Dim, N: Dim> Matrix<T, M, N> {
    /// The matrix whose every cell holds `T::default()`.
    pub fn new() -> (r: Self)
        ensures
            forall|i: int, j: int|
                0 <= i < M::dim() && 0 <= j < N::dim() ==> call_ensures(
                    T::default,
                    (),
                    #[trigger] r@[i][j],
                ),
    {
        proof {
            M::lemma_dim_range();
            N::lemma_dim_range();
        }
        let d = T::default();
        let ghost g = Seq::new(M::dim(), |i: int| Seq::new(N::dim(), |j: int| d));
        let m = M::size();
        let n = N::size();
        let mut v: Vec<T> = Self::new_uninitialized();
        let mut i: usize = 0;
        proof {
            lemma_filled_start(v@, g, n as nat);
        }
        while i < m
            invariant
                m == M::dim(),
                n == N::dim(),
                i <= m,
                filled(v@, g, n as nat, i as int, 0),
                g == Seq::new(M::dim(), |i: int| Seq::new(N::dim(), |j: int| d)),
            decreases m - i,
        {
            let mut j: usize = 0;
            while j < n
                invariant
                    m == M::dim(),
                    n == N::dim(),
                    i < m,
                    j <= n,
                    filled(v@, g, n as nat, i as int, j as int),
                    g == Seq::new(M::dim(), |i: int| Seq::new(N::dim(), |j: int| d)),
                decreases n - j,
            {
                proof {
                    lemma_filled_push(v@, g, n as nat, i as int, j as int);
                }
                v.push(d);
                j = j + 1;
            }
            proof {
                lemma_filled_next_row(v@, g, n as nat, i as int);
            }
            i = i + 1;
        }
        proof {
            lemma_filled_done(v@, g, m as nat, n as nat);
        }
        Matrix::from(v)
    }
}

impl<M: Dim> Matrix<i64, M, M> {
    /// The matrix with 1 on the diagonal and 0 elsewhere.
    pub fn identity() -> (r: Self)
        ensures
            ints(r@) == identity_of(M::dim()),
    {
        proof {
            M::lemma_dim_range();
        }
        let ghost g = Seq::new(M::dim(), |i: int| Seq::new(M::dim(), |j: int| if i == j { 1i64 } else { 0i64 }));
        let n = M::size();
        let mut v: Vec<i64> = Self::new_uninitialized();
        let mut i: usize = 0;
        proof {
            lemma_filled_start(v@, g, n as nat);
        }
        while i < n
            invariant
                n == M::dim(),
                i <= n,
                filled(v@, g, n as nat, i as int, 0),
                g == Seq::new(M::dim(), |i: int| Seq::new(M::dim(), |j: int| if i == j { 1i64 } else { 0i64 })),
            decreases n - i,
        {
            let mut j: usize = 0;
            while j < n
                invariant
                    n == M::dim(),
                    i < n,
                    j <= n,
                    filled(v@, g, n as nat, i as int, j as int),
                    g == Seq::new(M::dim(), |i: int| Seq::new(M::dim(), |j: int| if i == j { 1i64 } else { 0i64 })),
                decreases n - j,
            {
                proof {
                    lemma_filled_push(v@, g, n as nat, i as int, j as int);
                }
                v.push(if i == j { 1 } else { 0 });
                j = j + 1;
            }
            proof {
                lemma_filled_next_row(v@, g, n as nat, i as int);
            }
            i = i + 1;
        }
        proof {
            lemma_filled_done(v@, g, n as nat, n as nat);
        }
        let r = Matrix::from(v);
        proof {
            let l = ints(r@);
            let e = identity_of(M::dim());
            assert forall|a: int| 0 <= a < n implies #[trigger] l[a] =~= e[a] by {
            }
            assert(l =~= e);
        }
        r
    }
}

impl<MA: Dim, N: Dim> Matrix<i64, MA, N> {
    /// The product with `rhs`: cell `(r, c)` is the sum over `k` of `self[r][k] * rhs[k][c]`.
    pub fn mul<NB: Dim>(&self, rhs: &Matrix<i64, N, NB>) -> (r: Matrix<i64, MA, NB>)
        requires
            mul_fits(ints(self@), ints(rhs@), MA::dim(), N::dim(), NB::dim()),
        ensures
            ints(r@) == mul_of(ints(self@), ints(rhs@), MA::dim(), N::dim(), NB::dim()),
    {
        proof {
            self.lemma_shape();
            rhs.lemma_shape();
            NB::lemma_dim_range();
        }
        let ghost a = ints(self@);
        let ghost b = ints(rhs@);
        let ghost prod = mul_of(a, b, MA::dim(), N::dim(), NB::dim());
        let ghost g = Seq::new(MA::dim(), |r: int| Seq::new(NB::dim(), |c: int| prod[r][c] as i64));
        let m = MA::size();
        let n = N::size();
        let p = NB::size();
        let mut v: Vec<i64> = Matrix::<i64, MA, NB>::new_uninitialized();
        let mut row: usize = 0;
        proof {
            lemma_filled_start(v@, g, p as nat);
        }
        while row < m
            invariant
                m == MA::dim(),
                n == N::dim(),
                p == NB::dim(),
                row <= m,
                is_grid(self@, m as nat, n as nat),
                is_grid(rhs@, n as nat, p as nat),
                a == ints(self@),
                b == ints(rhs@),
                mul_fits(a, b, m as nat, n as nat, p as nat),
                prod == mul_of(a, b, m as nat, n as nat, p as nat),
                g == Seq::new(MA::dim(), |r: int| Seq::new(NB::dim(), |c: int| prod[r][c] as i64)),
                filled(v@, g, p as nat, row as int, 0),
            decreases m - row,
        {
            let mut col: usize = 0;
            while col < p
                invariant
                    m == MA::dim(),
                    n == N::dim(),
                    p == NB::dim(),
                    row < m,
                    col <= p,
                    is_grid(self@, m as nat, n as nat),
                    is_grid(rhs@, n as nat, p as nat),
                    a == ints(self@),
                    b == ints(rhs@),
                    mul_fits(a, b, m as nat, n as nat, p as nat),
                    prod == mul_of(a, b, m as nat, n as nat, p as nat),
                    g == Seq::new(MA::dim(), |r: int| Seq::new(NB::dim(), |c: int| prod[r][c] as i64)),
                    filled(v@, g, p as nat, row as int, col as int),
                decreases p - col,
            {
                let mut sum: i64 = 0;
                let mut k: usize = 0;
                while k < n
                    invariant
                        m == MA::dim(),
                        n == N::dim(),
                        p == NB::dim(),
                        row < m,
                        col < p,
                        k <= n,
                        is_grid(self@, m as nat, n as nat),
                        is_grid(rhs@, n as nat, p as nat),
                        a == ints(self@),
                        b == ints(rhs@),
                        mul_fits(a, b, m as nat, n as nat, p as nat),
                        sum == dot_of(a, b, row as int, col as int, k as nat),
                    decreases n - k,
                {
                    proof {
                        assert(fits(dot_of(a, b, row as int, col as int, (k + 1) as nat)));
                        assert(fits(a[row as int][k as int] * b[k as int][col as int]));
                    }
                    sum = sum + *self.index(row, k) * *rhs.index(k, col);
                    k = k + 1;
                }
                proof {
                    lemma_filled_push(v@, g, p as nat, row as int, col as int);
                }
                v.push(sum);
                col = col + 1;
            }
            proof {
                lemma_filled_next_row(v@, g, p as nat, row as int);
            }
            row = row + 1;
        }
        proof {
            lemma_filled_done(v@, g, m as nat, p as nat);
        }
        let r = Matrix::from(v);
        proof {
            let l = ints(r@);
            assert forall|x: int| 0 <= x < m implies #[trigger] l[x] =~= prod[x] by {
                assert forall|y: int| 0 <= y < p implies #[trigger] l[x][y] == prod[x][y] by {
                    if n > 0 {
                        assert(fits(dot_of(a, b, x, y, ((n - 1) + 1) as nat)));
                    }
                }
            }
            assert(l =~= prod);
        }
        r
    }
}

} // verus!
