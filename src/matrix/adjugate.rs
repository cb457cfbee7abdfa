//! A matrix times its adjugate is its determinant times the identity.

use vstd::prelude::*;

use super::determinant::{
    adjugate_of, cofactor_of, det_of, expansion_of, inverse_of, lemma_det_2, minor_of, quotient,
    submatrix_of,
};
use super::is_grid;
use super::ops::{dot_of, identity_of, mul_of};

verus! {

/// The determinant of a 3 by 3 grid, written out.
proof fn lemma_det_3(g: Seq<Seq<int>>)
    requires
        is_grid(g, 3, 3),
    ensures
        cofactor_of(g, 0, 0) == g[1][1] * g[2][2] - g[1][2] * g[2][1],
        cofactor_of(g, 0, 1) == -(g[1][0] * g[2][2] - g[1][2] * g[2][0]),
        cofactor_of(g, 0, 2) == g[1][0] * g[2][1] - g[1][1] * g[2][0],
        cofactor_of(g, 1, 0) == -(g[0][1] * g[2][2] - g[0][2] * g[2][1]),
        cofactor_of(g, 1, 1) == g[0][0] * g[2][2] - g[0][2] * g[2][0],
        cofactor_of(g, 1, 2) == -(g[0][0] * g[2][1] - g[0][1] * g[2][0]),
        cofactor_of(g, 2, 0) == g[0][1] * g[1][2] - g[0][2] * g[1][1],
        cofactor_of(g, 2, 1) == -(g[0][0] * g[1][2] - g[0][2] * g[1][0]),
        cofactor_of(g, 2, 2) == g[0][0] * g[1][1] - g[0][1] * g[1][0],
        det_of(g) == g[0][0] * cofactor_of(g, 0, 0) + g[0][1] * cofactor_of(g, 0, 1) + g[0][2]
            * cofactor_of(g, 0, 2),
{
    assert forall|i: int, j: int| 0 <= i < 3 && 0 <= j < 3 implies #[trigger] minor_of(g, i, j) == det_of(
        submatrix_of(g, i, j),
    ) && is_grid(submatrix_of(g, i, j), 2, 2) by {
    }
    lemma_det_2(submatrix_of(g, 0, 0));
    lemma_det_2(submatrix_of(g, 0, 1));
    lemma_det_2(submatrix_of(g, 0, 2));
    lemma_det_2(submatrix_of(g, 1, 0));
    lemma_det_2(submatrix_of(g, 1, 1));
    lemma_det_2(submatrix_of(g, 1, 2));
    lemma_det_2(submatrix_of(g, 2, 0));
    lemma_det_2(submatrix_of(g, 2, 1));
    lemma_det_2(submatrix_of(g, 2, 2));
    assert(expansion_of(g, 0) == 0);
    assert(expansion_of(g, 1) == g[0][0] * cofactor_of(g, 0, 0));
    assert(expansion_of(g, 2) == expansion_of(g, 1) + g[0][1] * cofactor_of(g, 0, 1));
    assert(expansion_of(g, 3) == expansion_of(g, 2) + g[0][2] * cofactor_of(g, 0, 2));
}

/// Row `r` of `g` against column `c` of its adjugate, for a 3 by 3 grid.
proof fn lemma_dot_adjugate_3(g: Seq<Seq<int>>, r: int, c: int)
    requires
        is_grid(g, 3, 3),
        0 <= r < 3,
        0 <= c < 3,
    ensures
        dot_of(g, adjugate_of(g), r, c, 3) == g[r][0] * cofactor_of(g, c, 0) + g[r][1] * cofactor_of(g, c, 1)
            + g[r][2] * cofactor_of(g, c, 2),
{
    let adj = adjugate_of(g);
    assert(adj[0][c] == cofactor_of(g, c, 0));
    assert(adj[1][c] == cofactor_of(g, c, 1));
    assert(adj[2][c] == cofactor_of(g, c, 2));
    assert(dot_of(g, adj, r, c, 0) == 0);
    assert(dot_of(g, adj, r, c, 1) == g[r][0] * adj[0][c]);
    assert(dot_of(g, adj, r, c, 2) == dot_of(g, adj, r, c, 1) + g[r][1] * adj[1][c]);
}

/// Each row of a 3 by 3 grid `[a, b, c; d, e, f; h, i, k]` against the cofactors of each
/// row: the determinant for the same row, 0 for another.
proof fn lemma_cofactor_sums_3(a: int, b: int, c: int, d: int, e: int, f: int, h: int, i: int, k: int)
    ensures
        d * (e * k - f * i) + e * (-(d * k - f * h)) + f * (d * i - e * h) == 0,
        h * (e * k - f * i) + i * (-(d * k - f * h)) + k * (d * i - e * h) == 0,
        a * (-(b * k - c * i)) + b * (a * k - c * h) + c * (-(a * i - b * h)) == 0,
        d * (-(b * k - c * i)) + e * (a * k - c * h) + f * (-(a * i - b * h)) == a * (e * k - f
            * i) + b * (-(d * k - f * h)) + c * (d * i - e * h),
        h * (-(b * k - c * i)) + i * (a * k - c * h) + k * (-(a * i - b * h)) == 0,
        a * (b * f - c * e) + b * (-(a * f - c * d)) + c * (a * e - b * d) == 0,
        d * (b * f - c * e) + e * (-(a * f - c * d)) + f * (a * e - b * d) == 0,
        h * (b * f - c * e) + i * (-(a * f - c * d)) + k * (a * e - b * d) == a * (e * k - f * i)
            + b * (-(d * k - f * h)) + c * (d * i - e * h),
{
    // every cell times every cofactor, multiplied out; the sums then cancel or agree
    assert(a * (e * k - f * i) == a * e * k - a * f * i) by (nonlinear_arith);
    assert(b * (-(d * k - f * h)) == b * f * h - b * d * k) by (nonlinear_arith);
    assert(c * (d * i - e * h) == c * d * i - c * e * h) by (nonlinear_arith);
    assert(a * (-(b * k - c * i)) == a * c * i - a * b * k) by (nonlinear_arith);
    assert(b * (a * k - c * h) == a * b * k - b * c * h) by (nonlinear_arith);
    assert(c * (-(a * i - b * h)) == b * c * h - a * c * i) by (nonlinear_arith);
    assert(a * (b * f - c * e) == a * b * f - a * c * e) by (nonlinear_arith);
    assert(b * (-(a * f - c * d)) == b * c * d - a * b * f) by (nonlinear_arith);
    assert(c * (a * e - b * d) == a * c * e - b * c * d) by (nonlinear_arith);
    assert(d * (e * k - f * i) == d * e * k - d * f * i) by (nonlinear_arith);
    assert(e * (-(d * k - f * h)) == e * f * h - d * e * k) by (nonlinear_arith);
    assert(f * (d * i - e * h) == d * f * i - e * f * h) by (nonlinear_arith);
    assert(d * (-(b * k - c * i)) == c * d * i - b * d * k) by (nonlinear_arith);
    assert(e * (a * k - c * h) == a * e * k - c * e * h) by (nonlinear_arith);
    assert(f * (-(a * i - b * h)) == b * f * h - a * f * i) by (nonlinear_arith);
    assert(d * (b * f - c * e) == b * d * f - c * d * e) by (nonlinear_arith);
    assert(e * (-(a * f - c * d)) == c * d * e - a * e * f) by (nonlinear_arith);
    assert(f * (a * e - b * d) == a * e * f - b * d * f) by (nonlinear_arith);
    assert(h * (e * k - f * i) == e * h * k - f * h * i) by (nonlinear_arith);
    assert(i * (-(d * k - f * h)) == f * h * i - d * i * k) by (nonlinear_arith);
    assert(k * (d * i - e * h) == d * i * k - e * h * k) by (nonlinear_arith);
    assert(h * (-(b * k - c * i)) == c * h * i - b * h * k) by (nonlinear_arith);
    assert(i * (a * k - c * h) == a * i * k - c * h * i) by (nonlinear_arith);
    assert(k * (-(a * i - b * h)) == b * h * k - a * i * k) by (nonlinear_arith);
    assert(h * (b * f - c * e) == b * f * h - c * e * h) by (nonlinear_arith);
    assert(i * (-(a * f - c * d)) == c * d * i - a * f * i) by (nonlinear_arith);
    assert(k * (a * e - b * d) == a * e * k - b * d * k) by (nonlinear_arith);
}

/// For a 3 by 3 grid, row `r` times column `c` of the adjugate is the determinant on the
/// diagonal and 0 off it.
proof fn lemma_mul_adjugate_3(g: Seq<Seq<int>>, r: int, c: int)
    requires
        is_grid(g, 3, 3),
        0 <= r < 3,
        0 <= c < 3,
    ensures
        dot_of(g, adjugate_of(g), r, c, 3) == if r == c { det_of(g) } else { 0 },
{
    lemma_det_3(g);
    lemma_dot_adjugate_3(g, r, c);
    lemma_cofactor_sums_3(g[0][0], g[0][1], g[0][2], g[1][0], g[1][1], g[1][2], g[2][0], g[2][1], g[2][2]);
}

/// Every cell of `g` multiplied by `d`.
pub open spec fn scale_of(g: Seq<Seq<int>>, d: int) -> Seq<Seq<int>> {
    Seq::new(g.len(), |i: int| Seq::new(g[i].len(), |j: int| g[i][j] * d))
}

/// A 3 by 3 matrix times its adjugate is its determinant times the identity:
/// `A * adj(A) == det(A) * I`.
pub proof fn lemma_mul_adjugate_3x3(g: Seq<Seq<int>>)
    requires
        is_grid(g, 3, 3),
    ensures
        mul_of(g, adjugate_of(g), 3, 3, 3) == scale_of(identity_of(3), det_of(g)),
{
    let p = mul_of(g, adjugate_of(g), 3, 3, 3);
    let e = scale_of(identity_of(3), det_of(g));
    assert forall|r: int| 0 <= r < 3 implies #[trigger] p[r] =~= e[r] by {
        assert forall|c: int| 0 <= c < 3 implies #[trigger] p[r][c] == e[r][c] by {
            lemma_mul_adjugate_3(g, r, c);
        }
    }
    assert(p =~= e);
}

/// A dot product against a column scaled by `d` is the dot product scaled by `d`.
proof fn lemma_dot_scaled(a: Seq<Seq<int>>, b: Seq<Seq<int>>, q: Seq<Seq<int>>, r: int, c: int, d: int, k: nat)
    requires
        forall|t: int| 0 <= t < k ==> #[trigger] q[t][c] * d == b[t][c],
    ensures
        dot_of(a, q, r, c, k) * d == dot_of(a, b, r, c, k),
    decreases k,
{
    if k > 0 {
        let k1 = (k - 1) as nat;
        lemma_dot_scaled(a, b, q, r, c, d, k1);
        assert(q[k1 as int][c] * d == b[k1 as int][c]);
        assert((dot_of(a, q, r, c, k1) + a[r][k1 as int] * q[k1 as int][c]) * d == dot_of(a, q, r, c, k1)
            * d + a[r][k1 as int] * (q[k1 as int][c] * d)) by (nonlinear_arith);
    }
}

/// A 3 by 3 matrix whose determinant divides every cell of its adjugate, so that the division
/// in the inverse loses nothing, times its inverse is the identity: `A * invert(A) == I`.
/// (Where the division rounds, the product need not be the identity.)
pub proof fn lemma_mul_inverse_3x3(g: Seq<Seq<int>>)
    requires
        is_grid(g, 3, 3),
        det_of(g) != 0,
        forall|i: int, j: int|
            0 <= i < 3 && 0 <= j < 3 ==> quotient(#[trigger] adjugate_of(g)[i][j], det_of(g)) * det_of(g)
                == adjugate_of(g)[i][j],
    ensures
        mul_of(g, inverse_of(g), 3, 3, 3) == identity_of(3),
{
    let d = det_of(g);
    let adj = adjugate_of(g);
    let inv = inverse_of(g);
    let p = mul_of(g, inv, 3, 3, 3);
    let e = identity_of(3);
    assert forall|r: int| 0 <= r < 3 implies #[trigger] p[r] =~= e[r] by {
        assert forall|c: int| 0 <= c < 3 implies #[trigger] p[r][c] == e[r][c] by {
            assert forall|t: int| 0 <= t < 3 implies #[trigger] inv[t][c] * d == adj[t][c] by {
                assert(inv[t][c] == quotient(adj[t][c], d));
            }
            lemma_dot_scaled(g, adj, inv, r, c, d, 3);
            lemma_mul_adjugate_3(g, r, c);
            let x = dot_of(g, inv, r, c, 3);
            assert(x == if r == c { 1int } else { 0int }) by (nonlinear_arith)
                requires
                    x * d == if r == c { d } else { 0 },
                    d != 0,
            ;
        }
    }
    assert(p =~= e);
}

} // verus!
