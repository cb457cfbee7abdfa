use raytrace::matrix::{Matrix, M2, M3, M4};

fn m3(rows: [[i64; 3]; 3]) -> Matrix<i64, M3, M3> {
    Matrix::from_rows(rows.iter().map(|r| r.to_vec()).collect())
}

fn m4(rows: [[i64; 4]; 4]) -> Matrix<i64, M4, M4> {
    Matrix::from_rows(rows.iter().map(|r| r.to_vec()).collect())
}

#[test]
fn identity_on_both_sides() {
    let a = m3([[3, 5, 0], [2, -1, -7], [6, -1, 5]]);
    let i: Matrix<i64, M3, M3> = Matrix::identity();
    assert_eq!(a.mul(&i), a);
    assert_eq!(i.mul(&a), a);
}

#[test]
fn identity_cells() {
    let i: Matrix<i64, M3, M3> = Matrix::identity();
    assert_eq!(i.iter(), vec![1, 0, 0, 0, 1, 0, 0, 0, 1]);
}

#[test]
fn transpose_twice_of_non_square() {
    let a: Matrix<i64, M2, M3> = Matrix::from(vec![1, 2, 3, 4, 5, 6]);
    let t = a.transpose();
    assert_eq!(t.iter(), vec![1, 4, 2, 5, 3, 6]);
    assert_eq!(t.transpose(), a);
}

#[test]
fn non_square_product() {
    let a: Matrix<i64, M2, M3> = Matrix::from(vec![1, 2, 3, 4, 5, 6]);
    let b: Matrix<i64, M3, M2> = Matrix::from(vec![7, 8, 9, 10, 11, 12]);
    let c: Matrix<i64, M2, M2> = Matrix::from(vec![58, 64, 139, 154]);
    assert_eq!(a.mul(&b), c);
}

#[test]
fn product_with_adjugate_is_det_times_identity() {
    let a = m4([[6, 4, 4, 4], [5, 5, 7, 6], [4, -9, 3, -7], [9, 1, 7, -6]]);
    let det = a.det();
    let p = a.mul(&a.adjugate());
    for i in 0..4 {
        for j in 0..4 {
            assert_eq!(*p.index(i, j), if i == j { det } else { 0 });
        }
    }
}

#[test]
fn invert_with_unit_determinant_is_exact() {
    let a = m3([[2, 3, 1], [1, 2, 1], [1, 1, 1]]);
    assert_eq!(a.det(), 1);
    let inv = a.invert().unwrap();
    let expected = m3([[1, -2, 1], [0, 1, -1], [-1, 1, 1]]);
    assert_eq!(inv, expected);
    assert_eq!(a.mul(&inv), Matrix::identity());
}

#[test]
fn invert_divides_toward_zero() {
    // det 2; adjugate [[1, 0, 0], [0, 2, 0], [0, 0, 2]] divided by 2 rounds 1/2 down to 0
    let a = m3([[2, 0, 0], [0, 1, 0], [0, 0, 1]]);
    let inv = a.invert().unwrap();
    assert_eq!(inv, m3([[0, 0, 0], [0, 1, 0], [0, 0, 1]]));
    let b = m3([[-2, 0, 0], [0, 1, 0], [0, 0, 1]]);
    assert_eq!(b.adjugate(), m3([[1, 0, 0], [0, -2, 0], [0, 0, -2]]));
    assert_eq!(b.invert().unwrap(), m3([[0, 0, 0], [0, 1, 0], [0, 0, 1]]));
}

#[test]
fn singular_3x3_has_no_inverse() {
    let a = m3([[1, 2, 3], [2, 4, 6], [0, 1, 5]]);
    assert_eq!(a.det(), 0);
    assert!(a.invert().is_none());
}

#[test]
fn remove_row_and_col() {
    let a = m3([[1, 2, 3], [4, 5, 6], [7, 8, 9]]);
    let r: Matrix<i64, M2, M3> = a.remove_row(1);
    assert_eq!(r.iter(), vec![1, 2, 3, 7, 8, 9]);
    let c: Matrix<i64, M3, M2> = a.remove_col(0);
    assert_eq!(c.iter(), vec![2, 3, 5, 6, 8, 9]);
    assert_eq!(a.submatrix(0, 2), Matrix::<i64, M2, M2>::from(vec![4, 5, 7, 8]));
}

#[test]
fn rows_cols_and_indexed() {
    let a: Matrix<i64, M2, M3> = Matrix::from(vec![1, 2, 3, 4, 5, 6]);
    assert_eq!(a.iter_row(1), vec![4, 5, 6]);
    assert_eq!(a.iter_col(2), vec![3, 6]);
    assert_eq!(a.iter_rows(), vec![vec![1, 2, 3], vec![4, 5, 6]]);
    assert_eq!(a.iter_cols(), vec![vec![1, 4], vec![2, 5], vec![3, 6]]);
    assert_eq!(
        a.iter_indexed(),
        vec![(0, 0, 1), (0, 1, 2), (0, 2, 3), (1, 0, 4), (1, 1, 5), (1, 2, 6)]
    );
}

#[test]
fn shape_and_storage_positions() {
    let a: Matrix<i64, M2, M3> = Matrix::from(vec![1, 2, 3, 4, 5, 6]);
    assert_eq!(a.width(), 2);
    assert_eq!(a.height(), 3);
    assert_eq!(Matrix::<i64, M2, M3>::to_row_major(1, 2), 5);
    assert_eq!(Matrix::<i64, M4, M4>::to_row_major(2, 1), 9);
}

#[test]
fn set_and_iter_mut() {
    let mut a: Matrix<i64, M2, M2> = Matrix::new();
    assert_eq!(a.iter(), vec![0, 0, 0, 0]);
    a.set(1, 0, 7);
    assert_eq!(a.iter(), vec![0, 0, 7, 0]);
    a.iter_mut(|x| x * 2 + 1);
    assert_eq!(a.iter(), vec![1, 1, 15, 1]);
}

#[test]
fn staging_buffer_is_empty_with_room() {
    let buf: Vec<i64> = Matrix::<i64, M4, M4>::new_uninitialized();
    assert!(buf.is_empty());
    assert!(buf.capacity() >= 16);
}

#[test]
fn clone_is_independent() {
    let a = m3([[1, 2, 3], [4, 5, 6], [7, 8, 9]]);
    let mut b = a.clone();
    b.set(0, 0, 0);
    assert_eq!(*a.index(0, 0), 1);
    assert_eq!(*b.index(0, 0), 0);
}

#[test]
fn det_of_2x2_through_submatrix_of_3x3() {
    let a = m3([[1, 2, 6], [-5, 8, -4], [2, 6, 4]]);
    let s: Matrix<i64, M2, M2> = a.submatrix(0, 0);
    assert_eq!(s.det(), 8 * 4 - (-4) * 6);
}
