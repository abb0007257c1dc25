use bezier_offset::matrix::Matrix;

fn mat(rows: &[&[i64]], cols: usize) -> Matrix {
    Matrix::new(rows.iter().map(|r| r.to_vec()).collect(), cols).unwrap()
}

#[test]
fn identity_is_neutral_for_rectangular_matrices() {
    let m = mat(&[&[1, 2, 3], &[4, 5, 6]], 3);
    let right = m.mul(&Matrix::identity(3)).unwrap();
    assert_eq!(right.e, m.e);
    let left = Matrix::identity(2).mul(&m).unwrap();
    assert_eq!(left.e, m.e);
}

#[test]
fn product_of_small_matrices_is_associative() {
    let a = mat(&[&[1, -2], &[3, 0], &[2, 5]], 2);
    let b = mat(&[&[4, 1, -1], &[0, 2, 3]], 3);
    let c = mat(&[&[2], &[-1], &[7]], 1);
    let ab_c = a.mul(&b).unwrap().mul(&c).unwrap();
    let a_bc = a.mul(&b.mul(&c).unwrap()).unwrap();
    assert_eq!(ab_c.e, a_bc.e);
    assert_eq!(ab_c.e, vec![vec![-38], vec![0], vec![95]]);
}

#[test]
fn mismatched_dimensions_have_no_product() {
    let a = mat(&[&[1, 2]], 2);
    assert!(a.mul(&a).is_none());
}

#[test]
fn ragged_rows_are_refused() {
    assert!(Matrix::new(vec![vec![1, 2], vec![3]], 2).is_none());
}

#[test]
fn transpose_and_determinant() {
    let m = mat(&[&[1, 2, 3], &[4, 5, 6]], 3);
    let t = m.transpose();
    assert_eq!(t.cols, 2);
    assert_eq!(t.e, vec![vec![1, 4], vec![2, 5], vec![3, 6]]);
    assert_eq!(m.determinant(), None);
    assert_eq!(mat(&[&[3, 8], &[4, 6]], 2).determinant(), Some(-14));
}
