use bezier_offset::error::CurveError;
use bezier_offset::vector::{UnitVector, Vector};

#[test]
fn vector_sum_difference_and_scale() {
    let a = Vector::new(vec![1, 2, 3]);
    let b = Vector::new(vec![10, -20, 30]);
    assert_eq!(a.add(&b).b, vec![11, -18, 33]);
    assert_eq!(a.sub(&b).b, vec![-9, 22, -27]);
    assert_eq!(b.scale(-2).b, vec![-20, 40, -60]);
}

#[test]
fn vector_norms() {
    let a = Vector::new(vec![2, 3, 6]);
    assert_eq!(a.magnitude_squared(), 49);
    assert_eq!(a.magnitude(), 7);
    let b = Vector::new(vec![1, 1, 1]);
    assert_eq!(b.magnitude(), 1);
    assert_eq!(Vector::new(vec![]).magnitude(), 0);
}

#[test]
fn vector_dot_and_cross() {
    let a = Vector::new(vec![1, 2]);
    let b = Vector::new(vec![3, 4]);
    assert_eq!(a.dot(&b), 11);
    assert_eq!(a.cross(&b), Some(-2));
    let c = Vector::new(vec![1, 2, 3]);
    assert_eq!(c.cross(&c), None);
}

#[test]
fn vector_as_row_and_column() {
    let a = Vector::new(vec![4, 5, 6]);
    let r = a.row();
    assert_eq!(r.cols, 3);
    assert_eq!(r.e, vec![vec![4, 5, 6]]);
    let c = a.column();
    assert_eq!(c.cols, 1);
    assert_eq!(c.e, vec![vec![4], vec![5], vec![6]]);
    // row times column is the squared length
    assert_eq!(r.mul(&c).unwrap().e, vec![vec![77]]);
}

#[test]
fn vector_normalize_exact_form() {
    let a = Vector::new(vec![2, 3, 6]);
    let u = a.normalize().unwrap();
    assert_eq!(u, UnitVector { v: Vector::new(vec![2, 3, 6]), len_sq: 49 });
    assert_eq!(Vector::new(vec![0, 0, 0]).normalize(), Err(CurveError::DegenerateGeometry));
    assert_eq!(Vector::new(vec![]).normalize(), Err(CurveError::DegenerateGeometry));
    assert_eq!(Vector::new(vec![0, -5]).normalize().unwrap().len_sq, 25);
}

#[test]
fn vector_normalize_nonzero_succeeds() {
    let a = Vector::new(vec![0, 0, -1]);
    assert!(a.normalize().is_ok());
}
