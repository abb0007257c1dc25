use bezier_offset::error::CurveError;
use bezier_offset::matrix2x2::Matrix2x2;
use bezier_offset::vec2::Vec2;

fn m(a: i64, b: i64, c: i64, d: i64) -> Matrix2x2<i64> {
    Matrix2x2 { a, b, c, d }
}

#[test]
fn identity_is_neutral() {
    let x = m(2, -3, 5, 7);
    let i = Matrix2x2::identity();
    assert_eq!(x.mul(&i), x);
    assert_eq!(i.mul(&x), x);
}

#[test]
fn product_is_associative() {
    let a = m(1, 2, 3, 4);
    let b = m(-2, 0, 5, 1);
    let c = m(3, -1, 2, 6);
    assert_eq!(a.mul(&b).mul(&c), a.mul(&b.mul(&c)));
    assert_eq!(a.mul(&b), m(8, 2, 14, 4));
}

#[test]
fn determinant_and_inverse() {
    let a = m(1, 2, 3, 4);
    assert_eq!(a.determinant(), -2);
    let (adj, det) = a.inverse().unwrap();
    assert_eq!(det, -2);
    assert_eq!(adj, m(4, -2, -3, 1));
    assert_eq!(a.mul(&adj), m(-2, 0, 0, -2));
}

#[test]
fn singular_matrix_has_no_inverse() {
    let a = m(1, 2, 2, 4);
    assert_eq!(a.determinant(), 0);
    assert_eq!(a.inverse(), Err(CurveError::DegenerateGeometry));
}

#[test]
fn scale_and_apply() {
    let a = m(1, 2, 3, 4);
    assert_eq!(a.scale(3), m(3, 6, 9, 12));
    assert_eq!(a.mul_vec(&Vec2::new(1, -1)), Vec2::new(-1, -1));
}
