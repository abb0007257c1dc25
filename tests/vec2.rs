use bezier_offset::error::CurveError;
use bezier_offset::vec2::{floor_sqrt, UnitVec, Vec2};

#[test]
fn ops() {
    let zero: Vec2<i64> = Vec2::new(0, 0);
    let a: Vec2<i64> = Vec2::new(7, 13);
    let b: Vec2<i64> = Vec2::new(5, 17);

    // Check vector addition
    let a_plus_b: Vec2<i64> = Vec2::new(12, 30);
    assert_eq!(a + zero, a);
    assert_eq!(a + b, a_plus_b);

    // Check vector subtraction
    let a_minus_b: Vec2<i64> = Vec2::new(2, -4);
    assert_eq!(a - zero, a);
    assert_eq!(a - b, a_minus_b);
}

#[test]
fn negation_flips_both_components() {
    let a: Vec2<i64> = Vec2::new(7, -13);
    assert_eq!(-a, Vec2::new(-7, 13));
}

#[test]
fn normal_turns_a_quarter_counter_clockwise() {
    let a: Vec2<i64> = Vec2::new(3, 4);
    assert_eq!(a.normal(), Vec2::new(-4, 3));
    assert_eq!(a.dot(&a.normal()), 0);
}

#[test]
fn dot_cross_and_scale() {
    let a: Vec2<i64> = Vec2::new(2, 3);
    let b: Vec2<i64> = Vec2::new(5, -7);
    assert_eq!(a.dot(&b), 10 - 21);
    assert_eq!(a.cross(&b), -14 - 15);
    assert_eq!(a.scale(-4), Vec2::new(-8, -12));
}

#[test]
fn magnitude_of_a_pythagorean_vector() {
    let a: Vec2<i64> = Vec2::new(3, 4);
    assert_eq!(a.mag_squared(), 25);
    assert_eq!(a.mag(), 5);
    let b: Vec2<i64> = Vec2::new(1, 1);
    assert_eq!(b.mag(), 1);
}

#[test]
fn magnitude_of_extreme_vector() {
    let a: Vec2<i64> = Vec2::new(i64::MIN, i64::MIN);
    assert_eq!(a.mag_squared(), 1u128 << 127);
    // floor(2^63 * sqrt(2))
    assert_eq!(a.mag(), 13043817825332782212);
}

#[test]
fn floor_sqrt_rounds_down() {
    assert_eq!(floor_sqrt(0), 0);
    assert_eq!(floor_sqrt(15), 3);
    assert_eq!(floor_sqrt(16), 4);
    assert_eq!(floor_sqrt(u128::MAX), u64::MAX);
}

#[test]
fn normalize_zero_is_degenerate() {
    let z: Vec2<i64> = Vec2::new(0, 0);
    assert_eq!(z.normalize(), Err(CurveError::DegenerateGeometry));
    let a: Vec2<i64> = Vec2::new(0, 2);
    assert_eq!(a.normalize(), Ok(UnitVec { v: a, len_sq: 4 }));
    let b: Vec2<i64> = Vec2::new(3, -4);
    assert_eq!(b.normalize().unwrap().len_sq, 25);
}
