use bezier_offset::error::CurveError;
use bezier_offset::solvers::{newton2, Poly2, Root, Stopped};

fn poly(c: i64, cx: i64, cy: i64, cxx: i64, cxy: i64, cyy: i64) -> Poly2 {
    Poly2 { c, cx, cy, cxx, cxy, cyy }
}

#[test]
fn linear_pair_converges_in_two_steps() {
    // f(x, y) = x - 3, g(x, y) = y - 5
    let f = poly(-3, 1, 0, 0, 0, 0);
    let g = poly(-5, 0, 1, 0, 0, 0);
    let r = newton2(0, 0, &f, &g, 1, 10_000_000).unwrap();
    assert_eq!(r, Root { x: 3, y: 5, d: 1, steps: 2 });
    assert!(r.steps <= 2);
}

#[test]
fn start_at_root_converges_at_once() {
    let f = poly(-3, 1, 0, 0, 0, 0);
    let g = poly(-5, 0, 1, 0, 0, 0);
    assert_eq!(newton2(3, 5, &f, &g, 0, 1), Ok(Root { x: 3, y: 5, d: 1, steps: 1 }));
}

#[test]
fn coupled_linear_pair() {
    // x + y = 3, x - y = 1: root (2, 1); the Jacobian determinant is -2
    let f = poly(-3, 1, 1, 0, 0, 0);
    let g = poly(-1, 1, -1, 0, 0, 0);
    let r = newton2(0, 0, &f, &g, 0, 1).unwrap();
    assert_eq!(r.x * 1, 2 * r.d);
    assert_eq!(r.y * 1, 1 * r.d);
    assert!(r.d > 0);
    assert_eq!(r.steps, 2);
}

#[test]
fn quadratic_pair_reaches_exact_root() {
    // x^2 - 4 = 0, y - x = 0 from (2, 1): the first step lands on (2, 2)
    let f = poly(-4, 0, 0, 1, 0, 0);
    let g = poly(0, -1, 1, 0, 0, 0);
    let r = newton2(2, 1, &f, &g, 0, 1).unwrap();
    assert_eq!(r.x, 2 * r.d);
    assert_eq!(r.y, 2 * r.d);
}

#[test]
fn singular_jacobian_is_degenerate() {
    let f = poly(-1, 1, 1, 0, 0, 0);
    let g = poly(-2, 2, 2, 0, 0, 0);
    assert_eq!(
        newton2(0, 0, &f, &g, 1, 1000),
        Err(Stopped { kind: CurveError::DegenerateGeometry, last: Root { x: 0, y: 0, d: 1, steps: 0 } })
    );
}

#[test]
fn unmet_tolerance_exhausts_the_steps() {
    let f = poly(-3, 1, 0, 0, 0, 0);
    let g = poly(-5, 0, 1, 0, 0, 0);
    // the last iterate is kept: the root, reached at the first step
    assert_eq!(
        newton2(0, 0, &f, &g, -1, 1),
        Err(Stopped { kind: CurveError::NonConvergence, last: Root { x: 3, y: 5, d: 1, steps: 1000 } })
    );
}

#[test]
fn growing_denominators_leave_the_range() {
    // x^2 + 1 has no real root: the exact iterates grow without bound
    let f = poly(1, 0, 0, 1, 0, 0);
    let g = poly(0, 0, 1, 0, 0, 0);
    let e = newton2(2, 0, &f, &g, 0, 1).unwrap_err();
    assert_eq!(e.kind, CurveError::OutOfRange);
    assert!(e.last.steps > 0 && e.last.d > 0);
}
