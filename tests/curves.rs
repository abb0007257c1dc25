use bezier_offset::bezier::{Bezier, HPoint};
use bezier_offset::bezier3::Bezier3;
use bezier_offset::cubic::{Curvature, Deriv};
use bezier_offset::error::CurveError;
use bezier_offset::hull::hull_indices;
use bezier_offset::vec2::{UnitVec, Vec2};

fn pts(v: &[(i64, i64)]) -> Vec<Vec2<i64>> {
    v.iter().map(|&(x, y)| Vec2::new(x, y)).collect()
}

fn arch() -> Vec<Vec2<i64>> {
    pts(&[(0, 0), (0, 1), (1, 1), (1, 0)])
}

#[test]
fn midpoint_uses_bernstein_weights() {
    let c = Bezier::new(arch());
    // (0.5, 0.75) = (4 / 8, 6 / 8)
    assert_eq!(c.get_point(1, 2), HPoint { x: 4, y: 6, w: 8 });
    let c3 = Bezier3::new(arch()).unwrap();
    assert_eq!(c3.get_point(1, 2), HPoint { x: 4, y: 6, w: 8 });
}

#[test]
fn curve_interpolates_its_endpoints() {
    let p = pts(&[(3, -5), (10, 40), (-7, 2), (9, 11)]);
    let c = Bezier3::new(p).unwrap();
    assert_eq!(c.get_point(0, 7), HPoint { x: 3 * 343, y: -5 * 343, w: 343 });
    assert_eq!(c.get_point(7, 7), HPoint { x: 9 * 343, y: 11 * 343, w: 343 });
}

#[test]
fn quadratic_and_linear_curves_evaluate() {
    let q = Bezier::new(pts(&[(0, 0), (2, 4), (4, 0)]));
    // t = 1/2: (2, 2) = (8 / 4, 8 / 4)
    assert_eq!(q.get_point(1, 2), HPoint { x: 8, y: 8, w: 4 });
    let l = Bezier::new(pts(&[(0, 0), (10, 20)]));
    assert_eq!(l.get_point(1, 4), HPoint { x: 10, y: 20, w: 4 });
    let single = Bezier::new(pts(&[(5, 6)]));
    assert_eq!(single.get_point(1, 3), HPoint { x: 5, y: 6, w: 1 });
}

#[test]
fn flatten_samples_resolution_plus_one_points() {
    let c = Bezier::new(arch());
    let f = c.flatten(25);
    assert_eq!(f.len(), 26);
    assert_eq!(f[0], HPoint { x: 0, y: 0, w: 15625 });
    assert_eq!(f[25], HPoint { x: 15625, y: 0, w: 15625 });
    let g = Bezier3::new(arch()).unwrap().flatten(2);
    assert_eq!(g, vec![
        HPoint { x: 0, y: 0, w: 8 },
        HPoint { x: 4, y: 6, w: 8 },
        HPoint { x: 8, y: 0, w: 8 },
    ]);
}

#[test]
fn square_hull_order_is_fixed() {
    let p = pts(&[(0, 0), (1, 0), (1, 1), (0, 1)]);
    let c = Bezier::new(p.clone());
    let first = hull_indices(&p);
    assert_eq!(first, vec![0, 1, 3, 2]);
    assert_eq!(hull_indices(&p), first);
    assert_eq!(c.convex_hull(), pts(&[(0, 0), (1, 0), (0, 1), (1, 1)]));
}

#[test]
fn hull_is_a_permutation() {
    let p = pts(&[(4, 4), (0, 3), (2, -1), (0, 0), (5, 1), (2, 2)]);
    let mut idx = hull_indices(&p);
    assert_eq!(idx[0], 3);
    idx.sort();
    assert_eq!(idx, vec![0, 1, 2, 3, 4, 5]);
}

#[test]
fn hull_follows_greatest_angle() {
    // from (0,0): atan2(dx, dy) is largest for (2, -1)
    let p = pts(&[(0, 0), (1, 1), (2, -1), (1, 3)]);
    assert_eq!(hull_indices(&p), vec![0, 2, 3, 1]);
}

#[test]
fn derivatives_of_the_arch() {
    let c = Bezier3::new(arch()).unwrap();
    // P'(1/2) = (1.5, 0), P''(1/2) = (0, -6)
    assert_eq!(c.first_derivative(1, 2), Deriv { x: 6, y: 0, w: 4 });
    assert_eq!(c.tangent(1, 2), Deriv { x: 6, y: 0, w: 4 });
    assert_eq!(c.second_derivative(1, 2), Deriv { x: 0, y: -12, w: 2 });
    // the tangent at t = 0 is 3 (p[1] - p[0])
    assert_eq!(c.first_derivative(0, 1), Deriv { x: 0, y: 3, w: 1 });
    let g = Bezier::new(arch());
    assert_eq!(g.first_derivative(1, 2), Ok(Deriv { x: 6, y: 0, w: 4 }));
    assert_eq!(g.second_derivative(1, 2), Ok(Deriv { x: 0, y: -12, w: 2 }));
}

#[test]
fn curvature_of_the_arch() {
    let c = Bezier3::new(arch()).unwrap();
    // kappa = m^3 * cross / |d1|^3 = 8 * 72 / 216 = 8 / 3
    let k = c.curvature(1, 2).unwrap();
    assert_eq!(k, Curvature { cross: 72, d1: Vec2::new(6, 0), m: 2 });
    let g = Bezier::new(arch());
    assert_eq!(g.curvature(1, 2), Ok(k));
}

#[test]
fn curvature_undefined_where_speed_vanishes() {
    let c = Bezier3::new(pts(&[(0, 0), (0, 0), (1, 1), (2, 0)])).unwrap();
    assert_eq!(c.curvature(0, 1), Err(CurveError::DegenerateGeometry));
}

#[test]
fn cubic_operations_refuse_other_degrees() {
    let q = Bezier::new(pts(&[(0, 0), (2, 4), (4, 0)]));
    assert_eq!(q.first_derivative(0, 1), Err(CurveError::DegreeMismatch));
    assert_eq!(q.second_derivative(0, 1), Err(CurveError::DegreeMismatch));
    assert_eq!(q.curvature(0, 1), Err(CurveError::DegreeMismatch));
    assert_eq!(Bezier3::new(pts(&[(0, 0), (2, 4), (4, 0)])).err(), Some(CurveError::DegreeMismatch));
}

#[test]
fn tiller_refuses_coincident_middle_points() {
    let c = Bezier3::new(pts(&[(0, 0), (1, 1), (1, 1), (2, 0)])).unwrap();
    assert_eq!(c.check_offset_tiller(), Err(CurveError::DegenerateGeometry));
    let ok = Bezier3::new(arch()).unwrap();
    assert_eq!(ok.check_offset_tiller(), Ok(()));
    let straight = Bezier3::new(pts(&[(0, 0), (1, 0), (2, 0), (3, 0)])).unwrap();
    assert_eq!(straight.check_offset_tiller(), Err(CurveError::DegenerateGeometry));
}

#[test]
fn klass_needs_end_tangents() {
    let c = Bezier3::new(pts(&[(0, 0), (0, 0), (1, 1), (2, 0)])).unwrap();
    assert_eq!(c.check_offset_klass(), Err(CurveError::DegenerateGeometry));
    let ok = Bezier3::new(arch()).unwrap();
    assert_eq!(ok.check_offset_klass(), Ok(()));
}

#[test]
fn levien_frame_puts_ends_at_origin_and_unit() {
    let c = Bezier3::new(pts(&[(0, 0), (1, 1), (2, 1), (2, 0)])).unwrap();
    let q = c.offset_levien().unwrap();
    assert_eq!(q[0], HPoint { x: 0, y: 0, w: 4 });
    assert_eq!(q[1], HPoint { x: 2, y: 2, w: 4 });
    assert_eq!(q[3], HPoint { x: 4, y: 0, w: 4 });
    let turned = Bezier3::new(pts(&[(1, 1), (1, 2), (0, 3), (1, 4)])).unwrap();
    let r = turned.offset_levien().unwrap();
    assert_eq!(r[3], HPoint { x: 9, y: 0, w: 9 });
    assert_eq!(r[1], HPoint { x: 3, y: 0, w: 9 });
    let closed = Bezier3::new(pts(&[(1, 1), (1, 2), (0, 3), (1, 1)])).unwrap();
    assert_eq!(closed.offset_levien(), Err(CurveError::DegenerateGeometry));
}

#[test]
fn endpoint_normals_are_quarter_turns_of_end_edges() {
    let c = Bezier3::new(arch()).unwrap();
    let (n0, n3) = c.endpoint_normals().unwrap();
    assert_eq!(n0, UnitVec { v: Vec2::new(-1, 0), len_sq: 1 });
    assert_eq!(n3, UnitVec { v: Vec2::new(1, 0), len_sq: 1 });
    let d = Bezier3::new(pts(&[(0, 0), (3, 4), (5, 5), (5, 5)])).unwrap();
    assert_eq!(d.endpoint_normals(), Err(CurveError::DegenerateGeometry));
    let e = Bezier3::new(pts(&[(0, 0), (3, 4), (5, 5), (6, 7)])).unwrap();
    assert_eq!(e.endpoint_normals().unwrap().0, UnitVec { v: Vec2::new(-4, 3), len_sq: 25 });
}

#[test]
fn bounding_box_of_control_points() {
    let c = Bezier3::new(pts(&[(3, -5), (10, 40), (-7, 2), (9, 11)])).unwrap();
    assert_eq!(c.bounding_box(), [-7, -5, 10, 40]);
    let a = Bezier3::new(arch()).unwrap();
    assert_eq!(a.bounding_box(), [0, 0, 1, 1]);
}

#[test]
fn large_non_cubic_curves_only_report_degree() {
    let q = Bezier::new(pts(&[(i64::MAX, 0), (0, i64::MIN), (5, 5)]));
    assert_eq!(q.first_derivative(3, 1 << 40), Err(CurveError::DegreeMismatch));
    assert_eq!(q.curvature(3, 1 << 40), Err(CurveError::DegreeMismatch));
    let c = Bezier3::new(arch()).unwrap();
    assert_eq!(c.control_points(), &arch());
}

#[test]
fn hull_accepts_extreme_coordinates() {
    let p = pts(&[(i64::MAX, i64::MIN), (i64::MIN, i64::MAX), (0, 0), (i64::MIN, i64::MIN)]);
    // start at the least x, then least y: index 3; from there every offset
    // has dx >= 0 and the greatest angle goes to (MAX, MIN)
    assert_eq!(hull_indices(&p), vec![3, 0, 2, 1]);
}
