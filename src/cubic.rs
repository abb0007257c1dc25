use vstd::prelude::*;
use crate::error::CurveError;
use crate::vec2::{lemma_mul_bound, Vec2};

verus! {

/// Coordinates taken in by the cubic differential operations: the range of
/// `i32`, so that derivatives and their cross product are exact in `i128`.
pub open spec fn cubic_coord_ok(v: Vec2<i64>) -> bool {
    -0x8000_0000 <= v.x <= 0x7FFF_FFFF && -0x8000_0000 <= v.y <= 0x7FFF_FFFF
}

/// Four control points, all in range.
pub open spec fn cubic_ok(p: Seq<Vec2<i64>>) -> bool {
    p.len() == 4 && cubic_coord_ok(p[0]) && cubic_coord_ok(p[1]) && cubic_coord_ok(p[2])
        && cubic_coord_ok(p[3])
}

/// A parameter `t = k / m` in `[0, 1]` with `m <= 2^16`.
pub open spec fn deriv_param_ok(k: int, m: int) -> bool {
    0 <= k <= m && 0 < m <= 0x1_0000
}

/// `P'(t) · m²` for one coordinate, `t = k / m`:
/// `3 (m-k)² (c1-c0) + 6 (m-k) k (c2-c1) + 3 k² (c3-c2)`.
pub open spec fn d1_spec(c0: int, c1: int, c2: int, c3: int, k: int, m: int) -> int {
    3 * ((m - k) * (m - k) * (c1 - c0) + 2 * ((m - k) * k * (c2 - c1)) + k * k * (c3 - c2))
}

/// `P''(t) · m` for one coordinate, `t = k / m`:
/// `6 (m-k) (c2 - 2 c1 + c0) + 6 k (c3 - 2 c2 + c1)`.
pub open spec fn d2_spec(c0: int, c1: int, c2: int, c3: int, k: int, m: int) -> int {
    6 * ((m - k) * (c2 - 2 * c1 + c0) + k * (c3 - 2 * c2 + c1))
}

/// First derivative, scaled by `m²`.
pub open spec fn first_derivative_spec(p: Seq<Vec2<i64>>, k: int, m: int) -> Vec2<int> {
    Vec2 {
        x: d1_spec(p[0].x as int, p[1].x as int, p[2].x as int, p[3].x as int, k, m),
        y: d1_spec(p[0].y as int, p[1].y as int, p[2].y as int, p[3].y as int, k, m),
    }
}

/// Second derivative, scaled by `m`.
pub open spec fn second_derivative_spec(p: Seq<Vec2<i64>>, k: int, m: int) -> Vec2<int> {
    Vec2 {
        x: d2_spec(p[0].x as int, p[1].x as int, p[2].x as int, p[3].x as int, k, m),
        y: d2_spec(p[0].y as int, p[1].y as int, p[2].y as int, p[3].y as int, k, m),
    }
}

/// Cross product of two integer vectors.
pub open spec fn cross_int(a: Vec2<int>, b: Vec2<int>) -> int {
    a.x * b.y - a.y * b.x
}

/// A derivative in homogeneous form: it stands for `(x / w, y / w)`.
#[derive(Clone, Copy, Debug, PartialEq, Eq, Structural)]
pub struct Deriv {
    pub x: i128,
    pub y: i128,
    pub w: i128,
}

/// Curvature in exact form: `κ = m³ · cross / |d1|³`, where `d1` is the first
/// derivative scaled by `m²` and `cross` is `cross(P'' · m, P' · m²)`.
#[derive(Clone, Copy, Debug, PartialEq, Eq, Structural)]
pub struct Curvature {
    pub cross: i128,
    pub d1: Vec2<i128>,
    pub m: i128,
}

/// Weights of the derivative formula: each of `(m-k)²`, `(m-k) k`, `k²` and
/// `m-k`, `k` lies in `[0, 2^32]`.
proof fn lemma_weights(k: int, m: int)
    requires
        deriv_param_ok(k, m),
    ensures
        0 <= (m - k) * (m - k) <= 0x1_0000_0000,
        0 <= (m - k) * k <= 0x1_0000_0000,
        0 <= k * k <= 0x1_0000_0000,
{
    assert(0 <= (m - k) * (m - k) <= 0x1_0000_0000) by (nonlinear_arith)
        requires 0 <= m - k <= 0x1_0000;
    assert(0 <= (m - k) * k <= 0x1_0000_0000) by (nonlinear_arith)
        requires 0 <= m - k <= 0x1_0000, 0 <= k <= 0x1_0000;
    assert(0 <= k * k <= 0x1_0000_0000) by (nonlinear_arith)
        requires 0 <= k <= 0x1_0000;
}

/// One coordinate of the first derivative, exact.
fn d1_coord(c0: i64, c1: i64, c2: i64, c3: i64, k: i64, m: i64) -> (r: i128)
    requires
        -0x8000_0000 <= c0 <= 0x7FFF_FFFF,
        -0x8000_0000 <= c1 <= 0x7FFF_FFFF,
        -0x8000_0000 <= c2 <= 0x7FFF_FFFF,
        -0x8000_0000 <= c3 <= 0x7FFF_FFFF,
        deriv_param_ok(k as int, m as int),
    ensures
        r == d1_spec(c0 as int, c1 as int, c2 as int, c3 as int, k as int, m as int),
        -0x10_0000_0000_0000_0000 <= r <= 0x10_0000_0000_0000_0000,
{
    let u = (m - k) as i128;
    let k = k as i128;
    let e0 = c1 as i128 - c0 as i128;
    let e1 = c2 as i128 - c1 as i128;
    let e2 = c3 as i128 - c2 as i128;
    proof {
        lemma_weights(k as int, m as int);
    }
    let w0 = u * u;
    let w1 = u * k;
    let w2 = k * k;
    proof {
        lemma_mul_bound(w0 as int, e0 as int, 0x1_0000_0000, 0x1_0000_0000);
        lemma_mul_bound(w1 as int, e1 as int, 0x1_0000_0000, 0x1_0000_0000);
        lemma_mul_bound(w2 as int, e2 as int, 0x1_0000_0000, 0x1_0000_0000);
    }
    let t0 = w0 * e0;
    let t1 = w1 * e1;
    let t2 = w2 * e2;
    3 * (t0 + 2 * t1 + t2)
}

/// One coordinate of the second derivative, exact.
fn d2_coord(c0: i64, c1: i64, c2: i64, c3: i64, k: i64, m: i64) -> (r: i128)
    requires
        -0x8000_0000 <= c0 <= 0x7FFF_FFFF,
        -0x8000_0000 <= c1 <= 0x7FFF_FFFF,
        -0x8000_0000 <= c2 <= 0x7FFF_FFFF,
        -0x8000_0000 <= c3 <= 0x7FFF_FFFF,
        deriv_param_ok(k as int, m as int),
    ensures
        r == d2_spec(c0 as int, c1 as int, c2 as int, c3 as int, k as int, m as int),
        -0x40_0000_0000_0000 <= r <= 0x40_0000_0000_0000,
{
    let u = (m - k) as i128;
    let k = k as i128;
    let s0 = c2 as i128 - 2 * (c1 as i128) + c0 as i128;
    let s1 = c3 as i128 - 2 * (c2 as i128) + c1 as i128;
    proof {
        lemma_mul_bound(u as int, s0 as int, 0x1_0000, 0x2_0000_0000);
        lemma_mul_bound(k as int, s1 as int, 0x1_0000, 0x2_0000_0000);
    }
    6 * (u * s0 + k * s1)
}

/// `P'(k / m)`, in homogeneous form with weight `m²`.
pub fn first_derivative_at(p: &Vec<Vec2<i64>>, k: i64, m: i64) -> (r: Deriv)
    requires
        cubic_ok(p@),
        deriv_param_ok(k as int, m as int),
    ensures
        r.x == first_derivative_spec(p@, k as int, m as int).x,
        r.y == first_derivative_spec(p@, k as int, m as int).y,
        r.w == m * m,
        -0x10_0000_0000_0000_0000 <= r.x <= 0x10_0000_0000_0000_0000,
        -0x10_0000_0000_0000_0000 <= r.y <= 0x10_0000_0000_0000_0000,
{
    proof {
        assert(m * m <= 0x1_0000_0000) by (nonlinear_arith)
            requires 0 < m <= 0x1_0000;
    }
    let x = d1_coord(p[0].x, p[1].x, p[2].x, p[3].x, k, m);
    let y = d1_coord(p[0].y, p[1].y, p[2].y, p[3].y, k, m);
    Deriv { x, y, w: (m as i128) * (m as i128) }
}

/// `P''(k / m)`, in homogeneous form with weight `m`.
pub fn second_derivative_at(p: &Vec<Vec2<i64>>, k: i64, m: i64) -> (r: Deriv)
    requires
        cubic_ok(p@),
        deriv_param_ok(k as int, m as int),
    ensures
        r.x == second_derivative_spec(p@, k as int, m as int).x,
        r.y == second_derivative_spec(p@, k as int, m as int).y,
        r.w == m,
        -0x40_0000_0000_0000 <= r.x <= 0x40_0000_0000_0000,
        -0x40_0000_0000_0000 <= r.y <= 0x40_0000_0000_0000,
{
    let x = d2_coord(p[0].x, p[1].x, p[2].x, p[3].x, k, m);
    let y = d2_coord(p[0].y, p[1].y, p[2].y, p[3].y, k, m);
    Deriv { x, y, w: m as i128 }
}

/// Curvature at `k / m` in exact form; undefined where the first derivative
/// vanishes.
pub fn curvature_at(p: &Vec<Vec2<i64>>, k: i64, m: i64) -> (r: Result<Curvature, CurveError>)
    requires
        cubic_ok(p@),
        deriv_param_ok(k as int, m as int),
    ensures
        ({
            let d1 = first_derivative_spec(p@, k as int, m as int);
            let d2 = second_derivative_spec(p@, k as int, m as int);
            &&& (d1.x == 0 && d1.y == 0) <==> r == Err::<Curvature, CurveError>(
                CurveError::DegenerateGeometry,
            )
            &&& !(d1.x == 0 && d1.y == 0) ==> (r matches Ok(c) && c.cross == cross_int(d2, d1)
                && c.d1.x == d1.x && c.d1.y == d1.y && c.m == m)
        }),
{
    let d1 = first_derivative_at(p, k, m);
    let d2 = second_derivative_at(p, k, m);
    if d1.x == 0 && d1.y == 0 {
        return Err(CurveError::DegenerateGeometry);
    }
    proof {
        lemma_mul_bound(d2.x as int, d1.y as int, 0x40_0000_0000_0000, 0x10_0000_0000_0000_0000);
        lemma_mul_bound(d2.y as int, d1.x as int, 0x40_0000_0000_0000, 0x10_0000_0000_0000_0000);
    }
    let cross = d2.x * d1.y - d2.y * d1.x;
    Ok(Curvature { cross, d1: Vec2 { x: d1.x, y: d1.y }, m: m as i128 })
}

/// Edge `i` of the control polygon: `p[i + 1] - p[i]`.
pub open spec fn edge(p: Seq<Vec2<i64>>, i: int) -> Vec2<int> {
    Vec2 { x: p[i + 1].x - p[i].x, y: p[i + 1].y - p[i].y }
}

/// The Tiller–Hanson construction fails exactly where two consecutive edges
/// are parallel (or one of them has length zero): the offset lines through
/// them then have no single intersection, their determinant being
/// `-cross(e_i, e_{i+1})` whatever the distance.
pub open spec fn tiller_degenerate(p: Seq<Vec2<i64>>) -> bool {
    cross_int(edge(p, 0), edge(p, 1)) == 0 || cross_int(edge(p, 1), edge(p, 2)) == 0
}

/// The Hermite-form construction needs a nonzero tangent at both ends.
pub open spec fn klass_degenerate(p: Seq<Vec2<i64>>) -> bool {
    (edge(p, 0).x == 0 && edge(p, 0).y == 0) || (edge(p, 2).x == 0 && edge(p, 2).y == 0)
}

fn edge_at(p: &Vec<Vec2<i64>>, i: usize) -> (r: Vec2<i128>)
    requires
        cubic_ok(p@),
        i < 3,
    ensures
        r.x == edge(p@, i as int).x,
        r.y == edge(p@, i as int).y,
        -0x1_0000_0000 <= r.x <= 0x1_0000_0000,
        -0x1_0000_0000 <= r.y <= 0x1_0000_0000,
{
    Vec2 { x: p[i + 1].x as i128 - p[i].x as i128, y: p[i + 1].y as i128 - p[i].y as i128 }
}

fn edges_parallel(a: Vec2<i128>, b: Vec2<i128>) -> (r: bool)
    requires
        -0x1_0000_0000 <= a.x <= 0x1_0000_0000,
        -0x1_0000_0000 <= a.y <= 0x1_0000_0000,
        -0x1_0000_0000 <= b.x <= 0x1_0000_0000,
        -0x1_0000_0000 <= b.y <= 0x1_0000_0000,
    ensures
        r == (a.x * b.y - a.y * b.x == 0),
{
    proof {
        lemma_mul_bound(a.x as int, b.y as int, 0x1_0000_0000, 0x1_0000_0000);
        lemma_mul_bound(a.y as int, b.x as int, 0x1_0000_0000, 0x1_0000_0000);
    }
    a.x * b.y - a.y * b.x == 0
}

/// Whether the Tiller–Hanson offset of the curve exists.
pub fn check_tiller(p: &Vec<Vec2<i64>>) -> (r: Result<(), CurveError>)
    requires
        cubic_ok(p@),
    ensures
        tiller_degenerate(p@) <==> r == Err::<(), CurveError>(CurveError::DegenerateGeometry),
        !tiller_degenerate(p@) <==> r == Ok::<(), CurveError>(()),
{
    let e0 = edge_at(p, 0);
    let e1 = edge_at(p, 1);
    let e2 = edge_at(p, 2);
    if edges_parallel(e0, e1) || edges_parallel(e1, e2) {
        Err(CurveError::DegenerateGeometry)
    } else {
        Ok(())
    }
}

/// Whether the Hermite-form (curvature-matched) offset has the endpoint
/// tangents it needs.
pub fn check_klass(p: &Vec<Vec2<i64>>) -> (r: Result<(), CurveError>)
    requires
        cubic_ok(p@),
    ensures
        klass_degenerate(p@) <==> r == Err::<(), CurveError>(CurveError::DegenerateGeometry),
        !klass_degenerate(p@) <==> r == Ok::<(), CurveError>(()),
{
    let e0 = edge_at(p, 0);
    let e2 = edge_at(p, 2);
    if (e0.x == 0 && e0.y == 0) || (e2.x == 0 && e2.y == 0) {
        Err(CurveError::DegenerateGeometry)
    } else {
        Ok(())
    }
}

/// A curve whose two middle control points coincide has no Tiller–Hanson
/// offset.
pub proof fn lemma_coincident_middle_points_degenerate(p: Seq<Vec2<i64>>)
    requires
        p.len() == 4,
        p[1] == p[2],
    ensures
        tiller_degenerate(p),
{
    assert(edge(p, 1).x == 0 && edge(p, 1).y == 0);
    assert(cross_int(edge(p, 0), edge(p, 1)) == 0) by (nonlinear_arith)
        requires edge(p, 1).x == 0 && edge(p, 1).y == 0;
}

} // verus!
