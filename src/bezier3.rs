use vstd::prelude::*;
use crate::bezier::{eval_point, flatten_points, param_ok, point_at, HPoint};
use crate::cubic::{
    edge, check_klass, check_tiller, cross_int, cubic_coord_ok, cubic_ok, curvature_at, deriv_param_ok,
    first_derivative_at, first_derivative_spec, klass_degenerate, second_derivative_at,
    second_derivative_spec, tiller_degenerate, Curvature, Deriv,
};
use crate::error::CurveError;
use crate::vec2::{lemma_mul_bound, UnitVec, Vec2};

verus! {

/// A cubic Bézier curve: exactly four control points.
#[derive(Debug)]
pub struct Bezier3 {
    control_points: Vec<Vec2<i64>>,
}

impl View for Bezier3 {
    type V = Seq<Vec2<i64>>;

    /// The control points.
    closed spec fn view(&self) -> Seq<Vec2<i64>> {
        self.control_points@
    }
}

/// The similarity that puts the start of the curve at the origin and its end
/// at `(1, 0)`, applied to control point `i`, in homogeneous form: with
/// `L = p[3] - p[0]` and `v = p[i] - p[0]` it is `(L·v, cross(L, v)) / |L|²`.
pub open spec fn normalized_point(p: Seq<Vec2<i64>>, i: int) -> (int, int, int) {
    let lx = p[3].x - p[0].x;
    let ly = p[3].y - p[0].y;
    let vx = p[i].x - p[0].x;
    let vy = p[i].y - p[0].y;
    (lx * vx + ly * vy, lx * vy - ly * vx, lx * lx + ly * ly)
}

impl Bezier3 {
    /// Four control points with coordinates in the range of `i32`.
    #[verifier::type_invariant]
    spec fn wf(&self) -> bool {
        cubic_ok(self.control_points@)
    }

    /// The control points: always four, with coordinates in range.
    pub fn control_points(&self) -> (r: &Vec<Vec2<i64>>)
        ensures
            r@ == self@,
            cubic_ok(self@),
    {
        proof {
            use_type_invariant(self);
        }
        &self.control_points
    }

    /// A cubic from its control points; any other count is refused.
    pub fn new(points: Vec<Vec2<i64>>) -> (r: Result<Self, CurveError>)
        requires
            points.len() == 4 ==> forall|i: int|
                0 <= i < points.len() ==> cubic_coord_ok(#[trigger] points[i]),
        ensures
            points.len() != 4 <==> r matches Err(CurveError::DegreeMismatch),
            points.len() == 4 ==> (r matches Ok(c) && c@ == points@),
    {
        if points.len() != 4 {
            Err(CurveError::DegreeMismatch)
        } else {
            Ok(Bezier3 { control_points: points })
        }
    }

    /// The point at `t = k / m` in homogeneous form, weight `m³`.
    pub fn get_point(&self, k: u64, m: u64) -> (r: HPoint)
        requires
            param_ok(k as int, m as int, 3),
        ensures
            point_at(r, self@, k as int, m as int),
    {
        proof {
            use_type_invariant(self);
        }
        eval_point(&self.control_points, k, m)
    }

    /// `resolution + 1` evenly spaced samples from `t = 0` to `t = 1`.
    pub fn flatten(&self, resolution: u64) -> (r: Vec<HPoint>)
        requires
            param_ok(0, resolution as int, 3),
            resolution < u64::MAX,
        ensures
            r.len() == resolution + 1,
            forall|s: int|
                0 <= s <= resolution ==> point_at(#[trigger] r[s], self@, s, resolution as int),
    {
        proof {
            use_type_invariant(self);
        }
        flatten_points(&self.control_points, resolution)
    }

    /// `P'(k / m)` scaled by `m²`.
    pub fn first_derivative(&self, k: u64, m: u64) -> (r: Deriv)
        requires
            deriv_param_ok(k as int, m as int),
        ensures
            r.x == first_derivative_spec(self@, k as int, m as int).x,
            r.y == first_derivative_spec(self@, k as int, m as int).y,
            r.w == m * m,
    {
        proof {
            use_type_invariant(self);
        }
        first_derivative_at(&self.control_points, k as i64, m as i64)
    }

    /// `P''(k / m)` scaled by `m`.
    pub fn second_derivative(&self, k: u64, m: u64) -> (r: Deriv)
        requires
            deriv_param_ok(k as int, m as int),
        ensures
            r.x == second_derivative_spec(self@, k as int, m as int).x,
            r.y == second_derivative_spec(self@, k as int, m as int).y,
            r.w == m,
    {
        proof {
            use_type_invariant(self);
        }
        second_derivative_at(&self.control_points, k as i64, m as i64)
    }

    /// The tangent is the first derivative, not normalised.
    pub fn tangent(&self, k: u64, m: u64) -> (r: Deriv)
        requires
            deriv_param_ok(k as int, m as int),
        ensures
            r.x == first_derivative_spec(self@, k as int, m as int).x,
            r.y == first_derivative_spec(self@, k as int, m as int).y,
            r.w == m * m,
    {
        proof {
            use_type_invariant(self);
        }
        self.first_derivative(k, m)
    }

    /// Curvature at `k / m` in exact form (see `Curvature`).
    pub fn curvature(&self, k: u64, m: u64) -> (r: Result<Curvature, CurveError>)
        requires
            deriv_param_ok(k as int, m as int),
        ensures
            ({
                let d1 = first_derivative_spec(self@, k as int, m as int);
                let d2 = second_derivative_spec(self@, k as int, m as int);
                &&& (d1.x == 0 && d1.y == 0) <==> r == Err::<Curvature, CurveError>(
                    CurveError::DegenerateGeometry,
                )
                &&& !(d1.x == 0 && d1.y == 0) ==> (r matches Ok(c) && c.cross == cross_int(d2, d1)
                    && c.d1.x == d1.x && c.d1.y == d1.y && c.m == m)
            }),
    {
        proof {
            use_type_invariant(self);
        }
        curvature_at(&self.control_points, k as i64, m as i64)
    }

    /// The axis-aligned box `[x_min, y_min, x_max, y_max]` of the control
    /// points.
    pub fn bounding_box(&self) -> (r: [i64; 4])
        ensures
            forall|i: int|
                0 <= i < 4 ==> r[0] <= #[trigger] self@[i].x <= r[2]
                    && r[1] <= self@[i].y <= r[3],
            exists|i: int| 0 <= i < 4 && r[0] == #[trigger] self@[i].x,
            exists|i: int| 0 <= i < 4 && r[1] == #[trigger] self@[i].y,
            exists|i: int| 0 <= i < 4 && r[2] == #[trigger] self@[i].x,
            exists|i: int| 0 <= i < 4 && r[3] == #[trigger] self@[i].y,
    {
        proof {
            use_type_invariant(self);
        }
        let p = &self.control_points;
        let mut x_min = p[0].x;
        let mut y_min = p[0].y;
        let mut x_max = p[3].x;
        let mut y_max = p[3].y;
        let ghost (mut a, mut b, mut c, mut d): (int, int, int, int) = (0, 0, 3, 3);
        let mut i: usize = 0;
        while i < 4
            invariant
                i <= 4,
                p.len() == 4,
                0 <= a < 4 && x_min == p[a].x,
                0 <= b < 4 && y_min == p[b].y,
                0 <= c < 4 && x_max == p[c].x,
                0 <= d < 4 && y_max == p[d].y,
                x_min <= p[0].x && y_min <= p[0].y && p[3].x <= x_max && p[3].y <= y_max,
                forall|j: int|
                    0 <= j < i ==> x_min <= #[trigger] p[j].x <= x_max && y_min <= p[j].y <= y_max,
            decreases 4 - i,
        {
            if p[i].x < x_min {
                x_min = p[i].x;
                proof { a = i as int; }
            }
            if p[i].x > x_max {
                x_max = p[i].x;
                proof { c = i as int; }
            }
            if p[i].y < y_min {
                y_min = p[i].y;
                proof { b = i as int; }
            }
            if p[i].y > y_max {
                y_max = p[i].y;
                proof { d = i as int; }
            }
            i = i + 1;
        }
        proof {
            assert(x_min == self@[a].x);
            assert(y_min == self@[b].y);
            assert(x_max == self@[c].x);
            assert(y_max == self@[d].y);
        }
        [x_min, y_min, x_max, y_max]
    }

    /// Whether the Tiller–Hanson offset exists: it does not where two
    /// consecutive control-polygon edges are parallel or of length zero.
    pub fn check_offset_tiller(&self) -> (r: Result<(), CurveError>)
        ensures
            tiller_degenerate(self@) <==> r == Err::<(), CurveError>(
                CurveError::DegenerateGeometry,
            ),
            !tiller_degenerate(self@) <==> r == Ok::<(), CurveError>(()),
    {
        proof {
            use_type_invariant(self);
        }
        check_tiller(&self.control_points)
    }

    /// Whether the Hermite-form offset has nonzero tangents at both ends.
    pub fn check_offset_klass(&self) -> (r: Result<(), CurveError>)
        ensures
            klass_degenerate(self@) <==> r == Err::<(), CurveError>(
                CurveError::DegenerateGeometry,
            ),
            !klass_degenerate(self@) <==> r == Ok::<(), CurveError>(()),
    {
        proof {
            use_type_invariant(self);
        }
        check_klass(&self.control_points)
    }

    /// Unit normals at both ends in exact form (see `UnitVec`): each end
    /// point of an offset curve lies at `d` times this normal from the end
    /// point of the curve. The normal at the start is the first edge turned a
    /// quarter turn counter-clockwise, the one at the end the last edge so
    /// turned; a zero end edge has no normal.
    pub fn endpoint_normals(&self) -> (r: Result<(UnitVec, UnitVec), CurveError>)
        ensures
            klass_degenerate(self@) <==> r == Err::<(UnitVec, UnitVec), CurveError>(
                CurveError::DegenerateGeometry,
            ),
            !klass_degenerate(self@) ==> (r matches Ok((n0, n3)) && is_unit_normal(
                n0,
                edge(self@, 0),
            ) && is_unit_normal(n3, edge(self@, 2))),
    {
        proof {
            use_type_invariant(self);
        }
        let p = &self.control_points;
        let e0 = p[1] - p[0];
        let e2 = p[3] - p[2];
        match (e0.normal().normalize(), e2.normal().normalize()) {
            (Ok(n0), Ok(n3)) => {
                proof {
                    lemma_normal_perpendicular(e0@);
                    lemma_normal_perpendicular(e2@);
                }
                Ok((n0, n3))
            },
            _ => Err(CurveError::DegenerateGeometry),
        }
    }

    /// The first stage of the quadrature-based offset: the curve moved, turned
    /// and scaled so that it starts at the origin and ends at `(1, 0)`, in
    /// exact homogeneous form. The fitting stage that would follow is not
    /// part of this library; a curve whose ends coincide cannot be placed.
    pub fn offset_levien(&self) -> (r: Result<Vec<HPoint>, CurveError>)
        ensures
            (self@[3] == self@[0]) <==> r == Err::<
                Vec<HPoint>,
                CurveError,
            >(CurveError::DegenerateGeometry),
            self@[3] != self@[0] ==> (r matches Ok(q) && q.len() == 4
                && q[0].x == 0 && q[0].y == 0 && q[3].x == q[3].w && q[3].y == 0 && q[3].w > 0
                && (forall|i: int|
                0 <= i < 4 ==> (#[trigger] q[i]).x == normalized_point(self@, i).0
                    && q[i].y == normalized_point(self@, i).1 && q[i].w
                    == normalized_point(self@, i).2)),
    {
        proof {
            use_type_invariant(self);
        }
        proof {
            lemma_levien_frame(self@);
        }
        let p = &self.control_points;
        let lx = p[3].x as i128 - p[0].x as i128;
        let ly = p[3].y as i128 - p[0].y as i128;
        if lx == 0 && ly == 0 {
            return Err(CurveError::DegenerateGeometry);
        }
        proof {
            assert(self@[3] != self@[0]);
            assert(lx * lx + ly * ly > 0) by (nonlinear_arith)
                requires lx != 0 || ly != 0;
        }
        let mut out: Vec<HPoint> = Vec::new();
        let mut i: usize = 0;
        while i < 4
            invariant
                i <= 4,
                p == &self.control_points,
                cubic_ok(p@),
                lx == p[3].x - p[0].x,
                ly == p[3].y - p[0].y,
                out.len() == i,
                forall|j: int|
                    0 <= j < i ==> (#[trigger] out[j]).x == normalized_point(p@, j).0 && out[j].y
                        == normalized_point(p@, j).1 && out[j].w == normalized_point(p@, j).2,
            decreases 4 - i,
        {
            let vx = p[i].x as i128 - p[0].x as i128;
            let vy = p[i].y as i128 - p[0].y as i128;
            proof {
                lemma_mul_bound(lx as int, vx as int, 0x1_0000_0000, 0x1_0000_0000);
                lemma_mul_bound(ly as int, vy as int, 0x1_0000_0000, 0x1_0000_0000);
                lemma_mul_bound(lx as int, vy as int, 0x1_0000_0000, 0x1_0000_0000);
                lemma_mul_bound(ly as int, vx as int, 0x1_0000_0000, 0x1_0000_0000);
                lemma_mul_bound(lx as int, lx as int, 0x1_0000_0000, 0x1_0000_0000);
                lemma_mul_bound(ly as int, ly as int, 0x1_0000_0000, 0x1_0000_0000);
            }
            out.push(HPoint { x: lx * vx + ly * vy, y: lx * vy - ly * vx, w: lx * lx + ly * ly });
            i = i + 1;
        }
        Ok(out)
    }
}

/// `n` is, in exact form, a unit vector perpendicular to the nonzero
/// direction `e`, turned counter-clockwise from it: `n.v = (-e.y, e.x)`, so
/// `n.v · e == 0` and `|n.v|² == |e|² == n.len_sq`.
pub open spec fn is_unit_normal(n: UnitVec, e: Vec2<int>) -> bool {
    &&& n.v.x == -e.y
    &&& n.v.y == e.x
    &&& n.v.x * e.x + n.v.y * e.y == 0
    &&& n.len_sq == e.x * e.x + e.y * e.y
    &&& n.len_sq > 0
}

/// The quarter-turned vector is perpendicular to the original and has its
/// length.
pub proof fn lemma_normal_perpendicular(e: Vec2<int>)
    ensures
        (-e.y) * e.x + e.x * e.y == 0,
        (-e.y) * (-e.y) + e.x * e.x == e.x * e.x + e.y * e.y,
{
    assert((-e.y) * e.x + e.x * e.y == 0) by (nonlinear_arith);
    assert((-e.y) * (-e.y) == e.y * e.y) by (nonlinear_arith);
}

/// The normalising similarity sends the first control point to the origin
/// and the last to `(1, 0)`: in homogeneous form `(0, 0)` and `(w, 0)`.
pub proof fn lemma_levien_frame(p: Seq<Vec2<i64>>)
    requires
        p.len() == 4,
    ensures
        normalized_point(p, 0).0 == 0,
        normalized_point(p, 0).1 == 0,
        normalized_point(p, 3).0 == normalized_point(p, 3).2,
        normalized_point(p, 3).1 == 0,
{
    let lx = p[3].x - p[0].x;
    let ly = p[3].y - p[0].y;
    assert(lx * ly - ly * lx == 0) by (nonlinear_arith);
}

} // verus!
