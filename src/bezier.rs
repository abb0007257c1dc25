use vstd::arithmetic::power::{lemma_pow_positive, pow};
use vstd::prelude::*;
use crate::bernstein::{bernstein, lemma_blend_is_bernstein};
use crate::cubic::{
    cubic_ok, cross_int, curvature_at, deriv_param_ok, first_derivative_at,
    first_derivative_spec, second_derivative_at, second_derivative_spec, Curvature, Deriv,
};
use crate::error::CurveError;
use crate::hull::{hull_order, hull_points};
use crate::vec2::Vec2;

verus! {

/// Largest coordinate magnitude taken in by curve evaluation: `2^63`.
pub open spec fn coord_bound() -> int {
    0x8000_0000_0000_0000
}

/// A point in homogeneous form: it stands for `(x / w, y / w)`.
#[derive(Clone, Copy, Debug, PartialEq, Eq, Structural)]
pub struct HPoint {
    pub x: i128,
    pub y: i128,
    pub w: i128,
}

/// The x coordinates of a point list.
pub open spec fn xs(p: Seq<Vec2<i64>>) -> Seq<int> {
    Seq::new(p.len(), |i: int| p[i].x as int)
}

/// The y coordinates of a point list.
pub open spec fn ys(p: Seq<Vec2<i64>>) -> Seq<int> {
    Seq::new(p.len(), |i: int| p[i].y as int)
}

/// One coordinate of the Bézier curve with control values `c`, at parameter
/// `t = k / m`, multiplied by `m^(c.len() - 1)`. Written by the recurrence of
/// the Bernstein weights: the curve of `c` is the blend, with weights `1 - t`
/// and `t`, of the curves of `c` without its last and without its first value.
pub open spec fn blend(c: Seq<int>, k: int, m: int) -> int
    decreases c.len(),
{
    if c.len() == 0 {
        0
    } else if c.len() == 1 {
        c[0]
    } else {
        (m - k) * blend(c.drop_last(), k, m) + k * blend(c.subrange(1, c.len() as int), k, m)
    }
}

/// `r` is the curve point at `t = k / m`, in homogeneous form with weight
/// `m^degree`: each coordinate is the Bernstein sum
/// `Σ_i C(n, i) · k^i · (m - k)^(n - i) · P_i`.
pub open spec fn point_at(r: HPoint, p: Seq<Vec2<i64>>, k: int, m: int) -> bool {
    &&& r.x == bernstein(xs(p), k, m)
    &&& r.y == bernstein(ys(p), k, m)
    &&& r.w == pow(m, (p.len() - 1) as nat)
}

/// True when `t = k / m` lies in `[0, 1]` and the homogeneous results of a
/// curve with `n + 1` control points stay inside `i128`.
pub open spec fn param_ok(k: int, m: int, n: int) -> bool {
    0 <= k <= m && 0 < m && n >= 0 && pow(m, n as nat) <= coord_bound()
}

/// A Bézier curve of any degree: `p.len() - 1` is its degree.
#[derive(Clone, Debug)]
pub struct Bezier {
    pub p: Vec<Vec2<i64>>,
}

impl Bezier {
    /// A curve has at least one control point.
    pub open spec fn wf(&self) -> bool {
        self.p.len() >= 1
    }

    /// The degree: one less than the number of control points.
    pub open spec fn degree(&self) -> int {
        self.p.len() - 1
    }

    pub fn new(p: Vec<Vec2<i64>>) -> (r: Self)
        requires
            p.len() >= 1,
        ensures
            r.p@ == p@,
            r.wf(),
    {
        Bezier { p }
    }

    /// The point at `t = k / m`, as the Bernstein combination of the control
    /// points in homogeneous form: the result stands for `(x / w, y / w)` with
    /// `w = m^degree`.
    pub fn get_point(&self, k: u64, m: u64) -> (r: HPoint)
        requires
            self.wf(),
            param_ok(k as int, m as int, self.degree()),
        ensures
            point_at(r, self.p@, k as int, m as int),
    {
        eval_point(&self.p, k, m)
    }

    /// `resolution + 1` points at the evenly spaced parameters
    /// `0, 1/resolution, ..., 1`.
    pub fn flatten(&self, resolution: u64) -> (r: Vec<HPoint>)
        requires
            self.wf(),
            param_ok(0, resolution as int, self.degree()),
            resolution < u64::MAX,
        ensures
            r.len() == resolution + 1,
            forall|s: int| 0 <= s <= resolution ==> point_at(#[trigger] r[s], self.p@, s, resolution as int),
    {
        flatten_points(&self.p, resolution)
    }

    /// The control points in the order of the gift-wrapping walk described
    /// at `hull_indices`: a permutation of the control points.
    pub fn convex_hull(&self) -> (r: Vec<Vec2<i64>>)
        requires
            self.wf(),
        ensures
            r.len() == self.p.len(),
            forall|i: int|
                0 <= i < r.len() ==> #[trigger] r[i] == self.p[hull_order(self.p@)[i] as int],
    {
        hull_points(&self.p)
    }

    /// `P'(k / m)` of a cubic, scaled by `m²`; other degrees are refused.
    pub fn first_derivative(&self, k: u64, m: u64) -> (r: Result<Deriv, CurveError>)
        requires
            self.p.len() == 4 ==> cubic_ok(self.p@) && deriv_param_ok(k as int, m as int),
        ensures
            self.p.len() != 4 <==> r == Err::<Deriv, CurveError>(CurveError::DegreeMismatch),
            self.p.len() == 4 ==> (r matches Ok(d) && d.x == first_derivative_spec(
                self.p@,
                k as int,
                m as int,
            ).x && d.y == first_derivative_spec(self.p@, k as int, m as int).y && d.w == m * m),
    {
        if self.p.len() != 4 {
            return Err(CurveError::DegreeMismatch);
        }
        Ok(first_derivative_at(&self.p, k as i64, m as i64))
    }

    /// `P''(k / m)` of a cubic, scaled by `m`; other degrees are refused.
    pub fn second_derivative(&self, k: u64, m: u64) -> (r: Result<Deriv, CurveError>)
        requires
            self.p.len() == 4 ==> cubic_ok(self.p@) && deriv_param_ok(k as int, m as int),
        ensures
            self.p.len() != 4 <==> r == Err::<Deriv, CurveError>(CurveError::DegreeMismatch),
            self.p.len() == 4 ==> (r matches Ok(d) && d.x == second_derivative_spec(
                self.p@,
                k as int,
                m as int,
            ).x && d.y == second_derivative_spec(self.p@, k as int, m as int).y && d.w == m),
    {
        if self.p.len() != 4 {
            return Err(CurveError::DegreeMismatch);
        }
        Ok(second_derivative_at(&self.p, k as i64, m as i64))
    }

    /// Curvature of a cubic at `k / m` in exact form (see `Curvature`);
    /// other degrees are refused, and a vanishing first derivative leaves it
    /// undefined.
    pub fn curvature(&self, k: u64, m: u64) -> (r: Result<Curvature, CurveError>)
        requires
            self.p.len() == 4 ==> cubic_ok(self.p@) && deriv_param_ok(k as int, m as int),
        ensures
            self.p.len() != 4 <==> r == Err::<Curvature, CurveError>(CurveError::DegreeMismatch),
            self.p.len() == 4 ==> ({
                let d1 = first_derivative_spec(self.p@, k as int, m as int);
                let d2 = second_derivative_spec(self.p@, k as int, m as int);
                &&& (d1.x == 0 && d1.y == 0) <==> r == Err::<Curvature, CurveError>(
                    CurveError::DegenerateGeometry,
                )
                &&& !(d1.x == 0 && d1.y == 0) ==> (r matches Ok(c) && c.cross == cross_int(d2, d1)
                    && c.d1.x == d1.x && c.d1.y == d1.y && c.m == m)
            }),
    {
        if self.p.len() != 4 {
            return Err(CurveError::DegreeMismatch);
        }
        curvature_at(&self.p, k as i64, m as i64)
    }
}

/// Evaluates the curve with control points `p` at `t = k / m`.
pub fn eval_point(p: &Vec<Vec2<i64>>, k: u64, m: u64) -> (r: HPoint)
    requires
        p.len() >= 1,
        param_ok(k as int, m as int, p.len() - 1),
    ensures
        point_at(r, p@, k as int, m as int),
{
    let mut cx: Vec<i128> = Vec::new();
    let mut cy: Vec<i128> = Vec::new();
    let mut i: usize = 0;
    while i < p.len()
        invariant
            i <= p.len(),
            cx.len() == i,
            cy.len() == i,
            forall|j: int| 0 <= j < i ==> #[trigger] cx[j] == p[j].x,
            forall|j: int| 0 <= j < i ==> #[trigger] cy[j] == p[j].y,
        decreases p.len() - i,
    {
        cx.push(p[i].x as i128);
        cy.push(p[i].y as i128);
        i = i + 1;
    }
    proof {
        assert(cx@.map_values(|v: i128| v as int) =~= xs(p@));
        assert(cy@.map_values(|v: i128| v as int) =~= ys(p@));
    }
    let x = casteljau(cx, k as i128, m as i128);
    let y = casteljau(cy, k as i128, m as i128);
    proof {
        lemma_blend_is_bernstein(xs(p@), k as int, m as int);
        lemma_blend_is_bernstein(ys(p@), k as int, m as int);
    }
    let w = pow_u64(m, p.len() - 1);
    HPoint { x, y, w: w as i128 }
}

/// `m^e`, for a power known to stay within `2^63`.
fn pow_u64(m: u64, e: usize) -> (r: u64)
    requires
        0 < m,
        pow(m as int, e as nat) <= coord_bound(),
    ensures
        r == pow(m as int, e as nat),
{
    let mut r: u64 = 1;
    let mut i: usize = 0;
    proof {
        vstd::arithmetic::power::lemma_pow0(m as int);
    }
    while i < e
        invariant
            i <= e,
            0 < m,
            pow(m as int, e as nat) <= coord_bound(),
            r == pow(m as int, i as nat),
        decreases e - i,
    {
        proof {
            lemma_pow_step(m as int, i as nat);
            lemma_pow_mono(m as int, (i + 1) as nat, e as nat);
        }
        r = r * m;
        i = i + 1;
    }
    r
}

/// Samples the curve at `s / resolution` for `s` in `0..=resolution`.
pub fn flatten_points(p: &Vec<Vec2<i64>>, resolution: u64) -> (r: Vec<HPoint>)
    requires
        p.len() >= 1,
        param_ok(0, resolution as int, p.len() - 1),
        resolution < u64::MAX,
    ensures
        r.len() == resolution + 1,
        forall|s: int| 0 <= s <= resolution ==> point_at(#[trigger] r[s], p@, s, resolution as int),
{
    let mut out: Vec<HPoint> = Vec::new();
    let mut s: u64 = 0;
    while s <= resolution
        invariant
            s <= resolution + 1,
            resolution < u64::MAX,
            p.len() >= 1,
            param_ok(0, resolution as int, p.len() - 1),
            out.len() == s,
            forall|j: int| 0 <= j < s ==> point_at(#[trigger] out[j], p@, j, resolution as int),
        decreases resolution + 1 - s,
    {
        out.push(eval_point(p, s, resolution));
        s = s + 1;
    }
    out
}

/// At `t = 0` the curve is at its first control value, at `t = 1` at its
/// last (in homogeneous form, both scaled by `m^degree`).
pub proof fn lemma_blend_endpoints(c: Seq<int>, m: int)
    requires
        c.len() >= 1,
        0 < m,
    ensures
        blend(c, 0, m) == pow(m, (c.len() - 1) as nat) * c[0],
        blend(c, m, m) == pow(m, (c.len() - 1) as nat) * c.last(),
    decreases c.len(),
{
    if c.len() == 1 {
        vstd::arithmetic::power::lemma_pow0(m);
    } else {
        let l = c.drop_last();
        let r = c.subrange(1, c.len() as int);
        lemma_blend_endpoints(l, m);
        lemma_blend_endpoints(r, m);
        lemma_pow_step(m, (c.len() - 2) as nat);
        let p0 = pow(m, (c.len() - 2) as nat);
        assert(m * (p0 * c[0]) == (m * p0) * c[0]) by (nonlinear_arith);
        assert(m * (p0 * c.last()) == (m * p0) * c.last()) by (nonlinear_arith);
    }
}

/// Endpoint interpolation: every curve starts at its first control point
/// and ends at its last one.
pub proof fn lemma_endpoint_interpolation(p: Seq<Vec2<i64>>, m: int)
    requires
        p.len() >= 1,
        0 < m,
    ensures
        bernstein(xs(p), 0, m) == pow(m, (p.len() - 1) as nat) * p[0].x,
        bernstein(ys(p), 0, m) == pow(m, (p.len() - 1) as nat) * p[0].y,
        bernstein(xs(p), m, m) == pow(m, (p.len() - 1) as nat) * p.last().x,
        bernstein(ys(p), m, m) == pow(m, (p.len() - 1) as nat) * p.last().y,
{
    lemma_blend_endpoints(xs(p), m);
    lemma_blend_endpoints(ys(p), m);
    lemma_blend_is_bernstein(xs(p), 0, m);
    lemma_blend_is_bernstein(ys(p), 0, m);
    lemma_blend_is_bernstein(xs(p), m, m);
    lemma_blend_is_bernstein(ys(p), m, m);
}

/// Blending values bounded by `b` gives a value bounded by `m^(len-1) * b`.
proof fn lemma_blend_bound(c: Seq<int>, k: int, m: int, b: int)
    requires
        c.len() >= 1,
        0 <= k <= m,
        0 < m,
        b >= 0,
        forall|i: int| 0 <= i < c.len() ==> -b <= #[trigger] c[i] <= b,
    ensures
        -(pow(m, (c.len() - 1) as nat) * b) <= blend(c, k, m) <= pow(m, (c.len() - 1) as nat) * b,
    decreases c.len(),
{
    if c.len() > 1 {
        let l = c.drop_last();
        let r = c.subrange(1, c.len() as int);
        lemma_blend_bound(l, k, m, b);
        lemma_blend_bound(r, k, m, b);
        let p0 = pow(m, (c.len() - 2) as nat);
        let p1 = pow(m, (c.len() - 1) as nat);
        lemma_pow_step(m, (c.len() - 2) as nat);
        lemma_pow_positive(m, (c.len() - 2) as nat);
        assert(m * (p0 * b) == p1 * b) by (nonlinear_arith)
            requires p1 == m * p0;
        lemma_step_bound(blend(l, k, m), blend(r, k, m), k, m, p0 * b, p1 * b);
    } else {
        vstd::arithmetic::power::lemma_pow0(m);
    }
}

/// `m^(e+1) == m * m^e`.
pub proof fn lemma_pow_step(m: int, e: nat)
    ensures
        pow(m, e + 1) == m * pow(m, e),
{
    vstd::arithmetic::power::lemma_pow_adds(m, 1, e);
    vstd::arithmetic::power::lemma_pow1(m);
}

/// One blend step keeps values bounded by `q` within `m * q`.
proof fn lemma_step_bound(a: int, b: int, k: int, m: int, q: int, big: int)
    requires
        -q <= a <= q,
        -q <= b <= q,
        0 <= k <= m,
        m * q <= big,
    ensures
        -big <= (m - k) * a <= big,
        -big <= k * b <= big,
        -big <= (m - k) * a + k * b <= big,
{
    assert(-((m - k) * q) <= (m - k) * a <= (m - k) * q) by (nonlinear_arith)
        requires -q <= a <= q, 0 <= m - k;
    assert(-(k * q) <= k * b <= k * q) by (nonlinear_arith)
        requires -q <= b <= q, 0 <= k;
    assert((m - k) * q + k * q == m * q) by (nonlinear_arith);
    assert(0 <= q);
    assert(0 <= (m - k) * q && 0 <= k * q) by (nonlinear_arith)
        requires 0 <= q, 0 <= k <= m;
}

/// Runs the de Casteljau recurrence on one coordinate in homogeneous form.
fn casteljau(c: Vec<i128>, k: i128, m: i128) -> (r: i128)
    requires
        c.len() >= 1,
        param_ok(k as int, m as int, c.len() - 1),
        forall|i: int| 0 <= i < c.len() ==> -coord_bound() <= #[trigger] c[i] <= coord_bound(),
    ensures
        r == blend(c@.map_values(|v: i128| v as int), k as int, m as int),
{
    let ghost orig = c@.map_values(|v: i128| v as int);
    let ghost n = c.len() - 1;
    let mut c = c;
    let len = c.len();
    let mut level: usize = 0;
    proof {
        assert forall|i: int| 0 <= i < len implies c[i] == blend(
            #[trigger] orig.subrange(i, i + 1),
            k as int,
            m as int,
        ) by {
            assert(orig.subrange(i, i + 1).len() == 1);
        }
    }
    while level + 1 < len
        invariant
            len == c.len(),
            len == n + 1,
            level <= n,
            param_ok(k as int, m as int, n),
            orig.len() == len,
            forall|i: int| 0 <= i < len ==> -coord_bound() <= #[trigger] orig[i] <= coord_bound(),
            forall|i: int|
                0 <= i < len - level ==> c[i] == blend(
                    #[trigger] orig.subrange(i, i + level + 1),
                    k as int,
                    m as int,
                ),
        decreases len - level,
    {
        let mut i: usize = 0;
        while i + level + 1 < len
            invariant
                len == c.len(),
                len == n + 1,
                level < n,
                param_ok(k as int, m as int, n),
                orig.len() == len,
                forall|q: int| 0 <= q < len ==> -coord_bound() <= #[trigger] orig[q] <= coord_bound(),
                i + level < len,
                forall|q: int|
                    0 <= q < i ==> c[q] == blend(
                        #[trigger] orig.subrange(q, q + level + 2),
                        k as int,
                        m as int,
                    ),
                forall|q: int|
                    i <= q < len - level ==> c[q] == blend(
                        #[trigger] orig.subrange(q, q + level + 1),
                        k as int,
                        m as int,
                    ),
            decreases len - level - i,
        {
            let ghost s = orig.subrange(i as int, i + level + 2);
            proof {
                assert(s.drop_last() =~= orig.subrange(i as int, i + level + 1));
                assert(s.subrange(1, s.len() as int) =~= orig.subrange(i + 1, i + 1 + level + 1));
                lemma_bounded_part(orig, i as int, i + level + 1);
                lemma_bounded_part(orig, i + 1, i + level + 2);
                lemma_blend_bound(s.drop_last(), k as int, m as int, coord_bound());
                lemma_blend_bound(s.subrange(1, s.len() as int), k as int, m as int, coord_bound());
                let pl = pow(m as int, level as nat);
                let pl1 = pow(m as int, (level + 1) as nat);
                lemma_pow_step(m as int, level as nat);
                lemma_pow_mono(m as int, (level + 1) as nat, n as nat);
                assert(pl1 * coord_bound() <= coord_bound() * coord_bound()) by (nonlinear_arith)
                    requires pl1 <= coord_bound();
                assert(m * (pl * coord_bound()) == pl1 * coord_bound()) by (nonlinear_arith)
                    requires pl1 == m * pl;
                lemma_step_bound(
                    c[i as int] as int,
                    c[i + 1] as int,
                    k as int,
                    m as int,
                    pl * coord_bound(),
                    coord_bound() * coord_bound(),
                );
            }
            let a = c[i];
            let b = c[i + 1];
            let v = (m - k) * a + k * b;
            c.set(i, v);
            i = i + 1;
        }
        proof {
            assert forall|q: int| 0 <= q < len - (level + 1) implies c[q] == blend(
                #[trigger] orig.subrange(q, q + (level + 1) + 1),
                k as int,
                m as int,
            ) by {
                assert(orig.subrange(q, q + (level + 1) + 1) =~= orig.subrange(q, q + level + 2));
            }
        }
        level = level + 1;
    }
    proof {
        assert(c[0] == blend(orig.subrange(0, 0 + level + 1), k as int, m as int));
        assert(orig.subrange(0, 0 + level + 1) =~= orig);
    }
    c[0]
}

/// The elements of a subrange keep the bound of the whole.
proof fn lemma_bounded_part(s: Seq<int>, lo: int, hi: int)
    requires
        0 <= lo <= hi <= s.len(),
        forall|i: int| 0 <= i < s.len() ==> -coord_bound() <= #[trigger] s[i] <= coord_bound(),
    ensures
        forall|i: int|
            0 <= i < hi - lo ==> -coord_bound() <= #[trigger] s.subrange(lo, hi)[i] <= coord_bound(),
{
    assert forall|i: int| 0 <= i < hi - lo implies -coord_bound() <= #[trigger] s.subrange(
        lo,
        hi,
    )[i] <= coord_bound() by {
        assert(s.subrange(lo, hi)[i] == s[lo + i]);
    }
}

/// Powers of a positive base grow with the exponent.
proof fn lemma_pow_mono(m: int, a: nat, b: nat)
    requires
        0 < m,
        a <= b,
    ensures
        pow(m, a) <= pow(m, b),
{
    vstd::arithmetic::power::lemma_pow_increases(m as nat, a, b);
}

} // verus!
