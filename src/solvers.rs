use vstd::prelude::*;
use crate::error::CurveError;

verus! {

/// Largest number of Newton steps taken before giving up.
pub const MAX_STEPS: u32 = 1000;

/// True when an integer fits in an `i128`.
pub open spec fn in_i128(v: int) -> bool {
    i128::MIN <= v <= i128::MAX
}

/// Checked sum: `None` when an argument is missing or the sum leaves `i128`.
pub open spec fn cadd(a: Option<int>, b: Option<int>) -> Option<int> {
    match (a, b) {
        (Some(x), Some(y)) => if in_i128(x + y) { Some(x + y) } else { None },
        _ => None,
    }
}

/// Checked difference.
pub open spec fn csub(a: Option<int>, b: Option<int>) -> Option<int> {
    match (a, b) {
        (Some(x), Some(y)) => if in_i128(x - y) { Some(x - y) } else { None },
        _ => None,
    }
}

/// Checked product.
pub open spec fn cmul(a: Option<int>, b: Option<int>) -> Option<int> {
    match (a, b) {
        (Some(x), Some(y)) => if in_i128(x * y) { Some(x * y) } else { None },
        _ => None,
    }
}

/// Checked absolute value.
pub open spec fn cabs(a: Option<int>) -> Option<int> {
    match a {
        Some(x) => if in_i128(if x < 0 { -x } else { x }) { Some(if x < 0 { -x } else { x }) } else { None },
        None => None,
    }
}

/// An `Option<i128>` read as an optional mathematical integer.
pub open spec fn oi(a: Option<i128>) -> Option<int> {
    match a {
        Some(x) => Some(x as int),
        None => None,
    }
}

fn xadd(a: Option<i128>, b: Option<i128>) -> (r: Option<i128>)
    ensures
        oi(r) == cadd(oi(a), oi(b)),
{
    match (a, b) {
        (Some(x), Some(y)) => x.checked_add(y),
        _ => None,
    }
}

fn xsub(a: Option<i128>, b: Option<i128>) -> (r: Option<i128>)
    ensures
        oi(r) == csub(oi(a), oi(b)),
{
    match (a, b) {
        (Some(x), Some(y)) => x.checked_sub(y),
        _ => None,
    }
}

fn xmul(a: Option<i128>, b: Option<i128>) -> (r: Option<i128>)
    ensures
        oi(r) == cmul(oi(a), oi(b)),
{
    match (a, b) {
        (Some(x), Some(y)) => x.checked_mul(y),
        _ => None,
    }
}

fn xabs(a: Option<i128>) -> (r: Option<i128>)
    ensures
        oi(r) == cabs(oi(a)),
{
    match a {
        Some(x) => if x == i128::MIN { None } else if x < 0 { Some(-x) } else { Some(x) },
        None => None,
    }
}

/// A polynomial of degree at most two in two unknowns:
/// `c + cx·x + cy·y + cxx·x² + cxy·x·y + cyy·y²`.
#[derive(Clone, Copy, Debug, PartialEq, Eq, Structural)]
pub struct Poly2 {
    pub c: i64,
    pub cx: i64,
    pub cy: i64,
    pub cxx: i64,
    pub cxy: i64,
    pub cyy: i64,
}

/// An exact point `(x / d, y / d)` with `d > 0`, and the number of Newton
/// steps that led to it.
#[derive(Clone, Copy, Debug, PartialEq, Eq, Structural)]
pub struct Root {
    pub x: i128,
    pub y: i128,
    pub d: i128,
    pub steps: u32,
}

/// Why the iteration stopped without converging, and the iterate it had
/// reached: after `MAX_STEPS` steps (`NonConvergence`) the last iterate;
/// otherwise the one from which the failing step started.
#[derive(Clone, Copy, Debug, PartialEq, Eq, Structural)]
pub struct Stopped {
    pub kind: CurveError,
    pub last: Root,
}

/// `f(X/D, Y/D) · D²`, checked.
pub open spec fn poly_val(f: Poly2, x: Option<int>, y: Option<int>, d: Option<int>) -> Option<int> {
    cadd(
        cadd(
            cadd(cmul(Some(f.c as int), cmul(d, d)), cmul(Some(f.cx as int), cmul(x, d))),
            cadd(cmul(Some(f.cy as int), cmul(y, d)), cmul(Some(f.cxx as int), cmul(x, x))),
        ),
        cadd(cmul(Some(f.cxy as int), cmul(x, y)), cmul(Some(f.cyy as int), cmul(y, y))),
    )
}

/// `∂f/∂x (X/D, Y/D) · D = cx·D + 2·cxx·X + cxy·Y`, checked.
pub open spec fn poly_dx(f: Poly2, x: Option<int>, y: Option<int>, d: Option<int>) -> Option<int> {
    cadd(
        cadd(cmul(Some(f.cx as int), d), cmul(Some(2 * f.cxx), x)),
        cmul(Some(f.cxy as int), y),
    )
}

/// `∂f/∂y (X/D, Y/D) · D = cy·D + cxy·X + 2·cyy·Y`, checked.
pub open spec fn poly_dy(f: Poly2, x: Option<int>, y: Option<int>, d: Option<int>) -> Option<int> {
    cadd(
        cadd(cmul(Some(f.cy as int), d), cmul(Some(f.cxy as int), x)),
        cmul(Some(2 * f.cyy), y),
    )
}

/// The Jacobian determinant `det = fx·gy − fy·gx` and the numerators
/// `nx = f·gy − g·fy`, `ny = g·fx − f·gx` at `(X/D, Y/D)`, all checked; they
/// are scaled by `D²`, `D³` and `D³`, so that the Newton update is
/// `x' = x − nx / (D·det)`, `y' = y − ny / (D·det)`.
pub open spec fn step_parts(f: Poly2, g: Poly2, x: int, y: int, d: int) -> (
    Option<int>,
    Option<int>,
    Option<int>,
) {
    let (sx, sy, sd) = (Some(x), Some(y), Some(d));
    let fv = poly_val(f, sx, sy, sd);
    let gv = poly_val(g, sx, sy, sd);
    let fx = poly_dx(f, sx, sy, sd);
    let fy = poly_dy(f, sx, sy, sd);
    let gx = poly_dx(g, sx, sy, sd);
    let gy = poly_dy(g, sx, sy, sd);
    (
        csub(cmul(fx, gy), cmul(fy, gx)),
        csub(cmul(fv, gy), cmul(gv, fy)),
        csub(cmul(gv, fx), cmul(fv, gx)),
    )
}

/// Absolute value.
pub open spec fn iabs(v: int) -> int {
    if v < 0 {
        -v
    } else {
        v
    }
}

/// One Newton step from `(X/D, Y/D)`, all arithmetic checked. With
/// `det = fx·gy − fy·gx`, `nx = f·gy − g·fy`, `ny = g·fx − f·gx` (each
/// scaled to an integer), the next point is
/// `((X·det − nx) / (D·det), (Y·det − ny) / (D·det))`, signs arranged so that
/// the denominator is positive. The step has met the tolerance `tn / td`
/// when both coordinates moved by at most it: `|nx|·td <= tn·|D·det|` and
/// likewise for `ny`. Result: `Ok((met, X', Y', D'))`; a zero `det` is a
/// singular system; `None` anywhere is a value outside `i128`.
pub open spec fn newton_step(
    f: Poly2,
    g: Poly2,
    x: int,
    y: int,
    d: int,
    tn: int,
    td: int,
) -> Result<(bool, int, int, int), CurveError> {
    let (sx, sy, sd) = (Some(x), Some(y), Some(d));
    let (det, nx, ny) = step_parts(f, g, x, y, d);
    if det is None || nx is None || ny is None {
        Err(CurveError::OutOfRange)
    } else if det->0 == 0 {
        Err(CurveError::DegenerateGeometry)
    } else {
        let s = if det->0 < 0 { Some(-1int) } else { Some(1int) };
        let x2 = cmul(s, csub(cmul(sx, det), nx));
        let y2 = cmul(s, csub(cmul(sy, det), ny));
        let d2 = cmul(s, cmul(sd, det));
        let lhs_x = cmul(cabs(nx), Some(td));
        let lhs_y = cmul(cabs(ny), Some(td));
        let rhs = cmul(Some(tn), d2);
        if x2 is None || y2 is None || d2 is None || lhs_x is None || lhs_y is None || rhs is None {
            Err(CurveError::OutOfRange)
        } else {
            Ok((lhs_x->0 <= rhs->0 && lhs_y->0 <= rhs->0, x2->0, y2->0, d2->0))
        }
    }
}

/// Newton's iteration with at most `fuel` more steps from `(x/d, y/d)`;
/// `taken` steps so far. A failure carries its kind and the iterate the run
/// had reached, with its step count.
pub open spec fn newton_run(
    f: Poly2,
    g: Poly2,
    x: int,
    y: int,
    d: int,
    tn: int,
    td: int,
    fuel: nat,
    taken: nat,
) -> Result<(int, int, int, nat), (CurveError, int, int, int, nat)>
    decreases fuel,
{
    if fuel == 0 {
        Err((CurveError::NonConvergence, x, y, d, taken))
    } else {
        match newton_step(f, g, x, y, d, tn, td) {
            Err(e) => Err((e, x, y, d, taken)),
            Ok((met, x2, y2, d2)) => if met {
                Ok((x2, y2, d2, taken + 1))
            } else {
                newton_run(f, g, x2, y2, d2, tn, td, (fuel - 1) as nat, taken + 1)
            },
        }
    }
}

/// When the checked value of a polynomial exists, it is the exact value
/// `f(X/D, Y/D) · D²`.
pub proof fn lemma_poly_val_exact(f: Poly2, x: int, y: int, d: int)
    ensures
        poly_val(f, Some(x), Some(y), Some(d)) matches Some(v) ==> v == f.c * (d * d) + f.cx * (x
            * d) + f.cy * (y * d) + f.cxx * (x * x) + f.cxy * (x * y) + f.cyy * (y * y),
{
}

/// Every step from a point with a positive denominator yields a positive
/// denominator.
pub proof fn lemma_step_denominator(f: Poly2, g: Poly2, x: int, y: int, d: int, tn: int, td: int)
    requires
        d > 0,
        newton_step(f, g, x, y, d, tn, td) is Ok,
    ensures
        newton_step(f, g, x, y, d, tn, td)->Ok_0.3 > 0,
{
    let (det, nx, ny) = step_parts(f, g, x, y, d);
    let dt = det->0;
    if dt < 0 {
        assert(-1 * (d * dt) > 0) by (nonlinear_arith)
            requires d > 0, dt < 0;
    } else {
        assert(1 * (d * dt) > 0) by (nonlinear_arith)
            requires d > 0, dt > 0;
    }
}

/// What a step that meets the tolerance means. From `(x/d, y/d)` with
/// `d > 0` and a tolerance `tn / td` with `td > 0`: the Jacobian determinant
/// there is not zero; the new point `(x2/d2, y2/d2)`, `d2 > 0`, is the Newton
/// update `x/d − nx/(d·det)`, `y/d − ny/(d·det)`; and each coordinate moved by
/// at most the tolerance: `|x/d − x2/d2| <= tn/td`, likewise for `y`.
pub proof fn lemma_converged_step(f: Poly2, g: Poly2, x: int, y: int, d: int, tn: int, td: int)
    requires
        d > 0,
        td > 0,
        newton_step(f, g, x, y, d, tn, td) matches Ok((met, _, _, _)) && met,
    ensures
        ({
            let (det, nx, ny) = step_parts(f, g, x, y, d);
            let (met, x2, y2, d2) = newton_step(f, g, x, y, d, tn, td)->Ok_0;
            &&& det is Some && nx is Some && ny is Some
            &&& det->0 != 0
            &&& d2 > 0
            &&& x2 * (d * det->0) == d2 * (x * det->0 - nx->0)
            &&& y2 * (d * det->0) == d2 * (y * det->0 - ny->0)
            &&& iabs(x * d2 - x2 * d) * td <= tn * (d * d2)
            &&& iabs(y * d2 - y2 * d) * td <= tn * (d * d2)
        }),
{
    let (det, nx, ny) = step_parts(f, g, x, y, d);
    let (met, x2, y2, d2) = newton_step(f, g, x, y, d, tn, td)->Ok_0;
    let dt = det->0;
    let a = nx->0;
    let b = ny->0;
    let s: int = if dt < 0 { -1 } else { 1 };
    lemma_step_denominator(f, g, x, y, d, tn, td);
    assert(x2 == s * (x * dt - a) && y2 == s * (y * dt - b) && d2 == s * (d * dt));
    assert(iabs(a) * td <= tn * d2 && iabs(b) * td <= tn * d2);
    lemma_update(x, a, s, d, dt, td, tn, x2, d2);
    lemma_update(y, b, s, d, dt, td, tn, y2, d2);
}

proof fn lemma_update(x: int, a: int, s: int, d: int, dt: int, td: int, tn: int, x2: int, d2: int)
    requires
        s == 1 || s == -1,
        d > 0,
        td > 0,
        x2 == s * (x * dt - a),
        d2 == s * (d * dt),
        iabs(a) * td <= tn * d2,
    ensures
        x2 * (d * dt) == d2 * (x * dt - a),
        iabs(x * d2 - x2 * d) * td <= tn * (d * d2),
{
    assert(x2 * (d * dt) == d2 * (x * dt - a)) by (nonlinear_arith)
        requires x2 == s * (x * dt - a), d2 == s * (d * dt);
    assert(x * d2 - x2 * d == s * (a * d)) by (nonlinear_arith)
        requires x2 == s * (x * dt - a), d2 == s * (d * dt);
    assert(iabs(s * (a * d)) == iabs(a) * d) by (nonlinear_arith)
        requires s == 1 || s == -1, d > 0;
    assert(iabs(a) * d * td <= tn * (d * d2)) by (nonlinear_arith)
        requires iabs(a) * td <= tn * d2, d > 0;
}

/// A run that reports convergence ends with a step that meets the tolerance
/// (see `lemma_converged_step`) from some point with a positive denominator.
pub proof fn lemma_run_converged(
    f: Poly2,
    g: Poly2,
    x: int,
    y: int,
    d: int,
    tn: int,
    td: int,
    fuel: nat,
    taken: nat,
)
    requires
        d > 0,
        newton_run(f, g, x, y, d, tn, td, fuel, taken) is Ok,
    ensures
        ({
            let (a, b, c, n) = newton_run(f, g, x, y, d, tn, td, fuel, taken)->Ok_0;
            exists|x1: int, y1: int, d1: int|
                d1 > 0 && #[trigger] newton_step(f, g, x1, y1, d1, tn, td) == Ok::<
                    (bool, int, int, int),
                    CurveError,
                >((true, a, b, c))
        }),
    decreases fuel,
{
    let r = newton_step(f, g, x, y, d, tn, td);
    let (met, x2, y2, d2) = r->Ok_0;
    if !met {
        lemma_step_denominator(f, g, x, y, d, tn, td);
        lemma_run_converged(f, g, x2, y2, d2, tn, td, (fuel - 1) as nat, taken + 1);
    } else {
        assert(newton_step(f, g, x, y, d, tn, td) == Ok::<(bool, int, int, int), CurveError>(
            (true, x2, y2, d2),
        ));
    }
}

fn val(f: &Poly2, x: Option<i128>, y: Option<i128>, d: Option<i128>) -> (r: Option<i128>)
    ensures
        oi(r) == poly_val(*f, oi(x), oi(y), oi(d)),
{
    xadd(
        xadd(
            xadd(xmul(Some(f.c as i128), xmul(d, d)), xmul(Some(f.cx as i128), xmul(x, d))),
            xadd(xmul(Some(f.cy as i128), xmul(y, d)), xmul(Some(f.cxx as i128), xmul(x, x))),
        ),
        xadd(xmul(Some(f.cxy as i128), xmul(x, y)), xmul(Some(f.cyy as i128), xmul(y, y))),
    )
}

fn dx(f: &Poly2, x: Option<i128>, y: Option<i128>, d: Option<i128>) -> (r: Option<i128>)
    ensures
        oi(r) == poly_dx(*f, oi(x), oi(y), oi(d)),
{
    xadd(
        xadd(xmul(Some(f.cx as i128), d), xmul(Some(2 * (f.cxx as i128)), x)),
        xmul(Some(f.cxy as i128), y),
    )
}

fn dy(f: &Poly2, x: Option<i128>, y: Option<i128>, d: Option<i128>) -> (r: Option<i128>)
    ensures
        oi(r) == poly_dy(*f, oi(x), oi(y), oi(d)),
{
    xadd(
        xadd(xmul(Some(f.cy as i128), d), xmul(Some(f.cxy as i128), x)),
        xmul(Some(2 * (f.cyy as i128)), y),
    )
}

fn step(f: &Poly2, g: &Poly2, x: i128, y: i128, d: i128, tn: i128, td: i128) -> (r: Result<
    (bool, i128, i128, i128),
    CurveError,
>)
    ensures
        match (r, newton_step(*f, *g, x as int, y as int, d as int, tn as int, td as int)) {
            (Ok((m, a, b, c)), Ok((m2, a2, b2, c2))) => m == m2 && a == a2 && b == b2 && c == c2,
            (Err(e), Err(e2)) => e == e2,
            _ => false,
        },
{
    let (sx, sy, sd) = (Some(x), Some(y), Some(d));
    let fv = val(f, sx, sy, sd);
    let gv = val(g, sx, sy, sd);
    let fx = dx(f, sx, sy, sd);
    let fy = dy(f, sx, sy, sd);
    let gx = dx(g, sx, sy, sd);
    let gy = dy(g, sx, sy, sd);
    let det = xsub(xmul(fx, gy), xmul(fy, gx));
    let nx = xsub(xmul(fv, gy), xmul(gv, fy));
    let ny = xsub(xmul(gv, fx), xmul(fv, gx));
    let (det, nx, ny) = match (det, nx, ny) {
        (Some(a), Some(b), Some(c)) => (a, b, c),
        _ => return Err(CurveError::OutOfRange),
    };
    if det == 0 {
        return Err(CurveError::DegenerateGeometry);
    }
    let s: i128 = if det < 0 { -1 } else { 1 };
    let x2 = xmul(Some(s), xsub(xmul(sx, Some(det)), Some(nx)));
    let y2 = xmul(Some(s), xsub(xmul(sy, Some(det)), Some(ny)));
    let d2 = xmul(Some(s), xmul(sd, Some(det)));
    let lhs_x = xmul(xabs(Some(nx)), Some(td));
    let lhs_y = xmul(xabs(Some(ny)), Some(td));
    let rhs = xmul(Some(tn), d2);
    match (x2, y2, d2, lhs_x, lhs_y, rhs) {
        (Some(a), Some(b), Some(c), Some(lx), Some(ly), Some(rr)) => Ok((lx <= rr && ly <= rr, a, b, c)),
        _ => Err(CurveError::OutOfRange),
    }
}

/// Newton–Raphson for the system `f = 0`, `g = 0` in exact arithmetic, from
/// the integer guess `(x0, y0)`, with tolerance `tn / td`. The partial
/// derivatives are those of the polynomials. It stops at the first step
/// that moves each coordinate by at most the tolerance (`td > 0`) and
/// returns the point that step reached (see `lemma_converged_step`). It
/// stops with a `Stopped` carrying the iterate reached when the Jacobian
/// determinant is zero (`DegenerateGeometry`), after `MAX_STEPS` steps that
/// did not meet the tolerance (`NonConvergence`), or when an exact value
/// leaves `i128` (`OutOfRange`; exact denominators grow with every step, so
/// a nonlinear system meets this long before `MAX_STEPS`).
pub fn newton2(x0: i64, y0: i64, f: &Poly2, g: &Poly2, tn: i64, td: i64) -> (r: Result<Root, Stopped>)
    requires
        td > 0,
    ensures
        match (r, newton_run(*f, *g, x0 as int, y0 as int, 1, tn as int, td as int, MAX_STEPS as nat, 0)) {
            (Ok(root), Ok((a, b, c, n))) => root.x == a && root.y == b && root.d == c && root.steps == n,
            (Err(st), Err((e, a, b, c, n))) => st.kind == e && st.last.x == a && st.last.y == b
                && st.last.d == c && st.last.steps == n,
            _ => false,
        },
        r matches Ok(root) ==> exists|x1: int, y1: int, d1: int|
            d1 > 0 && #[trigger] newton_step(*f, *g, x1, y1, d1, tn as int, td as int) == Ok::<
                (bool, int, int, int),
                CurveError,
            >((true, root.x as int, root.y as int, root.d as int)),
{
    let mut x: i128 = x0 as i128;
    let mut y: i128 = y0 as i128;
    let mut d: i128 = 1;
    let mut taken: u32 = 0;
    while taken < MAX_STEPS
        invariant
            taken <= MAX_STEPS,
            newton_run(*f, *g, x as int, y as int, d as int, tn as int, td as int, (MAX_STEPS - taken) as nat, taken as nat)
                == newton_run(*f, *g, x0 as int, y0 as int, 1, tn as int, td as int, MAX_STEPS as nat, 0),
        decreases MAX_STEPS - taken,
    {
        match step(f, g, x, y, d, tn as i128, td as i128) {
            Err(e) => {
                return Err(Stopped { kind: e, last: Root { x, y, d, steps: taken } });
            },
            Ok((met, x2, y2, d2)) => {
                if met {
                    proof {
                        assert(newton_run(*f, *g, x as int, y as int, d as int, tn as int, td as int, (MAX_STEPS - taken) as nat, taken as nat)
                            == Ok::<(int, int, int, nat), (CurveError, int, int, int, nat)>((x2 as int, y2 as int, d2 as int, (taken + 1) as nat)));
                        lemma_run_converged(*f, *g, x0 as int, y0 as int, 1, tn as int, td as int, MAX_STEPS as nat, 0);
                    }
                    return Ok(Root { x: x2, y: y2, d: d2, steps: taken + 1 });
                }
                x = x2;
                y = y2;
                d = d2;
            },
        }
        taken = taken + 1;
    }
    Err(Stopped { kind: CurveError::NonConvergence, last: Root { x, y, d, steps: taken } })
}

} // verus!
