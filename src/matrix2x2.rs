use vstd::prelude::*;
use crate::error::CurveError;
use crate::vec2::{fits, lemma_mul_i64_bounds, Vec2};

verus! {

/// A 2×2 matrix `[[a, b], [c, d]]` acting on column vectors.
#[derive(Clone, Copy, Debug, PartialEq, Eq, Structural)]
pub struct Matrix2x2<T> {
    pub a: T,
    pub b: T,
    pub c: T,
    pub d: T,
}

/// The identity over mathematical integers.
pub open spec fn identity_spec() -> Matrix2x2<int> {
    Matrix2x2 { a: 1, b: 0, c: 0, d: 1 }
}

/// Matrix product `m · n`.
pub open spec fn mul_spec(m: Matrix2x2<int>, n: Matrix2x2<int>) -> Matrix2x2<int> {
    Matrix2x2 {
        a: m.a * n.a + m.b * n.c,
        b: m.a * n.b + m.b * n.d,
        c: m.c * n.a + m.d * n.c,
        d: m.c * n.b + m.d * n.d,
    }
}

/// Matrix times column vector.
pub open spec fn apply_spec(m: Matrix2x2<int>, v: Vec2<int>) -> Vec2<int> {
    Vec2 { x: m.a * v.x + m.b * v.y, y: m.c * v.x + m.d * v.y }
}

/// Every entry multiplied by `k`.
pub open spec fn scaled_spec(m: Matrix2x2<int>, k: int) -> Matrix2x2<int> {
    Matrix2x2 { a: k * m.a, b: k * m.b, c: k * m.c, d: k * m.d }
}

/// Determinant `a·d − b·c`.
pub open spec fn det_spec(m: Matrix2x2<int>) -> int {
    m.a * m.d - m.b * m.c
}

/// The adjugate `[[d, −b], [−c, a]]`: the inverse times the determinant.
pub open spec fn adjugate_spec(m: Matrix2x2<int>) -> Matrix2x2<int> {
    Matrix2x2 { a: m.d, b: -m.b, c: -m.c, d: m.a }
}

/// True when every entry of an integer matrix fits in an `i64`.
pub open spec fn fits_matrix(m: Matrix2x2<int>) -> bool {
    fits(m.a) && fits(m.b) && fits(m.c) && fits(m.d)
}

impl Matrix2x2<i64> {
    pub open spec fn view(self) -> Matrix2x2<int> {
        Matrix2x2 { a: self.a as int, b: self.b as int, c: self.c as int, d: self.d as int }
    }

    pub fn identity() -> (r: Self)
        ensures
            r@ == identity_spec(),
    {
        Matrix2x2 { a: 1, b: 0, c: 0, d: 1 }
    }

    /// Determinant, exact in `i128`.
    pub fn determinant(&self) -> (r: i128)
        ensures
            r == det_spec(self@),
    {
        proof {
            lemma_mul_i64_bounds(self.a as int, self.d as int);
            lemma_mul_i64_bounds(self.b as int, self.c as int);
        }
        (self.a as i128) * (self.d as i128) - (self.b as i128) * (self.c as i128)
    }

    /// The inverse in exact form: the adjugate together with the determinant,
    /// so that the inverse is `adjugate / determinant`. A singular matrix has
    /// no inverse.
    pub fn inverse(&self) -> (r: Result<(Matrix2x2<i64>, i128), CurveError>)
        requires
            self.b > i64::MIN,
            self.c > i64::MIN,
        ensures
            det_spec(self@) == 0 <==> r == Err::<(Matrix2x2<i64>, i128), CurveError>(
                CurveError::DegenerateGeometry,
            ),
            det_spec(self@) != 0 ==> (r matches Ok((adj, det)) && adj@ == adjugate_spec(self@)
                && det == det_spec(self@) && mul_spec(self@, adj@) == scaled_spec(
                identity_spec(),
                det as int,
            ) && mul_spec(adj@, self@) == scaled_spec(identity_spec(), det as int)),
    {
        proof {
            lemma_adjugate_inverts(self@);
        }
        let det = self.determinant();
        if det == 0 {
            Err(CurveError::DegenerateGeometry)
        } else {
            Ok((Matrix2x2 { a: self.d, b: -self.b, c: -self.c, d: self.a }, det))
        }
    }

    /// Uniform scale applied after this map: every entry times `k`.
    pub fn scale(&self, k: i64) -> (r: Self)
        requires
            fits_matrix(scaled_spec(self@, k as int)),
        ensures
            r@ == scaled_spec(self@, k as int),
    {
        Matrix2x2 { a: k * self.a, b: k * self.b, c: k * self.c, d: k * self.d }
    }

    /// Matrix product `self · o`.
    pub fn mul(&self, o: &Matrix2x2<i64>) -> (r: Self)
        requires
            fits_matrix(mul_spec(self@, o@)),
        ensures
            r@ == mul_spec(self@, o@),
    {
        let a = dot2(self.a, o.a, self.b, o.c);
        let b = dot2(self.a, o.b, self.b, o.d);
        let c = dot2(self.c, o.a, self.d, o.c);
        let d = dot2(self.c, o.b, self.d, o.d);
        Matrix2x2 { a, b, c, d }
    }

    /// Matrix times column vector.
    pub fn mul_vec(&self, v: &Vec2<i64>) -> (r: Vec2<i64>)
        requires
            fits(apply_spec(self@, v@).x),
            fits(apply_spec(self@, v@).y),
        ensures
            r@ == apply_spec(self@, v@),
    {
        Vec2 { x: dot2(self.a, v.x, self.b, v.y), y: dot2(self.c, v.x, self.d, v.y) }
    }
}

/// `p * q + r * s`, computed without intermediate overflow.
fn dot2(p: i64, q: i64, r: i64, s: i64) -> (out: i64)
    requires
        fits(p * q + r * s),
    ensures
        out == p * q + r * s,
{
    proof {
        lemma_mul_i64_bounds(p as int, q as int);
        lemma_mul_i64_bounds(r as int, s as int);
    }
    ((p as i128) * (q as i128) + (r as i128) * (s as i128)) as i64
}

/// The identity is neutral on both sides of the product.
pub proof fn lemma_identity_neutral(m: Matrix2x2<int>)
    ensures
        mul_spec(m, identity_spec()) == m,
        mul_spec(identity_spec(), m) == m,
{
}

/// One entry of a triple product, regrouped.
proof fn lemma_regroup(x1: int, x2: int, y1: int, y2: int, y3: int, y4: int, z1: int, z2: int)
    ensures
        (x1 * y1 + x2 * y2) * z1 + (x1 * y3 + x2 * y4) * z2 == x1 * (y1 * z1 + y3 * z2) + x2 * (
        y2 * z1 + y4 * z2),
{
    assert((x1 * y1 + x2 * y2) * z1 == x1 * (y1 * z1) + x2 * (y2 * z1)) by (nonlinear_arith);
    assert((x1 * y3 + x2 * y4) * z2 == x1 * (y3 * z2) + x2 * (y4 * z2)) by (nonlinear_arith);
    assert(x1 * (y1 * z1 + y3 * z2) == x1 * (y1 * z1) + x1 * (y3 * z2)) by (nonlinear_arith);
    assert(x2 * (y2 * z1 + y4 * z2) == x2 * (y2 * z1) + x2 * (y4 * z2)) by (nonlinear_arith);
}

/// The matrix product is associative.
pub proof fn lemma_mul_associative(a: Matrix2x2<int>, b: Matrix2x2<int>, c: Matrix2x2<int>)
    ensures
        mul_spec(mul_spec(a, b), c) == mul_spec(a, mul_spec(b, c)),
{
    lemma_regroup(a.a, a.b, b.a, b.c, b.b, b.d, c.a, c.c);
    lemma_regroup(a.a, a.b, b.a, b.c, b.b, b.d, c.b, c.d);
    lemma_regroup(a.c, a.d, b.a, b.c, b.b, b.d, c.a, c.c);
    lemma_regroup(a.c, a.d, b.a, b.c, b.b, b.d, c.b, c.d);
}

/// Multiplying by the adjugate gives the determinant times the identity.
pub proof fn lemma_adjugate_inverts(m: Matrix2x2<int>)
    ensures
        mul_spec(m, adjugate_spec(m)) == scaled_spec(identity_spec(), det_spec(m)),
        mul_spec(adjugate_spec(m), m) == scaled_spec(identity_spec(), det_spec(m)),
{
    let (a, b, c, d) = (m.a, m.b, m.c, m.d);
    assert(a * -b + b * a == 0 && c * d + d * -c == 0 && c * -b + d * a == a * d - b * c
        && d * b + -b * d == 0 && -c * a + a * c == 0 && d * a + -b * c == a * d - b * c
        && a * d + b * -c == a * d - b * c && -c * b + a * d == a * d - b * c) by (nonlinear_arith);
}

} // verus!
