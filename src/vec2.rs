use vstd::prelude::*;
use crate::error::CurveError;

verus! {

/// A two-component vector; the arithmetic below is exact over `i64`.
#[derive(Clone, Copy, Debug, PartialEq, Eq, Structural)]
pub struct Vec2<T> {
    pub x: T,
    pub y: T,
}

/// True when an integer fits in an `i64`.
pub open spec fn fits(v: int) -> bool {
    i64::MIN <= v <= i64::MAX
}

/// Floor of the square root: the `r` with `r * r <= v < (r + 1) * (r + 1)`.
pub open spec fn is_floor_sqrt(r: int, v: int) -> bool {
    0 <= r && r * r <= v < (r + 1) * (r + 1)
}

impl<T> Vec2<T> {
    pub fn new(x: T, y: T) -> (r: Self)
        ensures
            r.x == x,
            r.y == y,
    {
        Vec2 { x, y }
    }
}

impl Vec2<i64> {
    /// The vector with mathematical-integer components.
    pub open spec fn view(self) -> Vec2<int> {
        Vec2 { x: self.x as int, y: self.y as int }
    }

    /// Cross product `self.x * o.y - self.y * o.x` as a mathematical integer.
    pub open spec fn cross_spec(self, o: Vec2<i64>) -> int {
        self.x * o.y - self.y * o.x
    }

    /// Inner product as a mathematical integer.
    pub open spec fn dot_spec(self, o: Vec2<i64>) -> int {
        self.x * o.x + self.y * o.y
    }

    /// Squared Euclidean norm.
    pub open spec fn mag_sq_spec(self) -> int {
        self.x * self.x + self.y * self.y
    }

    /// True when the vector is the zero vector.
    pub open spec fn is_zero(self) -> bool {
        self.x == 0 && self.y == 0
    }

    /// The vector turned a quarter turn counter-clockwise: `(-y, x)`.
    pub fn normal(&self) -> (r: Self)
        requires
            self.y > i64::MIN,
        ensures
            r.x == -self.y,
            r.y == self.x,
    {
        Vec2 { x: -self.y, y: self.x }
    }

    /// Multiplies both components by `k`.
    pub fn scale(&self, k: i64) -> (r: Self)
        requires
            fits(self.x * k),
            fits(self.y * k),
        ensures
            r.x == self.x * k,
            r.y == self.y * k,
    {
        Vec2 { x: self.x * k, y: self.y * k }
    }

    /// Inner product; the caller rules out the one sum that leaves `i128`
    /// (both products at their largest).
    pub fn dot(&self, o: &Vec2<i64>) -> (r: i128)
        requires
            i128::MIN <= self.dot_spec(*o) <= i128::MAX,
        ensures
            r == self.dot_spec(*o),
    {
        proof {
            lemma_mul_i64_bounds(self.x as int, o.x as int);
            lemma_mul_i64_bounds(self.y as int, o.y as int);
        }
        (self.x as i128) * (o.x as i128) + (self.y as i128) * (o.y as i128)
    }

    /// Cross product (the signed area of the parallelogram spanned by the two).
    pub fn cross(&self, o: &Vec2<i64>) -> (r: i128)
        ensures
            r == self.cross_spec(*o),
    {
        proof {
            lemma_mul_i64_bounds(self.x as int, o.y as int);
            lemma_mul_i64_bounds(self.y as int, o.x as int);
        }
        (self.x as i128) * (o.y as i128) - (self.y as i128) * (o.x as i128)
    }

    /// Squared Euclidean norm, exact.
    pub fn mag_squared(&self) -> (r: u128)
        ensures
            r == self.mag_sq_spec(),
    {
        let ax: u128 = if self.x < 0 { (0 - (self.x as i128)) as u128 } else { self.x as u128 };
        let ay: u128 = if self.y < 0 { (0 - (self.y as i128)) as u128 } else { self.y as u128 };
        proof {
            assert(ax * ax == self.x * self.x) by (nonlinear_arith)
                requires ax == self.x || ax == -self.x;
            assert(ay * ay == self.y * self.y) by (nonlinear_arith)
                requires ay == self.y || ay == -self.y;
            assert(ax * ax <= 0x4000_0000_0000_0000_0000_0000_0000_0000) by (nonlinear_arith)
                requires 0 <= ax <= 0x8000_0000_0000_0000;
            assert(ay * ay <= 0x4000_0000_0000_0000_0000_0000_0000_0000) by (nonlinear_arith)
                requires 0 <= ay <= 0x8000_0000_0000_0000;
        }
        ax * ax + ay * ay
    }

    /// Euclidean norm rounded down to an integer: the largest `r` with
    /// `r * r <= x * x + y * y`.
    pub fn mag(&self) -> (r: u64)
        ensures
            is_floor_sqrt(r as int, self.mag_sq_spec()),
    {
        let v = self.mag_squared();
        floor_sqrt(v)
    }

    /// The unit vector in the direction of `self`, in exact form: it stands
    /// for `v / sqrt(len_sq)` (see `UnitVec`). A zero vector has no direction.
    pub fn normalize(&self) -> (r: Result<UnitVec, CurveError>)
        ensures
            self.is_zero() <==> r == Err::<UnitVec, CurveError>(CurveError::DegenerateGeometry),
            !self.is_zero() ==> (r matches Ok(u) && u.v == *self && u.len_sq == self.mag_sq_spec()
                && u.len_sq > 0),
    {
        if self.x == 0 && self.y == 0 {
            Err(CurveError::DegenerateGeometry)
        } else {
            proof {
                lemma_nonzero_length(*self);
            }
            Ok(UnitVec { v: *self, len_sq: self.mag_squared() })
        }
    }
}

/// A unit vector in exact form: `v / sqrt(len_sq)`, where `len_sq` is the
/// squared length of `v` and is not zero.
#[derive(Clone, Copy, Debug, PartialEq, Eq, Structural)]
pub struct UnitVec {
    pub v: Vec2<i64>,
    pub len_sq: u128,
}

/// A nonzero vector has a positive squared length, so its exact unit form
/// never divides by zero.
proof fn lemma_nonzero_length(a: Vec2<i64>)
    requires
        !a.is_zero(),
    ensures
        a.mag_sq_spec() > 0,
{
    assert(a.x * a.x >= 0 && a.y * a.y >= 0) by (nonlinear_arith);
    if a.x != 0 {
        assert(a.x * a.x > 0) by (nonlinear_arith)
            requires a.x != 0;
    } else {
        assert(a.y * a.y > 0) by (nonlinear_arith)
            requires a.y != 0;
    }
}

impl core::ops::Add for Vec2<i64> {
    type Output = Vec2<i64>;

    fn add(self, rhs: Vec2<i64>) -> (r: Vec2<i64>) {
        Vec2 { x: self.x + rhs.x, y: self.y + rhs.y }
    }
}

impl vstd::std_specs::ops::AddSpecImpl for Vec2<i64> {
    open spec fn obeys_add_spec() -> bool {
        true
    }

    open spec fn add_req(self, rhs: Vec2<i64>) -> bool {
        fits(self.x + rhs.x) && fits(self.y + rhs.y)
    }

    open spec fn add_spec(self, rhs: Vec2<i64>) -> Vec2<i64> {
        Vec2 { x: (self.x + rhs.x) as i64, y: (self.y + rhs.y) as i64 }
    }
}

impl core::ops::Sub for Vec2<i64> {
    type Output = Vec2<i64>;

    fn sub(self, rhs: Vec2<i64>) -> (r: Vec2<i64>) {
        Vec2 { x: self.x - rhs.x, y: self.y - rhs.y }
    }
}

impl vstd::std_specs::ops::SubSpecImpl for Vec2<i64> {
    open spec fn obeys_sub_spec() -> bool {
        true
    }

    open spec fn sub_req(self, rhs: Vec2<i64>) -> bool {
        fits(self.x - rhs.x) && fits(self.y - rhs.y)
    }

    open spec fn sub_spec(self, rhs: Vec2<i64>) -> Vec2<i64> {
        Vec2 { x: (self.x - rhs.x) as i64, y: (self.y - rhs.y) as i64 }
    }
}

impl core::ops::Neg for Vec2<i64> {
    type Output = Vec2<i64>;

    fn neg(self) -> (r: Vec2<i64>) {
        Vec2 { x: -self.x, y: -self.y }
    }
}

impl vstd::std_specs::ops::NegSpecImpl for Vec2<i64> {
    open spec fn obeys_neg_spec() -> bool {
        true
    }

    open spec fn neg_req(self) -> bool {
        self.x > i64::MIN && self.y > i64::MIN
    }

    open spec fn neg_spec(self) -> Vec2<i64> {
        Vec2 { x: (-self.x) as i64, y: (-self.y) as i64 }
    }
}

/// A product of two bounded values is bounded by the product of the bounds.
pub proof fn lemma_mul_bound(a: int, b: int, ba: int, bb: int)
    requires
        -ba <= a <= ba,
        -bb <= b <= bb,
    ensures
        -(ba * bb) <= a * b <= ba * bb,
{
    assert(-(ba * bb) <= a * b <= ba * bb) by (nonlinear_arith)
        requires -ba <= a <= ba, -bb <= b <= bb;
}

/// Products of two `i64` values lie strictly inside a quarter of `i128`'s range.
pub proof fn lemma_mul_i64_bounds(a: int, b: int)
    requires
        fits(a),
        fits(b),
    ensures
        -0x4000_0000_0000_0000_0000_0000_0000_0000 + 0x8000_0000_0000_0000 <= a * b,
        a * b <= 0x4000_0000_0000_0000_0000_0000_0000_0000,
{
    assert(-0x4000_0000_0000_0000_0000_0000_0000_0000 + 0x8000_0000_0000_0000 <= a * b) by (nonlinear_arith)
        requires -0x8000_0000_0000_0000 <= a <= 0x7FFF_FFFF_FFFF_FFFF,
            -0x8000_0000_0000_0000 <= b <= 0x7FFF_FFFF_FFFF_FFFF;
    assert(a * b <= 0x4000_0000_0000_0000_0000_0000_0000_0000) by (nonlinear_arith)
        requires -0x8000_0000_0000_0000 <= a <= 0x7FFF_FFFF_FFFF_FFFF,
            -0x8000_0000_0000_0000 <= b <= 0x7FFF_FFFF_FFFF_FFFF;
}

/// Largest `r` with `r * r <= v`, by bisection.
pub fn floor_sqrt(v: u128) -> (r: u64)
    ensures
        is_floor_sqrt(r as int, v as int),
{
    let mut lo: u128 = 0;
    let mut hi: u128 = 0x1_0000_0000_0000_0000;
    proof {
        assert(hi * hi > v) by (nonlinear_arith)
            requires hi == 0x1_0000_0000_0000_0000, v <= u128::MAX;
    }
    while hi - lo > 1
        invariant
            lo < hi <= 0x1_0000_0000_0000_0000,
            lo * lo <= v,
            hi * hi > v,
        decreases hi - lo,
    {
        let mid: u128 = lo + (hi - lo) / 2;
        if mid > 0xFFFF_FFFF_FFFF_FFFF {
            proof {
                assert(mid * mid > v) by (nonlinear_arith)
                    requires mid >= 0x1_0000_0000_0000_0000, v <= u128::MAX;
            }
            hi = mid;
        } else {
            proof {
                assert(mid * mid <= u128::MAX) by (nonlinear_arith)
                    requires mid <= 0xFFFF_FFFF_FFFF_FFFF;
            }
            if mid * mid <= v {
                lo = mid;
            } else {
                hi = mid;
            }
        }
    }
    proof {
        assert(lo + 1 == hi);
        assert(lo <= 0xFFFF_FFFF_FFFF_FFFF) by (nonlinear_arith)
            requires lo < hi <= 0x1_0000_0000_0000_0000;
    }
    lo as u64
}

} // verus!
