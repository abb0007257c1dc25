use vstd::prelude::*;
use crate::error::CurveError;
use crate::matrix::Matrix;
use crate::vec2::{fits, floor_sqrt, is_floor_sqrt, lemma_mul_i64_bounds};

verus! {

/// A vector of any dimension with integer components.
#[derive(Clone, Debug, PartialEq, Eq)]
pub struct Vector {
    pub b: Vec<i64>,
}

/// `Σ_{i < n} s[i]²`.
pub open spec fn sum_sq(s: Seq<i64>, n: int) -> int
    decreases n,
{
    if n <= 0 {
        0
    } else {
        sum_sq(s, n - 1) + s[n - 1] * s[n - 1]
    }
}

proof fn lemma_sum_sq_mono(s: Seq<i64>, i: int, n: int)
    requires
        0 <= i <= n,
    ensures
        0 <= sum_sq(s, i) <= sum_sq(s, n),
    decreases n,
{
    if n > 0 {
        assert(s[n - 1] * s[n - 1] >= 0) by (nonlinear_arith);
        if i < n {
            lemma_sum_sq_mono(s, i, n - 1);
        } else {
            lemma_sum_sq_mono(s, n - 1, n - 1);
        }
    }
}

/// A unit vector in exact form: `v / sqrt(len_sq)`, where `len_sq` is the
/// squared length of `v` and is not zero.
#[derive(Clone, Debug, PartialEq, Eq)]
pub struct UnitVector {
    pub v: Vector,
    pub len_sq: u128,
}

proof fn lemma_sum_sq_pos(s: Seq<i64>, i: int, n: int)
    requires
        0 <= i < n,
        s[i] != 0,
    ensures
        sum_sq(s, n) > 0,
    decreases n,
{
    assert(s[n - 1] * s[n - 1] >= 0) by (nonlinear_arith);
    if i == n - 1 {
        lemma_sum_sq_mono(s, n - 1, n - 1);
        assert(s[i] * s[i] > 0) by (nonlinear_arith)
            requires s[i] != 0;
    } else {
        lemma_sum_sq_pos(s, i, n - 1);
    }
}

impl Vector {
    /// The unit vector in the direction of `self`, in exact form (see
    /// `UnitVector`). A zero vector has no direction.
    pub fn normalize(&self) -> (r: Result<UnitVector, CurveError>)
        requires
            sum_sq(self.b@, self.b.len() as int) <= u128::MAX,
        ensures
            (forall|i: int| 0 <= i < self.b.len() ==> #[trigger] self.b[i] == 0) <==> r == Err::<
                UnitVector,
                CurveError,
            >(CurveError::DegenerateGeometry),
            !(forall|i: int| 0 <= i < self.b.len() ==> #[trigger] self.b[i] == 0) ==> r is Ok,
            r matches Ok(u) ==> u.v.b@ == self.b@ && u.len_sq == sum_sq(self.b@, self.b.len() as int)
                && u.len_sq > 0,
    {
        let mut b: Vec<i64> = Vec::new();
        let mut zero = true;
        let mut i: usize = 0;
        while i < self.b.len()
            invariant
                i <= self.b.len(),
                b@ == self.b@.subrange(0, i as int),
                zero <==> forall|q: int| 0 <= q < i ==> #[trigger] self.b[q] == 0,
            decreases self.b.len() - i,
        {
            if self.b[i] != 0 {
                zero = false;
            }
            b.push(self.b[i]);
            proof {
                assert(b@ =~= self.b@.subrange(0, i + 1));
            }
            i = i + 1;
        }
        if zero {
            return Err(CurveError::DegenerateGeometry);
        }
        proof {
            assert(b@ =~= self.b@);
            let q = choose|q: int| 0 <= q < self.b.len() && self.b[q] != 0;
            lemma_sum_sq_pos(self.b@, q, self.b.len() as int);
        }
        Ok(UnitVector { v: Vector { b }, len_sq: self.magnitude_squared() })
    }

    pub fn new(b: Vec<i64>) -> (r: Self)
        ensures
            r.b@ == b@,
    {
        Vector { b }
    }

    /// The components as a `1 × n` matrix.
    pub fn row(&self) -> (r: Matrix)
        ensures
            r.wf(),
            r.cols == self.b.len(),
            r.e.len() == 1,
            r.e[0]@ == self.b@,
    {
        let mut e: Vec<Vec<i64>> = Vec::new();
        e.push(self.b.clone());
        Matrix { cols: self.b.len(), e }
    }

    /// The components as an `n × 1` matrix.
    pub fn column(&self) -> (r: Matrix)
        ensures
            r.wf(),
            r.cols == 1,
            r.e.len() == self.b.len(),
            forall|i: int| 0 <= i < self.b.len() ==> (#[trigger] r.e[i])@ == seq![self.b[i]],
    {
        let mut e: Vec<Vec<i64>> = Vec::new();
        let mut i: usize = 0;
        while i < self.b.len()
            invariant
                i <= self.b.len(),
                e.len() == i,
                forall|q: int| 0 <= q < i ==> (#[trigger] e[q])@ == seq![self.b[q]],
            decreases self.b.len() - i,
        {
            let mut one: Vec<i64> = Vec::new();
            one.push(self.b[i]);
            proof {
                assert(one@ =~= seq![self.b[i as int]]);
            }
            e.push(one);
            i = i + 1;
        }
        Matrix { cols: 1, e }
    }

    /// Component-wise sum of two vectors of one dimension.
    pub fn add(&self, o: &Vector) -> (r: Vector)
        requires
            self.b.len() == o.b.len(),
            forall|i: int| 0 <= i < self.b.len() ==> fits(self.b[i] + o.b[i]),
        ensures
            r.b.len() == self.b.len(),
            forall|i: int| 0 <= i < r.b.len() ==> #[trigger] r.b[i] == self.b[i] + o.b[i],
    {
        let mut b: Vec<i64> = Vec::new();
        let mut i: usize = 0;
        while i < self.b.len()
            invariant
                self.b.len() == o.b.len(),
                forall|q: int| 0 <= q < self.b.len() ==> fits(self.b[q] + o.b[q]),
                i <= self.b.len(),
                b.len() == i,
                forall|q: int| 0 <= q < i ==> #[trigger] b[q] == self.b[q] + o.b[q],
            decreases self.b.len() - i,
        {
            b.push(self.b[i] + o.b[i]);
            i = i + 1;
        }
        Vector { b }
    }

    /// Component-wise difference of two vectors of one dimension.
    pub fn sub(&self, o: &Vector) -> (r: Vector)
        requires
            self.b.len() == o.b.len(),
            forall|i: int| 0 <= i < self.b.len() ==> fits(self.b[i] - o.b[i]),
        ensures
            r.b.len() == self.b.len(),
            forall|i: int| 0 <= i < r.b.len() ==> #[trigger] r.b[i] == self.b[i] - o.b[i],
    {
        let mut b: Vec<i64> = Vec::new();
        let mut i: usize = 0;
        while i < self.b.len()
            invariant
                self.b.len() == o.b.len(),
                forall|q: int| 0 <= q < self.b.len() ==> fits(self.b[q] - o.b[q]),
                i <= self.b.len(),
                b.len() == i,
                forall|q: int| 0 <= q < i ==> #[trigger] b[q] == self.b[q] - o.b[q],
            decreases self.b.len() - i,
        {
            b.push(self.b[i] - o.b[i]);
            i = i + 1;
        }
        Vector { b }
    }

    /// Every component times `k`.
    pub fn scale(&self, k: i64) -> (r: Vector)
        requires
            forall|i: int| 0 <= i < self.b.len() ==> fits(self.b[i] * k),
        ensures
            r.b.len() == self.b.len(),
            forall|i: int| 0 <= i < r.b.len() ==> #[trigger] r.b[i] == self.b[i] * k,
    {
        let mut b: Vec<i64> = Vec::new();
        let mut i: usize = 0;
        while i < self.b.len()
            invariant
                forall|q: int| 0 <= q < self.b.len() ==> fits(self.b[q] * k),
                i <= self.b.len(),
                b.len() == i,
                forall|q: int| 0 <= q < i ==> #[trigger] b[q] == self.b[q] * k,
            decreases self.b.len() - i,
        {
            b.push(self.b[i] * k);
            i = i + 1;
        }
        Vector { b }
    }

    /// Squared Euclidean norm, exact; the sum must fit in `u128`.
    pub fn magnitude_squared(&self) -> (r: u128)
        requires
            sum_sq(self.b@, self.b.len() as int) <= u128::MAX,
        ensures
            r == sum_sq(self.b@, self.b.len() as int),
    {
        let mut acc: u128 = 0;
        let mut i: usize = 0;
        while i < self.b.len()
            invariant
                i <= self.b.len(),
                sum_sq(self.b@, self.b.len() as int) <= u128::MAX,
                acc == sum_sq(self.b@, i as int),
            decreases self.b.len() - i,
        {
            let v = self.b[i];
            let a: u128 = if v < 0 { (0 - (v as i128)) as u128 } else { v as u128 };
            proof {
                assert(a * a == v * v) by (nonlinear_arith)
                    requires a == v || a == -v;
                lemma_sum_sq_mono(self.b@, i + 1, self.b.len() as int);
                assert(a * a <= 0x4000_0000_0000_0000_0000_0000_0000_0000) by (nonlinear_arith)
                    requires 0 <= a <= 0x8000_0000_0000_0000;
            }
            acc = acc + a * a;
            i = i + 1;
        }
        acc
    }

    /// Euclidean norm rounded down to an integer.
    pub fn magnitude(&self) -> (r: u64)
        requires
            sum_sq(self.b@, self.b.len() as int) <= u128::MAX,
        ensures
            is_floor_sqrt(r as int, sum_sq(self.b@, self.b.len() as int)),
    {
        floor_sqrt(self.magnitude_squared())
    }

    /// Inner product of two vectors of one dimension; every partial sum must
    /// fit in `i128`.
    pub fn dot(&self, o: &Vector) -> (r: i128)
        requires
            self.b.len() == o.b.len(),
            forall|k: int| 0 <= k <= self.b.len() ==> i128::MIN <= #[trigger] dot_upto(self.b@, o.b@, k) <= i128::MAX,
        ensures
            r == dot_upto(self.b@, o.b@, self.b.len() as int),
    {
        let mut acc: i128 = 0;
        let mut i: usize = 0;
        while i < self.b.len()
            invariant
                self.b.len() == o.b.len(),
                forall|k: int| 0 <= k <= self.b.len() ==> i128::MIN <= #[trigger] dot_upto(self.b@, o.b@, k) <= i128::MAX,
                i <= self.b.len(),
                acc == dot_upto(self.b@, o.b@, i as int),
            decreases self.b.len() - i,
        {
            proof {
                lemma_mul_i64_bounds(self.b[i as int] as int, o.b[i as int] as int);
                assert(i128::MIN <= dot_upto(self.b@, o.b@, i + 1) <= i128::MAX);
            }
            acc = acc + (self.b[i] as i128) * (o.b[i] as i128);
            i = i + 1;
        }
        acc
    }

    /// The cross product of two 2-dimensional vectors; other dimensions
    /// have none here.
    pub fn cross(&self, o: &Vector) -> (r: Option<i128>)
        ensures
            (self.b.len() == 2 && o.b.len() == 2) <==> r.is_some(),
            r matches Some(c) ==> c == self.b[0] * o.b[1] - self.b[1] * o.b[0],
    {
        if self.b.len() != 2 || o.b.len() != 2 {
            return None;
        }
        proof {
            lemma_mul_i64_bounds(self.b[0] as int, o.b[1] as int);
            lemma_mul_i64_bounds(self.b[1] as int, o.b[0] as int);
        }
        Some((self.b[0] as i128) * (o.b[1] as i128) - (self.b[1] as i128) * (o.b[0] as i128))
    }
}

/// `Σ_{i < n} a[i] · b[i]`.
pub open spec fn dot_upto(a: Seq<i64>, b: Seq<i64>, n: int) -> int
    decreases n,
{
    if n <= 0 {
        0
    } else {
        dot_upto(a, b, n - 1) + a[n - 1] * b[n - 1]
    }
}

} // verus!
