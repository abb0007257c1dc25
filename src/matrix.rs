use vstd::prelude::*;
use crate::sums::{col_sum, lemma_sum_ext, lemma_sum_scale, lemma_sum_swap, row_sum, sum};
use crate::vec2::{fits, lemma_mul_i64_bounds};

verus! {

/// A `rows × cols` integer matrix stored row by row.
#[derive(Clone, Debug)]
pub struct Matrix {
    pub cols: usize,
    pub e: Vec<Vec<i64>>,
}

/// True when `m` is a `rows × cols` grid.
pub open spec fn is_grid(m: Seq<Seq<int>>, rows: int, cols: int) -> bool {
    m.len() == rows && forall|i: int| 0 <= i < rows ==> (#[trigger] m[i]).len() == cols
}

/// `Σ_{k < n} a[i][k] · b[k][j]`.
pub open spec fn partial_dot(a: Seq<Seq<int>>, b: Seq<Seq<int>>, i: int, j: int, n: int) -> int
    decreases n,
{
    if n <= 0 {
        0
    } else {
        partial_dot(a, b, i, j, n - 1) + a[i][n - 1] * b[n - 1][j]
    }
}

/// The product of an `r × n` and an `n × c` matrix.
pub open spec fn mat_mul(a: Seq<Seq<int>>, b: Seq<Seq<int>>, n: int, c: int) -> Seq<Seq<int>> {
    Seq::new(a.len(), |i: int| Seq::new(c as nat, |j: int| partial_dot(a, b, i, j, n)))
}

/// The `n × n` identity.
pub open spec fn identity_grid(n: int) -> Seq<Seq<int>> {
    Seq::new(n as nat, |i: int| Seq::new(n as nat, |j: int| if i == j { 1int } else { 0int }))
}

/// The transpose of an `r × c` matrix.
pub open spec fn transposed(a: Seq<Seq<int>>, c: int) -> Seq<Seq<int>> {
    Seq::new(c as nat, |j: int| Seq::new(a.len(), |i: int| a[i][j]))
}

/// Every partial sum of the product stays inside `i64`.
pub open spec fn mul_fits(a: Seq<Seq<int>>, b: Seq<Seq<int>>, n: int, c: int) -> bool {
    forall|i: int, j: int, k: int|
        0 <= i < a.len() && 0 <= j < c && 0 <= k <= n ==> fits(#[trigger] partial_dot(a, b, i, j, k))
}

impl Matrix {
    pub open spec fn view(&self) -> Seq<Seq<int>> {
        Seq::new(self.e@.len(), |i: int| Seq::new(self.e@[i]@.len(), |j: int| self.e@[i]@[j] as int))
    }

    /// Every row holds `cols` entries.
    pub open spec fn wf(&self) -> bool {
        forall|i: int| 0 <= i < self.e.len() ==> (#[trigger] self.e[i]).len() == self.cols
    }

    pub open spec fn rows(&self) -> int {
        self.e.len() as int
    }

    /// A matrix from its rows; rows of unequal length are refused.
    pub fn new(e: Vec<Vec<i64>>, cols: usize) -> (r: Option<Matrix>)
        ensures
            (forall|i: int| 0 <= i < e.len() ==> (#[trigger] e[i]).len() == cols) <==> r.is_some(),
            r matches Some(m) ==> m.e@ == e@ && m.cols == cols && m.wf(),
    {
        let mut i: usize = 0;
        while i < e.len()
            invariant
                i <= e.len(),
                forall|q: int| 0 <= q < i ==> (#[trigger] e[q]).len() == cols,
            decreases e.len() - i,
        {
            if e[i].len() != cols {
                return None;
            }
            i = i + 1;
        }
        Some(Matrix { cols, e })
    }

    /// The `n × n` identity.
    pub fn identity(n: usize) -> (r: Matrix)
        ensures
            r.wf(),
            r.cols == n,
            r@ == identity_grid(n as int),
    {
        let mut e: Vec<Vec<i64>> = Vec::new();
        let mut i: usize = 0;
        while i < n
            invariant
                i <= n,
                e.len() == i,
                forall|q: int| 0 <= q < i ==> (#[trigger] e[q]).len() == n,
                forall|q: int, j: int|
                    0 <= q < i && 0 <= j < n ==> e[q][j] == (if q == j { 1int } else { 0int }),
            decreases n - i,
        {
            let mut row: Vec<i64> = Vec::new();
            let mut j: usize = 0;
            while j < n
                invariant
                    j <= n,
                    i < n,
                    row.len() == j,
                    forall|q: int| 0 <= q < j ==> row[q] == (if i == q { 1int } else { 0int }),
                decreases n - j,
            {
                row.push(if i == j { 1 } else { 0 });
                j = j + 1;
            }
            e.push(row);
            i = i + 1;
        }
        let r = Matrix { cols: n, e };
        proof {
            assert(r@ =~~= identity_grid(n as int));
        }
        r
    }

    /// Rows become columns.
    pub fn transpose(&self) -> (r: Matrix)
        requires
            self.wf(),
        ensures
            r.wf(),
            r.cols == self.e.len(),
            r@ == transposed(self@, self.cols as int),
    {
        let mut e: Vec<Vec<i64>> = Vec::new();
        let mut j: usize = 0;
        while j < self.cols
            invariant
                self.wf(),
                j <= self.cols,
                e.len() == j,
                forall|q: int| 0 <= q < j ==> (#[trigger] e[q]).len() == self.e.len(),
                forall|q: int, i: int|
                    0 <= q < j && 0 <= i < self.e.len() ==> e[q][i] == self.e[i][q],
            decreases self.cols - j,
        {
            let mut row: Vec<i64> = Vec::new();
            let mut i: usize = 0;
            while i < self.e.len()
                invariant
                    self.wf(),
                    j < self.cols,
                    i <= self.e.len(),
                    row.len() == i,
                    forall|q: int| 0 <= q < i ==> row[q] == self.e[q][j as int],
                decreases self.e.len() - i,
            {
                row.push(self.e[i][j]);
                i = i + 1;
            }
            e.push(row);
            j = j + 1;
        }
        let r = Matrix { cols: self.e.len(), e };
        proof {
            assert(r@ =~~= transposed(self@, self.cols as int));
        }
        r
    }

    /// Determinant of a 2 × 2 matrix; other shapes have none here.
    pub fn determinant(&self) -> (r: Option<i128>)
        requires
            self.wf(),
        ensures
            (self.e.len() == 2 && self.cols == 2) <==> r.is_some(),
            r matches Some(d) ==> d == self@[0][0] * self@[1][1] - self@[0][1] * self@[1][0],
    {
        if self.e.len() != 2 || self.cols != 2 {
            return None;
        }
        let a = self.e[0][0];
        let b = self.e[0][1];
        let c = self.e[1][0];
        let d = self.e[1][1];
        proof {
            lemma_mul_i64_bounds(a as int, d as int);
            lemma_mul_i64_bounds(b as int, c as int);
        }
        Some((a as i128) * (d as i128) - (b as i128) * (c as i128))
    }

    /// The product `self · o`; the inner dimensions must agree.
    pub fn mul(&self, o: &Matrix) -> (r: Option<Matrix>)
        requires
            self.wf(),
            o.wf(),
            self.cols == o.e.len() ==> mul_fits(self@, o@, self.cols as int, o.cols as int),
        ensures
            (self.cols == o.e.len()) <==> r.is_some(),
            r matches Some(m) ==> m.wf() && m.cols == o.cols && m@ == mat_mul(
                self@,
                o@,
                self.cols as int,
                o.cols as int,
            ),
    {
        if self.cols != o.e.len() {
            return None;
        }
        let n = self.cols;
        let mut e: Vec<Vec<i64>> = Vec::new();
        let mut i: usize = 0;
        while i < self.e.len()
            invariant
                self.wf(),
                o.wf(),
                n == self.cols,
                n == o.e.len(),
                mul_fits(self@, o@, n as int, o.cols as int),
                i <= self.e.len(),
                e.len() == i,
                forall|q: int| 0 <= q < i ==> (#[trigger] e[q]).len() == o.cols,
                forall|q: int, j: int|
                    0 <= q < i && 0 <= j < o.cols ==> e[q][j] == partial_dot(
                        self@,
                        o@,
                        q,
                        j,
                        n as int,
                    ),
            decreases self.e.len() - i,
        {
            let mut row: Vec<i64> = Vec::new();
            let mut j: usize = 0;
            while j < o.cols
                invariant
                    self.wf(),
                    o.wf(),
                    n == self.cols,
                    n == o.e.len(),
                    mul_fits(self@, o@, n as int, o.cols as int),
                    i < self.e.len(),
                    j <= o.cols,
                    row.len() == j,
                    forall|q: int|
                        0 <= q < j ==> row[q] == partial_dot(self@, o@, i as int, q, n as int),
                decreases o.cols - j,
            {
                let mut acc: i128 = 0;
                let mut k: usize = 0;
                while k < n
                    invariant
                        self.wf(),
                        o.wf(),
                        n == self.cols,
                        n == o.e.len(),
                        mul_fits(self@, o@, n as int, o.cols as int),
                        i < self.e.len(),
                        j < o.cols,
                        k <= n,
                        acc == partial_dot(self@, o@, i as int, j as int, k as int),
                    decreases n - k,
                {
                    let x = self.e[i][k];
                    let y = o.e[k][j];
                    proof {
                        lemma_mul_i64_bounds(x as int, y as int);
                        assert(fits(partial_dot(self@, o@, i as int, j as int, k as int)));
                        assert(self@[i as int][k as int] == x);
                        assert(o@[k as int][j as int] == y);
                    }
                    acc = acc + (x as i128) * (y as i128);
                    k = k + 1;
                }
                proof {
                    assert(fits(partial_dot(self@, o@, i as int, j as int, n as int)));
                }
                row.push(acc as i64);
                j = j + 1;
            }
            e.push(row);
            i = i + 1;
        }
        let r = Matrix { cols: o.cols, e };
        proof {
            assert(r@ =~~= mat_mul(self@, o@, n as int, o.cols as int));
        }
        Some(r)
    }
}

proof fn lemma_dot_identity_right(a: Seq<Seq<int>>, i: int, j: int, k: int, n: int)
    requires
        0 <= j < n,
        0 <= k <= n,
    ensures
        partial_dot(a, identity_grid(n), i, j, k) == if j < k { a[i][j] } else { 0 },
    decreases k,
{
    if k > 0 {
        lemma_dot_identity_right(a, i, j, k - 1, n);
        assert(identity_grid(n)[k - 1][j] == if k - 1 == j { 1int } else { 0int });
    }
}

proof fn lemma_dot_identity_left(b: Seq<Seq<int>>, i: int, j: int, k: int, n: int)
    requires
        0 <= i < n,
        0 <= k <= n,
    ensures
        partial_dot(identity_grid(n), b, i, j, k) == if i < k { b[i][j] } else { 0 },
    decreases k,
{
    if k > 0 {
        lemma_dot_identity_left(b, i, j, k - 1, n);
        assert(identity_grid(n)[i][k - 1] == if i == k - 1 { 1int } else { 0int });
    }
}

/// The identity is neutral for the product on either side, for every
/// `r × c` matrix: `M · I_c == M` and `I_r · M == M`.
pub proof fn lemma_identity_law(m: Seq<Seq<int>>, rows: int, cols: int)
    requires
        is_grid(m, rows, cols),
        cols >= 0,
    ensures
        mat_mul(m, identity_grid(cols), cols, cols) == m,
        mat_mul(identity_grid(rows), m, rows, cols) == m,
{
    let right = mat_mul(m, identity_grid(cols), cols, cols);
    assert forall|i: int| 0 <= i < rows implies #[trigger] right[i] =~= m[i] by {
        assert forall|j: int| 0 <= j < cols implies right[i][j] == m[i][j] by {
            lemma_dot_identity_right(m, i, j, cols, cols);
        }
    }
    assert(right =~= m);
    let left = mat_mul(identity_grid(rows), m, rows, cols);
    assert forall|i: int| 0 <= i < rows implies #[trigger] left[i] =~= m[i] by {
        assert forall|j: int| 0 <= j < cols implies left[i][j] == m[i][j] by {
            lemma_dot_identity_left(m, i, j, rows, rows);
        }
    }
    assert(left =~= m);
}

proof fn lemma_partial_dot_sum(a: Seq<Seq<int>>, b: Seq<Seq<int>>, i: int, j: int, n: int)
    requires
        n >= 0,
    ensures
        partial_dot(a, b, i, j, n) == sum(|k: int| a[i][k] * b[k][j], 0, n),
    decreases n,
{
    if n > 0 {
        lemma_partial_dot_sum(a, b, i, j, n - 1);
    }
}

proof fn lemma_triple(x: int, y: int, z: int)
    ensures
        z * (x * y) == x * y * z,
        x * (y * z) == x * y * z,
{
    assert(z * (x * y) == x * y * z && x * (y * z) == x * y * z) by (nonlinear_arith);
}

/// The matrix product is associative: `(A · B) · C == A · (B · C)` for an
/// `r × n1` matrix `A`, an `n1 × n2` matrix `B` and an `n2 × n3` matrix `C`.
pub proof fn lemma_mul_associative(
    a: Seq<Seq<int>>,
    b: Seq<Seq<int>>,
    c: Seq<Seq<int>>,
    r: int,
    n1: int,
    n2: int,
    n3: int,
)
    requires
        is_grid(a, r, n1),
        is_grid(b, n1, n2),
        is_grid(c, n2, n3),
        n1 >= 0,
        n2 >= 0,
        n3 >= 0,
    ensures
        mat_mul(mat_mul(a, b, n1, n2), c, n2, n3) == mat_mul(a, mat_mul(b, c, n2, n3), n1, n3),
{
    let ab = mat_mul(a, b, n1, n2);
    let bc = mat_mul(b, c, n2, n3);
    let lhs = mat_mul(ab, c, n2, n3);
    let rhs = mat_mul(a, bc, n1, n3);
    assert forall|i: int| 0 <= i < r implies #[trigger] lhs[i] =~= rhs[i] by {
        assert forall|j: int| 0 <= j < n3 implies lhs[i][j] == rhs[i][j] by {
            let f = |k: int, l: int| a[i][k] * b[k][l] * c[l][j];
            // left: Σ_l (Σ_k a_ik b_kl) c_lj
            lemma_partial_dot_sum(ab, c, i, j, n2);
            assert forall|l: int| 0 <= l < n2 implies #[trigger] (ab[i][l] * c[l][j]) == col_sum(
                f,
                n1,
                l,
            ) by {
                let g = |k: int| a[i][k] * b[k][l];
                let z = c[l][j];
                lemma_partial_dot_sum(a, b, i, l, n1);
                lemma_sum_ext(|k: int| a[i][k] * b[k][l], g, 0, n1);
                lemma_sum_scale(g, z, 0, n1);
                assert forall|k: int| 0 <= k < n1 implies #[trigger] f(k, l) == z * g(k) by {
                    lemma_triple(a[i][k], b[k][l], z);
                }
                lemma_sum_ext(|k: int| f(k, l), |x: int| z * g(x), 0, n1);
                assert(ab[i][l] == sum(g, 0, n1));
                assert(ab[i][l] * z == z * sum(g, 0, n1)) by (nonlinear_arith)
                    requires ab[i][l] == sum(g, 0, n1);
            }
            lemma_sum_ext(
                |l: int| ab[i][l] * c[l][j],
                |l: int| col_sum(f, n1, l),
                0,
                n2,
            );
            // right: Σ_k a_ik (Σ_l b_kl c_lj)
            lemma_partial_dot_sum(a, bc, i, j, n1);
            assert forall|k: int| 0 <= k < n1 implies #[trigger] (a[i][k] * bc[k][j]) == row_sum(
                f,
                n2,
                k,
            ) by {
                let g = |l: int| b[k][l] * c[l][j];
                let z = a[i][k];
                lemma_partial_dot_sum(b, c, k, j, n2);
                lemma_sum_ext(|l: int| b[k][l] * c[l][j], g, 0, n2);
                lemma_sum_scale(g, z, 0, n2);
                assert forall|l: int| 0 <= l < n2 implies #[trigger] f(k, l) == z * g(l) by {
                    lemma_triple(z, b[k][l], c[l][j]);
                }
                lemma_sum_ext(|l: int| f(k, l), |x: int| z * g(x), 0, n2);
                assert(bc[k][j] == sum(g, 0, n2));
            }
            lemma_sum_ext(
                |k: int| a[i][k] * bc[k][j],
                |k: int| row_sum(f, n2, k),
                0,
                n1,
            );
            lemma_sum_swap(f, n1, n2);
        }
    }
    assert(lhs =~= rhs);
}

} // verus!
