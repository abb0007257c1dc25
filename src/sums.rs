use vstd::prelude::*;

verus! {

/// `Σ_{lo <= i < hi} f(i)`.
pub open spec fn sum(f: spec_fn(int) -> int, lo: int, hi: int) -> int
    decreases hi - lo,
{
    if hi <= lo {
        0
    } else {
        sum(f, lo, hi - 1) + f(hi - 1)
    }
}

/// Sums of functions that agree on the range are equal.
pub proof fn lemma_sum_ext(f: spec_fn(int) -> int, g: spec_fn(int) -> int, lo: int, hi: int)
    requires
        forall|i: int| lo <= i < hi ==> #[trigger] f(i) == g(i),
    ensures
        sum(f, lo, hi) == sum(g, lo, hi),
    decreases hi - lo,
{
    if hi > lo {
        lemma_sum_ext(f, g, lo, hi - 1);
    }
}

/// A sum of pointwise sums splits in two.
pub proof fn lemma_sum_add(f: spec_fn(int) -> int, g: spec_fn(int) -> int, lo: int, hi: int)
    ensures
        sum(|i: int| f(i) + g(i), lo, hi) == sum(f, lo, hi) + sum(g, lo, hi),
    decreases hi - lo,
{
    if hi > lo {
        lemma_sum_add(f, g, lo, hi - 1);
    }
}

/// A constant factor comes out of a sum.
pub proof fn lemma_sum_scale(f: spec_fn(int) -> int, a: int, lo: int, hi: int)
    ensures
        sum(|i: int| a * f(i), lo, hi) == a * sum(f, lo, hi),
    decreases hi - lo,
{
    if hi > lo {
        lemma_sum_scale(f, a, lo, hi - 1);
        assert(a * (sum(f, lo, hi - 1) + f(hi - 1)) == a * sum(f, lo, hi - 1) + a * f(hi - 1))
            by (nonlinear_arith);
    }
}

/// Shifting the argument by one shifts the range.
pub proof fn lemma_sum_shift(f: spec_fn(int) -> int, lo: int, hi: int)
    ensures
        sum(|i: int| f(i + 1), lo, hi) == sum(f, lo + 1, hi + 1),
    decreases hi - lo,
{
    if hi > lo {
        lemma_sum_shift(f, lo, hi - 1);
    }
}

/// The first term splits off a non-empty sum.
pub proof fn lemma_sum_first(f: spec_fn(int) -> int, lo: int, hi: int)
    requires
        lo < hi,
    ensures
        sum(f, lo, hi) == f(lo) + sum(f, lo + 1, hi),
    decreases hi - lo,
{
    if hi - 1 > lo {
        lemma_sum_first(f, lo, hi - 1);
    } else {
        assert(sum(f, lo, lo) == 0);
        assert(sum(f, lo + 1, hi) == 0);
    }
}

/// A sum of zeros is zero.
pub proof fn lemma_sum_zero(f: spec_fn(int) -> int, lo: int, hi: int)
    requires
        forall|i: int| lo <= i < hi ==> #[trigger] f(i) == 0,
    ensures
        sum(f, lo, hi) == 0,
    decreases hi - lo,
{
    if hi > lo {
        lemma_sum_zero(f, lo, hi - 1);
    }
}

/// Row sums of `f` over `0..kn` at column `l`.
pub open spec fn col_sum(f: spec_fn(int, int) -> int, kn: int, l: int) -> int {
    sum(|k: int| f(k, l), 0, kn)
}

/// Column sums of `f` over `0..ln` at row `k`.
pub open spec fn row_sum(f: spec_fn(int, int) -> int, ln: int, k: int) -> int {
    sum(|l: int| f(k, l), 0, ln)
}

/// The order of summation over a rectangle does not matter.
pub proof fn lemma_sum_swap(f: spec_fn(int, int) -> int, kn: int, ln: int)
    ensures
        sum(|l: int| col_sum(f, kn, l), 0, ln) == sum(|k: int| row_sum(f, ln, k), 0, kn),
    decreases ln,
{
    if ln <= 0 {
        assert forall|k: int| 0 <= k < kn implies #[trigger] row_sum(f, ln, k) == 0 by {}
        lemma_sum_zero(|k: int| row_sum(f, ln, k), 0, kn);
    } else {
        lemma_sum_swap(f, kn, ln - 1);
        let prev = |k: int| row_sum(f, ln - 1, k);
        let last = |k: int| f(k, ln - 1);
        lemma_sum_add(prev, last, 0, kn);
        assert forall|k: int| 0 <= k < kn implies #[trigger] row_sum(f, ln, k) == prev(k) + last(k) by {}
        lemma_sum_ext(|k: int| row_sum(f, ln, k), |k: int| prev(k) + last(k), 0, kn);
        lemma_sum_ext(|k: int| row_sum(f, ln - 1, k), prev, 0, kn);
        assert(col_sum(f, kn, ln - 1) == sum(last, 0, kn)) by {
            lemma_sum_ext(|k: int| f(k, ln - 1), last, 0, kn);
        }
        assert(sum(|l: int| col_sum(f, kn, l), 0, ln) == sum(|l: int| col_sum(f, kn, l), 0, ln - 1)
            + col_sum(f, kn, ln - 1));
    }
}

} // verus!
