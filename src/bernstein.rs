use vstd::arithmetic::power::pow;
use vstd::prelude::*;
use crate::bezier::{blend, lemma_pow_step};
use crate::sums::{lemma_sum_add, lemma_sum_ext, lemma_sum_first, lemma_sum_scale, lemma_sum_shift, sum};

verus! {

/// Binomial coefficient `C(n, i)` by Pascal's rule (zero for `i > n`).
pub open spec fn binom(n: nat, i: nat) -> int
    decreases n,
{
    if i == 0 {
        1
    } else if n == 0 {
        0
    } else {
        binom((n - 1) as nat, (i - 1) as nat) + binom((n - 1) as nat, i)
    }
}

/// The `i`-th Bernstein term of degree `n` at `t = k / m`, scaled by `m^n`:
/// `C(n, i) · k^i · (m - k)^(n - i) · c_i`.
pub open spec fn bern_term(c: Seq<int>, n: nat, k: int, m: int, i: int) -> int {
    binom(n, i as nat) * (pow(k, i as nat) * pow(m - k, (n - i) as nat)) * c[i]
}

/// The Bernstein form of the curve with control values `c` at `t = k / m`,
/// scaled by `m^n` where `n = c.len() - 1`:
/// `Σ_i C(n, i) · k^i · (m - k)^(n - i) · c_i`.
pub open spec fn bernstein(c: Seq<int>, k: int, m: int) -> int {
    sum(|i: int| bern_term(c, (c.len() - 1) as nat, k, m, i), 0, c.len() as int)
}

proof fn lemma_binom_above(n: nat, i: nat)
    requires
        i > n,
    ensures
        binom(n, i) == 0,
    decreases n,
{
    if n > 0 {
        lemma_binom_above((n - 1) as nat, (i - 1) as nat);
        lemma_binom_above((n - 1) as nat, i);
    }
}

proof fn lemma_regroup_left(u: int, cb: int, p: int, q: int, x: int)
    ensures
        u * (cb * (p * q) * x) == cb * (p * (u * q)) * x,
{
    assert(u * (cb * (p * q) * x) == cb * (p * (u * q)) * x) by (nonlinear_arith);
}

proof fn lemma_regroup_right(k: int, cb: int, p: int, q: int, x: int)
    ensures
        k * (cb * (p * q) * x) == cb * ((k * p) * q) * x,
{
    assert(k * (cb * (p * q) * x) == cb * ((k * p) * q) * x) by (nonlinear_arith);
}

proof fn lemma_pascal_term(a: int, b: int, w: int, x: int)
    ensures
        (a + b) * w * x == a * w * x + b * w * x,
{
    assert((a + b) * w * x == a * w * x + b * w * x) by (nonlinear_arith);
}

/// The blend recurrence and the Bernstein sum are the same polynomial: the
/// curve at `t = k / m` is `Σ_i C(n, i) · t^i · (1 - t)^(n - i) · P_i`
/// (everything scaled by `m^n`).
pub proof fn lemma_blend_is_bernstein(c: Seq<int>, k: int, m: int)
    requires
        c.len() >= 1,
    ensures
        blend(c, k, m) == bernstein(c, k, m),
    decreases c.len(),
{
    let n = (c.len() - 1) as nat;
    let u = m - k;
    let t = |i: int| bern_term(c, n, k, m, i);
    if n == 0 {
        assert(pow(k, 0) == 1 && pow(u, 0) == 1) by {
            vstd::arithmetic::power::lemma_pow0(k);
            vstd::arithmetic::power::lemma_pow0(u);
        }
        assert(binom(0, 0) == 1);
        assert(bern_term(c, n, k, m, 0) == 1 * (1 * 1) * c[0]);
        assert(sum(t, 0, 1) == sum(t, 0, 0) + t(0));
    } else {
        let l = c.drop_last();
        let r = c.subrange(1, c.len() as int);
        let n1 = (n - 1) as nat;
        lemma_blend_is_bernstein(l, k, m);
        lemma_blend_is_bernstein(r, k, m);
        let fl = |i: int| bern_term(l, n1, k, m, i);
        let fr = |i: int| bern_term(r, n1, k, m, i);
        lemma_sum_ext(|i: int| bern_term(l, (l.len() - 1) as nat, k, m, i), fl, 0, n as int);
        lemma_sum_ext(|i: int| bern_term(r, (r.len() - 1) as nat, k, m, i), fr, 0, n as int);
        assert(blend(l, k, m) == sum(fl, 0, n as int));
        assert(blend(r, k, m) == sum(fr, 0, n as int));
        // weight (m - k) on the left part: terms of degree n at indices 0..n
        let ga = |i: int| binom(n1, i as nat) * (pow(k, i as nat) * pow(u, (n - i) as nat)) * c[i];
        lemma_sum_scale(fl, u, 0, n as int);
        assert forall|i: int| 0 <= i < n implies u * fl(i) == #[trigger] ga(i) by {
            lemma_pow_step(u, (n1 - i) as nat);
            assert((n1 - i) as nat + 1 == (n - i) as nat);
            lemma_regroup_left(u, binom(n1, i as nat), pow(k, i as nat), pow(u, (n1 - i) as nat), c[i]);
        }
        lemma_sum_ext(|i: int| u * fl(i), ga, 0, n as int);
        // weight k on the right part: terms of degree n at indices 1..n+1
        let hb = |j: int| binom(n1, (j - 1) as nat) * (pow(k, j as nat) * pow(u, (n - j) as nat)) * c[j];
        lemma_sum_scale(fr, k, 0, n as int);
        assert forall|i: int| 0 <= i < n implies k * #[trigger] fr(i) == hb(i + 1) by {
            lemma_pow_step(k, i as nat);
            assert((n1 - i) as nat == (n - (i + 1)) as nat);
            lemma_regroup_right(k, binom(n1, i as nat), pow(k, i as nat), pow(u, (n1 - i) as nat), r[i]);
        }
        lemma_sum_ext(|i: int| k * fr(i), |i: int| hb(i + 1), 0, n as int);
        lemma_sum_shift(hb, 0, n as int);
        // the two parts add up term by term by Pascal's rule
        lemma_binom_above(n1, n);
        let w = pow(k, n) * pow(u, 0);
        assert(ga(n as int) == binom(n1, n) * w * c[n as int]);
        assert(0 * w * c[n as int] == 0) by (nonlinear_arith);
        assert(sum(ga, 0, n as int + 1) == sum(ga, 0, n as int) + ga(n as int));
        lemma_sum_first(ga, 0, n as int + 1);
        lemma_sum_first(t, 0, n as int + 1);
        assert forall|i: int| 1 <= i < n + 1 implies #[trigger] t(i) == ga(i) + hb(i) by {
            lemma_pascal_term(
                binom(n1, (i - 1) as nat),
                binom(n1, i as nat),
                pow(k, i as nat) * pow(u, (n - i) as nat),
                c[i],
            );
        }
        lemma_sum_ext(t, |i: int| ga(i) + hb(i), 1, n as int + 1);
        lemma_sum_add(ga, hb, 1, n as int + 1);
        assert(t(0) == ga(0));
        assert(u * blend(l, k, m) == sum(ga, 0, n as int));
        assert(k * blend(r, k, m) == sum(hb, 1, n as int + 1));
        assert(sum(t, 0, n as int + 1) == sum(ga, 0, n as int) + sum(hb, 1, n as int + 1));
        lemma_sum_ext(|i: int| bern_term(c, (c.len() - 1) as nat, k, m, i), t, 0, n as int + 1);
        assert(blend(c, k, m) == u * blend(l, k, m) + k * blend(r, k, m));
    }
}

} // verus!
