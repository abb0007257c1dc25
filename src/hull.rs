use vstd::prelude::*;
use crate::vec2::Vec2;

verus! {

/// The angle `atan2(dx, dy)` of an offset `(dx, dy)` is positive: the offset
/// points into the half-plane `dx > 0`, or straight down the negative y axis
/// (angle π).
pub open spec fn turn_positive(dx: int, dy: int) -> bool {
    dx > 0 || (dx == 0 && dy < 0)
}

/// For two offsets of positive angle, `atan2(dxa, dya) > atan2(dxb, dyb)`.
pub open spec fn turn_greater(dxa: int, dya: int, dxb: int, dyb: int) -> bool {
    dyb * dxa > dxb * dya
}

/// The index of the first point with the least x, ties broken by the least
/// y, among the first `i` points (`0` when `i == 0`).
pub open spec fn start_scan(p: Seq<Vec2<i64>>, i: int) -> int
    decreases i,
{
    if i <= 0 {
        0
    } else {
        let s = start_scan(p, i - 1);
        if p[i - 1].x < p[s].x || (p[i - 1].x == p[s].x && p[i - 1].y < p[s].y) {
            i - 1
        } else {
            s
        }
    }
}

/// Scans the first `j` waiting indices `u` from the point `cur`: the result
/// says whether some offset of positive angle was seen, and the position in
/// `u` of the first one of greatest angle (`0` when none was seen).
pub open spec fn pick_scan(p: Seq<Vec2<i64>>, cur: int, u: Seq<usize>, j: int) -> (bool, int)
    decreases j,
{
    if j <= 0 {
        (false, 0)
    } else {
        let prev = pick_scan(p, cur, u, j - 1);
        let c = u[j - 1] as int;
        let b = u[prev.1] as int;
        let dx = p[c].x - p[cur].x;
        let dy = p[c].y - p[cur].y;
        let bx = p[b].x - p[cur].x;
        let by = p[b].y - p[cur].y;
        if turn_positive(dx, dy) && (!prev.0 || turn_greater(dx, dy, bx, by)) {
            (true, j - 1)
        } else {
            prev
        }
    }
}

/// Moves the chosen waiting index to the end of `sorted` until none waits.
/// The waiting list loses an entry as `Vec::swap_remove` does: the last
/// entry takes the place of the chosen one.
pub open spec fn hull_run(p: Seq<Vec2<i64>>, sorted: Seq<usize>, u: Seq<usize>) -> Seq<usize>
    decreases u.len(),
{
    if u.len() == 0 || sorted.len() == 0 {
        sorted
    } else {
        let b = pick_scan(p, sorted.last() as int, u, u.len() as int).1;
        if 0 <= b < u.len() {
            hull_run(p, sorted.push(u[b]), u.update(b, u.last()).drop_last())
        } else {
            sorted
        }
    }
}

/// The indices `0..n` in order.
pub open spec fn all_indices(n: int) -> Seq<usize> {
    Seq::new(n as nat, |i: int| i as usize)
}

/// The order in which the points are visited: from the start point, each
/// step goes to the waiting point of greatest `atan2(dx, dy)` above zero.
pub open spec fn hull_order(p: Seq<Vec2<i64>>) -> Seq<usize> {
    let s = start_scan(p, p.len() as int);
    let u0 = all_indices(p.len() as int);
    hull_run(p, seq![s as usize], u0.update(s, u0.last()).drop_last())
}

/// `s` lists each of `0..n` exactly once.
pub open spec fn is_perm(s: Seq<usize>, n: int) -> bool {
    &&& s.len() == n
    &&& forall|i: int| 0 <= i < s.len() ==> (#[trigger] s[i] as int) < n
    &&& forall|i: int, j: int| 0 <= i < s.len() && 0 <= j < s.len() && i != j ==> s[i] != s[j]
}

/// Index of the starting point: the least x, ties broken by the least y.
fn start_index(p: &Vec<Vec2<i64>>) -> (r: usize)
    requires
        p.len() >= 1,
    ensures
        r == start_scan(p@, p.len() as int),
        r < p.len(),
{
    let mut s: usize = 0;
    let mut i: usize = 0;
    while i < p.len()
        invariant
            i <= p.len(),
            s == start_scan(p@, i as int),
            s < p.len(),
        decreases p.len() - i,
    {
        if p[i].x < p[s].x || (p[i].x == p[s].x && p[i].y < p[s].y) {
            s = i;
        }
        i = i + 1;
    }
    s
}

/// Position in `u` of the waiting point to visit next from `cur`.
fn pick_next(p: &Vec<Vec2<i64>>, cur: usize, u: &Vec<usize>) -> (r: usize)
    requires
        cur < p.len(),
        u.len() >= 1,
        forall|j: int| 0 <= j < u.len() ==> (#[trigger] u[j] as int) < p.len(),
    ensures
        r == pick_scan(p@, cur as int, u@, u.len() as int).1,
        r < u.len(),
{
    let mut found = false;
    let mut best: usize = 0;
    let mut bx: i128 = 0;
    let mut by: i128 = 0;
    let mut j: usize = 0;
    let ghost pc = p[cur as int];
    while j < u.len()
        invariant
            j <= u.len(),
            u.len() >= 1,
            cur < p.len(),
            pc == p[cur as int],
            forall|q: int| 0 <= q < u.len() ==> (#[trigger] u[q] as int) < p.len(),
                (found, best as int) == pick_scan(p@, cur as int, u@, j as int),
            best < u.len(),
            found ==> bx == p[u[best as int] as int].x - pc.x,
            found ==> by == p[u[best as int] as int].y - pc.y,
        decreases u.len() - j,
    {
        let c = u[j];
        let pj = p[c];
        let dx: i128 = pj.x as i128 - p[cur].x as i128;
        let dy: i128 = pj.y as i128 - p[cur].y as i128;
        let positive = dx > 0 || (dx == 0 && dy < 0);
        let mut take = false;
        if positive {
            if !found {
                take = true;
            } else {
                take = product_gt(by, dx, bx, dy);
            }
        }
        if take {
            found = true;
            best = j;
            bx = dx;
            by = dy;
        }
        j = j + 1;
    }
    best
}

/// Largest magnitude of a difference of two `i64` values: `2^64 - 1`.
pub open spec fn offset_bound() -> int {
    0xFFFF_FFFF_FFFF_FFFF
}

/// `a · b` as a sign and a magnitude; the magnitude is below `2^128`.
fn signed_product(a: i128, b: i128) -> (r: (bool, u128))
    requires
        -offset_bound() <= a <= offset_bound(),
        -offset_bound() <= b <= offset_bound(),
    ensures
        r.0 ==> r.1 > 0,
        (if r.0 { -(r.1 as int) } else { r.1 as int }) == a * b,
{
    let ma: u128 = if a < 0 { (0 - a) as u128 } else { a as u128 };
    let mb: u128 = if b < 0 { (0 - b) as u128 } else { b as u128 };
    proof {
        assert(ma * mb <= offset_bound() * offset_bound()) by (nonlinear_arith)
            requires 0 <= ma <= offset_bound(), 0 <= mb <= offset_bound();
        assert(0xFFFF_FFFF_FFFF_FFFFint * 0xFFFF_FFFF_FFFF_FFFFint <= u128::MAX);
    }
    let m = ma * mb;
    let neg = m > 0 && ((a < 0) != (b < 0));
    proof {
        if neg {
            assert(a * b == -(ma * mb)) by (nonlinear_arith)
                requires (a < 0 && b >= 0 && ma == -a && mb == b) || (a >= 0 && b < 0 && ma == a
                    && mb == -b);
        } else if m == 0 {
            assert(a * b == 0) by (nonlinear_arith)
                requires ma * mb == 0, ma == a || ma == -a, mb == b || mb == -b;
        } else {
            assert(a * b == ma * mb) by (nonlinear_arith)
                requires (a < 0 && b < 0 && ma == -a && mb == -b) || (a >= 0 && b >= 0 && ma == a
                    && mb == b);
        }
    }
    (neg, m)
}

/// `a · b > c · e`, exact for offsets between `i64` values.
fn product_gt(a: i128, b: i128, c: i128, e: i128) -> (r: bool)
    requires
        -offset_bound() <= a <= offset_bound(),
        -offset_bound() <= b <= offset_bound(),
        -offset_bound() <= c <= offset_bound(),
        -offset_bound() <= e <= offset_bound(),
    ensures
        r == (a * b > c * e),
{
    let (n1, m1) = signed_product(a, b);
    let (n2, m2) = signed_product(c, e);
    (!n1 && !n2 && m1 > m2) || (!n1 && n2) || (n1 && n2 && m1 < m2)
}

/// The order in which the control points are visited: starting at the point
/// of least x (then least y), each step moves to the waiting point of
/// greatest positive angle `atan2(dx, dy)`, the first such in waiting order;
/// when no waiting point has a positive angle, the first waiting point is
/// taken. The order is a permutation of the indices (see
/// `lemma_hull_order_is_permutation`), but it need not trace the convex hull:
/// steps whose best angle is zero or negative fall back to waiting order.
pub fn hull_indices(p: &Vec<Vec2<i64>>) -> (r: Vec<usize>)
    requires
        p.len() >= 1,
    ensures
        r@ == hull_order(p@),
{
    let n = p.len();
    let st = start_index(p);
    let mut waiting: Vec<usize> = Vec::new();
    let mut i: usize = 0;
    while i < n
        invariant
            i <= n,
            n == p.len(),
            waiting@ == all_indices(i as int),
        decreases n - i,
    {
        waiting.push(i);
        proof {
            assert(waiting@ =~= all_indices(i + 1));
        }
        i = i + 1;
    }
    let first = waiting.swap_remove(st);
    let mut sorted: Vec<usize> = Vec::new();
    sorted.push(first);
    proof {
        assert(sorted@ =~= seq![st]);
    }
    while waiting.len() > 0
        invariant
            n == p.len(),
                sorted.len() >= 1,
            forall|j: int| 0 <= j < sorted.len() ==> (#[trigger] sorted[j] as int) < n,
            forall|j: int| 0 <= j < waiting.len() ==> (#[trigger] waiting[j] as int) < n,
            hull_run(p@, sorted@, waiting@) == hull_order(p@),
        decreases waiting.len(),
    {
        let cur = sorted[sorted.len() - 1];
        let b = pick_next(p, cur, &waiting);
        let ghost before = waiting@;
        let v = waiting.swap_remove(b);
        sorted.push(v);
        proof {
            assert(sorted@.drop_last().last() == cur);
            assert forall|j: int| 0 <= j < waiting.len() implies (#[trigger] waiting[j] as int) < n by {
                if j == b {
                    assert(waiting[j] == before.last());
                } else {
                    assert(waiting[j] == before[j]);
                }
            }
        }
    }
    proof {
        assert(hull_run(p@, sorted@, waiting@) == sorted@);
    }
    sorted
}

/// The control points in visiting order (see `hull_indices`).
pub fn hull_points(p: &Vec<Vec2<i64>>) -> (r: Vec<Vec2<i64>>)
    requires
        p.len() >= 1,
    ensures
        r.len() == p.len(),
        forall|i: int| 0 <= i < r.len() ==> #[trigger] r[i] == p[hull_order(p@)[i] as int],
{
    let idx = hull_indices(p);
    proof {
        lemma_hull_order_is_permutation(p@);
    }
    let mut out: Vec<Vec2<i64>> = Vec::new();
    let mut i: usize = 0;
    while i < idx.len()
        invariant
            i <= idx.len(),
            idx@ == hull_order(p@),
            is_perm(hull_order(p@), p.len() as int),
            out.len() == i,
            forall|j: int| 0 <= j < i ==> #[trigger] out[j] == p[hull_order(p@)[j] as int],
        decreases idx.len() - i,
    {
        out.push(p[idx[i]]);
        i = i + 1;
    }
    out
}

proof fn lemma_start_in_range(p: Seq<Vec2<i64>>, i: int)
    requires
        i >= 1,
    ensures
        0 <= start_scan(p, i) < i,
    decreases i,
{
    if i > 1 {
        lemma_start_in_range(p, i - 1);
    } else {
        assert(start_scan(p, 0) == 0);
    }
}

proof fn lemma_pick_in_range(p: Seq<Vec2<i64>>, cur: int, u: Seq<usize>, j: int)
    requires
        j >= 1,
    ensures
        0 <= pick_scan(p, cur, u, j).1 < j,
    decreases j,
{
    if j > 1 {
        lemma_pick_in_range(p, cur, u, j - 1);
    } else {
        assert(pick_scan(p, cur, u, 0).1 == 0);
    }
}

/// Where the entry at position `q` after a move stood before it.
spec fn moved_from(sl: int, ul: int, b: int, q: int) -> int {
    if q < sl {
        q
    } else if q == sl {
        sl + b
    } else if q - sl - 1 == b {
        sl + ul - 1
    } else {
        q - 1
    }
}

/// Moving one waiting index to the sorted list keeps the two lists,
/// together, a permutation.
proof fn lemma_move_keeps_perm(s: Seq<usize>, u: Seq<usize>, b: int, n: int)
    requires
        is_perm(s + u, n),
        0 <= b < u.len(),
    ensures
        is_perm(s.push(u[b]) + u.update(b, u.last()).drop_last(), n),
{
    let a = s + u;
    let c = s.push(u[b]) + u.update(b, u.last()).drop_last();
    let sl = s.len() as int;
    let ul = u.len() as int;
    assert forall|q: int| 0 <= q < c.len() implies 0 <= #[trigger] moved_from(sl, ul, b, q) < a.len()
        && c[q] == a[moved_from(sl, ul, b, q)] by {}
    assert forall|i: int| 0 <= i < c.len() implies (#[trigger] c[i] as int) < n by {
        assert(c[i] == a[moved_from(sl, ul, b, i)]);
    }
    assert forall|i: int, j: int| 0 <= i < c.len() && 0 <= j < c.len() && i != j implies c[i]
        != c[j] by {
        assert(c[i] == a[moved_from(sl, ul, b, i)]);
        assert(c[j] == a[moved_from(sl, ul, b, j)]);
    }
}

proof fn lemma_run_perm(p: Seq<Vec2<i64>>, s: Seq<usize>, u: Seq<usize>, n: int)
    requires
        is_perm(s + u, n),
        s.len() >= 1,
    ensures
        is_perm(hull_run(p, s, u), n),
    decreases u.len(),
{
    if u.len() == 0 {
        assert(s + u =~= s);
    } else {
        let b = pick_scan(p, s.last() as int, u, u.len() as int).1;
        lemma_pick_in_range(p, s.last() as int, u, u.len() as int);
        lemma_move_keeps_perm(s, u, b, n);
        lemma_run_perm(p, s.push(u[b]), u.update(b, u.last()).drop_last(), n);
    }
}

/// The visiting order is a permutation of the point indices: every control
/// point appears exactly once, none is dropped.
pub proof fn lemma_hull_order_is_permutation(p: Seq<Vec2<i64>>)
    requires
        1 <= p.len() <= usize::MAX,
    ensures
        is_perm(hull_order(p), p.len() as int),
{
    let n = p.len() as int;
    let st = start_scan(p, n);
    let u0 = all_indices(n);
    lemma_start_in_range(p, n);
    let e = Seq::<usize>::empty();
    assert(e + u0 =~= u0);
    assert(is_perm(u0, n));
    lemma_move_keeps_perm(e, u0, st, n);
    assert(e.push(u0[st]) =~= seq![st as usize]);
    lemma_run_perm(p, seq![st as usize], u0.update(st, u0.last()).drop_last(), n);
}

} // verus!
