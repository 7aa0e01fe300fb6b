//! Distances in the plane, exactly.
//!
//! Squares of distances are fractions of whole numbers. Twice a distance is kept to
//! the whole nanometre below it, which is enough to compare it with a sum of widths.

use crate::wide::root_of_quotient;
use vstd::prelude::*;

verus! {

/// How far from the origin a point may lie: three metres, in nanometres. KiCad itself
/// keeps to what a whole number of nanometres in 32 bits can tell, a little over two.
pub const FAR: i64 = 3_000_000_000;

/// Whether a point is no further from the origin than `FAR`, either way.
pub open spec fn in_reach(p: (int, int)) -> bool {
    -FAR <= p.0 <= FAR && -FAR <= p.1 <= FAR
}

pub open spec fn point(p: (i64, i64)) -> (int, int) {
    (p.0 as int, p.1 as int)
}

/// Whether a point is within reach.
pub fn reachable(p: (i64, i64)) -> (yes: bool)
    ensures
        yes == in_reach(point(p)),
{
    -FAR <= p.0 && p.0 <= FAR && -FAR <= p.1 && p.1 <= FAR
}

/// The whole part of a square root.
pub open spec fn is_root(n: int, r: int) -> bool {
    0 <= r && r * r <= n && n < (r + 1) * (r + 1)
}

/// The whole part of a square root.
pub open spec fn root(n: int) -> int {
    choose|r: int| is_root(n, r)
}

proof fn lemma_roots_agree(n: int, r: int, s: int)
    requires
        is_root(n, r),
        is_root(n, s),
    ensures
        r == s,
{
    if r < s {
        assert((r + 1) * (r + 1) <= s * s) by (nonlinear_arith)
            requires
                0 <= r,
                r + 1 <= s,
        ;
    } else if s < r {
        assert((s + 1) * (s + 1) <= r * r) by (nonlinear_arith)
            requires
                0 <= s,
                s + 1 <= r,
        ;
    }
}

/// A whole number is the root of a number exactly when its square is not above that
/// number and the square of the next one is.
pub proof fn lemma_root(n: int, r: int)
    requires
        is_root(n, r),
    ensures
        root(n) == r,
{
    lemma_roots_agree(n, root(n), r);
}

/// The whole part of a square root.
pub fn square_root(n: u128) -> (r: u128)
    ensures
        r == root(n as int),
        is_root(n as int, r as int),
        r < 0x1_0000_0000_0000_0000,
{
    let mut low: u128 = 0;
    let mut high: u128 = 0x1_0000_0000_0000_0000;
    proof {
        assert(0x1_0000_0000_0000_0000int * 0x1_0000_0000_0000_0000int > u128::MAX) by (nonlinear_arith);
    }
    while high - low > 1
        invariant
            low < high <= 0x1_0000_0000_0000_0000,
            low * low <= n < high * high,
        decreases high - low,
    {
        let mid: u128 = (low + high) / 2;
        proof {
            assert(mid * mid <= u128::MAX) by (nonlinear_arith)
                requires
                    0 <= mid < 0x1_0000_0000_0000_0000,
            ;
        }
        if mid * mid <= n {
            low = mid;
        } else {
            high = mid;
        }
    }
    proof {
        assert(high == low + 1);
        lemma_root(n as int, low as int);
    }
    low
}

/// The square of the distance of two points.
pub open spec fn apart2(p: (int, int), q: (int, int)) -> int {
    (p.0 - q.0) * (p.0 - q.0) + (p.1 - q.1) * (p.1 - q.1)
}

/// How far along `a` to `b` a point lies, times the length of that segment.
pub open spec fn along(p: (int, int), a: (int, int), b: (int, int)) -> int {
    (p.0 - a.0) * (b.0 - a.0) + (p.1 - a.1) * (b.1 - a.1)
}

/// How far to the left of `a` to `b` a point lies, times the length of that segment.
pub open spec fn aside(p: (int, int), a: (int, int), b: (int, int)) -> int {
    (b.0 - a.0) * (p.1 - a.1) - (b.1 - a.1) * (p.0 - a.0)
}

/// The square of the distance of a point from a segment, as a fraction.
pub open spec fn gap2(p: (int, int), a: (int, int), b: (int, int)) -> (int, int) {
    let t = along(p, a, b);
    if t <= 0 {
        (apart2(p, a), 1)
    } else if t >= apart2(a, b) {
        (apart2(p, b), 1)
    } else {
        (aside(p, a, b) * aside(p, a, b), apart2(a, b))
    }
}

/// Twice the distance of a point from a segment, to the whole nanometre below.
pub open spec fn twice_gap(p: (int, int), a: (int, int), b: (int, int)) -> int {
    let g = gap2(p, a, b);
    root(4 * g.0 / g.1)
}

proof fn lemma_square_nonnegative(x: int)
    ensures
        0 <= x * x,
{
    assert(0 <= x * x) by (nonlinear_arith);
}

proof fn lemma_product_bound(x: int, y: int, m: int)
    requires
        -m <= x <= m,
        -m <= y <= m,
    ensures
        -(m * m) <= x * y <= m * m,
{
    assert(-(m * m) <= x * y <= m * m) by (nonlinear_arith)
        requires
            -m <= x <= m,
            -m <= y <= m,
    ;
}

proof fn lemma_bounds(p: (int, int), a: (int, int), b: (int, int))
    requires
        in_reach(p),
        in_reach(a),
        in_reach(b),
    ensures
        0 <= apart2(p, a) <= 72_000_000_000_000_000_000,
        0 <= apart2(p, b) <= 72_000_000_000_000_000_000,
        0 <= apart2(a, b) <= 72_000_000_000_000_000_000,
        -72_000_000_000_000_000_000 <= along(p, a, b) <= 72_000_000_000_000_000_000,
        -72_000_000_000_000_000_000 <= aside(p, a, b) <= 72_000_000_000_000_000_000,
{
    let m: int = 6_000_000_000;
    assert(m * m == 36_000_000_000_000_000_000);
    lemma_product_bound(p.0 - a.0, p.0 - a.0, m);
    lemma_product_bound(p.1 - a.1, p.1 - a.1, m);
    lemma_product_bound(p.0 - b.0, p.0 - b.0, m);
    lemma_product_bound(p.1 - b.1, p.1 - b.1, m);
    lemma_product_bound(a.0 - b.0, a.0 - b.0, m);
    lemma_product_bound(a.1 - b.1, a.1 - b.1, m);
    lemma_product_bound(p.0 - a.0, b.0 - a.0, m);
    lemma_product_bound(p.1 - a.1, b.1 - a.1, m);
    lemma_product_bound(b.0 - a.0, p.1 - a.1, m);
    lemma_product_bound(b.1 - a.1, p.0 - a.0, m);
    lemma_square_nonnegative(p.0 - a.0);
    lemma_square_nonnegative(p.1 - a.1);
    lemma_square_nonnegative(p.0 - b.0);
    lemma_square_nonnegative(p.1 - b.1);
    lemma_square_nonnegative(a.0 - b.0);
    lemma_square_nonnegative(a.1 - b.1);
}

/// The square of the distance of two points.
pub fn distance2(p: (i64, i64), q: (i64, i64)) -> (d: i128)
    requires
        in_reach(point(p)),
        in_reach(point(q)),
    ensures
        d == apart2(point(p), point(q)),
        0 <= d <= 72_000_000_000_000_000_000,
{
    proof {
        lemma_bounds(point(p), point(q), point(q));
        lemma_product_bound(p.0 - q.0, p.0 - q.0, 6_000_000_000);
        lemma_product_bound(p.1 - q.1, p.1 - q.1, 6_000_000_000);
    }
    let dx: i128 = p.0 as i128 - q.0 as i128;
    let dy: i128 = p.1 as i128 - q.1 as i128;
    dx * dx + dy * dy
}

/// Twice the distance of a point from a segment, to the whole nanometre below.
pub fn twice_from_segment(p: (i64, i64), a: (i64, i64), b: (i64, i64)) -> (d: i64)
    requires
        in_reach(point(p)),
        in_reach(point(a)),
        in_reach(point(b)),
    ensures
        d == twice_gap(point(p), point(a), point(b)),
        0 <= d <= 8 * FAR,
{
    proof {
        lemma_bounds(point(p), point(a), point(b));
        lemma_gap_bound(point(p), point(a), point(b));
        let m: int = 6_000_000_000;
        lemma_product_bound(p.0 - a.0, b.0 - a.0, m);
        lemma_product_bound(p.1 - a.1, b.1 - a.1, m);
        lemma_product_bound(b.0 - a.0, p.1 - a.1, m);
        lemma_product_bound(b.1 - a.1, p.0 - a.0, m);
    }
    let px: i128 = p.0 as i128 - a.0 as i128;
    let py: i128 = p.1 as i128 - a.1 as i128;
    let dx: i128 = b.0 as i128 - a.0 as i128;
    let dy: i128 = b.1 as i128 - a.1 as i128;
    let t: i128 = px * dx + py * dy;
    let length: i128 = distance2(a, b);
    let r: u128 = if t <= 0 {
        square_root(4 * distance2(p, a) as u128)
    } else if t >= length {
        square_root(4 * distance2(p, b) as u128)
    } else {
        let side: i128 = dx * py - dy * px;
        let twice: u128 = if side < 0 {
            2 * (-side) as u128
        } else {
            2 * side as u128
        };
        proof {
            assert(twice * twice == 4 * (side * side)) by (nonlinear_arith)
                requires
                    twice == 2 * side || twice == -2 * side,
            ;
            assert(288_000_000_000_000_000_000 * length < 0x100_0000_0000_0000_0000 * length)
                by (nonlinear_arith)
                requires
                    length > 0,
            ;
        }
        root_of_quotient(twice, length as u128)
    };
    proof {
        let g = gap2(point(p), point(a), point(b));
        let q = 4 * g.0 / g.1;
        assert(is_root(q, r as int)) by {
            if t <= 0 || t >= length {
                assert(4 * g.0 / 1 == 4 * g.0);
            }
        }
        lemma_root(q, r as int);
        assert(q <= 288_000_000_000_000_000_000) by (nonlinear_arith)
            requires
                q == 4 * g.0 / g.1,
                g.1 >= 1,
                g.0 <= 72_000_000_000_000_000_000 * g.1,
        ;
        assert(r <= 24_000_000_000) by (nonlinear_arith)
            requires
                r * r <= 288_000_000_000_000_000_000,
        ;
    }
    r as i64
}

proof fn lemma_swap(a: int, b: int, c: int, d: int)
    ensures
        (a * b) * (c * d) == (a * c) * (b * d),
{
    assert((a * b) * (c * d) == (a * c) * (b * d)) by (nonlinear_arith);
}

proof fn lemma_spread(a: int, b: int, c: int, d: int)
    ensures
        (a + b) * (c + d) == a * c + a * d + b * c + b * d,
{
    assert((a + b) * (c + d) == a * c + a * d + b * c + b * d) by (nonlinear_arith);
}

proof fn lemma_sum_squared(a: int, b: int)
    ensures
        (a + b) * (a + b) == a * a + 2 * (a * b) + b * b,
{
    assert((a + b) * (a + b) == a * a + 2 * (a * b) + b * b) by (nonlinear_arith);
}

proof fn lemma_difference_squared(a: int, b: int)
    ensures
        (a - b) * (a - b) == a * a - 2 * (a * b) + b * b,
{
    assert((a - b) * (a - b) == a * a - 2 * (a * b) + b * b) by (nonlinear_arith);
}

proof fn lemma_shared(k: int, a: int, b: int)
    ensures
        k * a + k * b == k * (a + b),
        k * a - k * b == k * (a - b),
{
    assert(k * a + k * b == k * (a + b)) by (nonlinear_arith);
    assert(k * a - k * b == k * (a - b)) by (nonlinear_arith);
}

/// For two vectors, the squares of the products along and aside add up to the
/// product of the squares of the lengths.
proof fn lemma_lagrange(px: int, py: int, dx: int, dy: int)
    ensures
        (px * px + py * py) * (dx * dx + dy * dy) == (px * dx + py * dy) * (px * dx + py * dy) + (dx
            * py - dy * px) * (dx * py - dy * px),
{
    lemma_spread(px * px, py * py, dx * dx, dy * dy);
    lemma_sum_squared(px * dx, py * dy);
    lemma_difference_squared(dx * py, dy * px);
    lemma_swap(px, dx, px, dx);
    lemma_swap(py, dy, py, dy);
    lemma_swap(dx, py, dx, py);
    lemma_swap(dy, px, dy, px);
    let e = (dx * py) * (dy * px);
    assert((px * dx) * (py * dy) == e) by (nonlinear_arith)
        requires
            e == (dx * py) * (dy * px),
    ;
    assert((dx * dx) * (py * py) == (py * py) * (dx * dx)) by (nonlinear_arith);
    assert((dy * dy) * (px * px) == (px * px) * (dy * dy)) by (nonlinear_arith);
}

proof fn lemma_gap_bound(p: (int, int), a: (int, int), b: (int, int))
    requires
        in_reach(p),
        in_reach(a),
        in_reach(b),
    ensures
        gap2(p, a, b).0 <= 72_000_000_000_000_000_000 * gap2(p, a, b).1,
{
    lemma_bounds(p, a, b);
    let t = along(p, a, b);
    if 0 < t < apart2(a, b) {
        let px = p.0 - a.0;
        let py = p.1 - a.1;
        let dx = b.0 - a.0;
        let dy = b.1 - a.1;
        lemma_lagrange(px, py, dx, dy);
        assert(apart2(a, b) == dx * dx + dy * dy) by (nonlinear_arith)
            requires
                dx == b.0 - a.0,
                dy == b.1 - a.1,
        ;
        lemma_square_nonnegative(t);
        assert(apart2(p, a) * apart2(a, b) <= 72_000_000_000_000_000_000 * apart2(a, b))
            by (nonlinear_arith)
            requires
                0 <= apart2(p, a) <= 72_000_000_000_000_000_000,
                0 <= apart2(a, b),
        ;
    }
}

/// No point of a segment is nearer than the distance from the segment: the point
/// that lies `s` of `n` parts along it is at least that far.
pub proof fn lemma_gap_is_least(p: (int, int), a: (int, int), b: (int, int), s: int, n: int)
    requires
        0 <= s <= n,
        0 < n,
    ensures
        ({
            let g = gap2(p, a, b);
            let x = n * (p.0 - a.0) - s * (b.0 - a.0);
            let y = n * (p.1 - a.1) - s * (b.1 - a.1);
            &&& 0 < g.1
            &&& n * n * g.0 <= (x * x + y * y) * g.1
        }),
{
    let g = gap2(p, a, b);
    let px = p.0 - a.0;
    let py = p.1 - a.1;
    let dx = b.0 - a.0;
    let dy = b.1 - a.1;
    let x = n * px - s * dx;
    let y = n * py - s * dy;
    let t = along(p, a, b);
    let l = apart2(a, b);
    let q = apart2(p, a);
    assert(l == dx * dx + dy * dy) by (nonlinear_arith)
        requires
            dx == b.0 - a.0,
            dy == b.1 - a.1,
            l == (a.0 - b.0) * (a.0 - b.0) + (a.1 - b.1) * (a.1 - b.1),
    ;
    lemma_square_nonnegative(dx);
    lemma_square_nonnegative(dy);
    let nn = n * n;
    let ns = n * s;
    let ss = s * s;
    lemma_difference_squared(n * px, s * dx);
    lemma_difference_squared(n * py, s * dy);
    lemma_swap(n, px, n, px);
    lemma_swap(n, py, n, py);
    lemma_swap(n, px, s, dx);
    lemma_swap(n, py, s, dy);
    lemma_swap(s, dx, s, dx);
    lemma_swap(s, dy, s, dy);
    lemma_shared(nn, px * px, py * py);
    lemma_shared(ns, px * dx, py * dy);
    lemma_shared(ss, dx * dx, dy * dy);
    assert(x * x + y * y == nn * q - 2 * (ns * t) + ss * l);
    lemma_square_nonnegative(s);
    assert(nn * g.0 <= (x * x + y * y) * g.1) by {
        if t <= 0 {
            assert(ns * t <= 0 && ss * l >= 0) by (nonlinear_arith)
                requires
                    t <= 0,
                    0 <= s,
                    0 < n,
                    0 <= l,
                    ns == n * s,
                    ss == s * s,
            ;
        } else if t >= l {
            lemma_difference_squared(px, dx);
            lemma_difference_squared(py, dy);
            assert(apart2(p, b) == q - 2 * t + l);
            lemma_beyond(n, s, q, t, l);
        } else {
            lemma_lagrange(px, py, dx, dy);
            lemma_beside(n, s, q, t, l);
        }
    }
}

proof fn lemma_beyond(n: int, s: int, q: int, t: int, l: int)
    requires
        0 <= s <= n,
        0 <= l <= t,
    ensures
        (n * n) * (q - 2 * t + l) <= (n * n) * q - 2 * ((n * s) * t) + (s * s) * l,
{
    let nn = n * n;
    let ns = n * s;
    let ss = s * s;
    assert(nn * (q - 2 * t + l) == nn * q - 2 * (nn * t) + nn * l) by (nonlinear_arith);
    assert(nn - ns >= 0 && 2 * (nn - ns) >= nn - ss) by (nonlinear_arith)
        requires
            0 <= s <= n,
            nn == n * n,
            ns == n * s,
            ss == s * s,
    ;
    assert(2 * ((nn - ns) * t) >= (nn - ss) * l) by (nonlinear_arith)
        requires
            nn - ns >= 0,
            2 * (nn - ns) >= nn - ss,
            0 <= l <= t,
    ;
    lemma_shared(t, nn, ns);
    lemma_shared(l, nn, ss);
    assert((nn - ns) * t == nn * t - ns * t) by (nonlinear_arith);
    assert((nn - ss) * l == nn * l - ss * l) by (nonlinear_arith);
}

proof fn lemma_beside(n: int, s: int, q: int, t: int, l: int)
    ensures
        (n * n) * (q * l - t * t) <= ((n * n) * q - 2 * ((n * s) * t) + (s * s) * l) * l,
{
    let nn = n * n;
    let ns = n * s;
    let ss = s * s;
    let e = n * t - s * l;
    lemma_square_nonnegative(e);
    lemma_difference_squared(n * t, s * l);
    lemma_swap(n, t, n, t);
    lemma_swap(n, t, s, l);
    lemma_swap(s, l, s, l);
    lemma_shared(nn, q * l, t * t);
    assert((nn * q - 2 * (ns * t) + ss * l) * l == nn * (q * l) - 2 * (ns * (t * l)) + ss * (l * l))
        by {
        assert((nn * q) * l == nn * (q * l)) by (nonlinear_arith);
        assert((ns * t) * l == ns * (t * l)) by (nonlinear_arith);
        assert((ss * l) * l == ss * (l * l)) by (nonlinear_arith);
        let u = nn * q;
        let v = ns * t;
        let w = ss * l;
        assert((u - 2 * v + w) * l == u * l - 2 * (v * l) + w * l) by (nonlinear_arith);
    }
}

/// Comparing twice a distance, cut to whole nanometres, with a whole number gives
/// what comparing the distance itself gives.
pub proof fn lemma_twice_gap_compares(p: (int, int), a: (int, int), b: (int, int), bound: int)
    requires
        bound >= 0,
    ensures
        ({
            let g = gap2(p, a, b);
            (twice_gap(p, a, b) < bound) == (4 * g.0 < bound * bound * g.1)
        }),
{
    let g = gap2(p, a, b);
    lemma_gap_is_least(p, a, b, 0, 1);
    lemma_square_nonnegative(p.0 - a.0);
    lemma_square_nonnegative(p.1 - a.1);
    lemma_square_nonnegative(p.0 - b.0);
    lemma_square_nonnegative(p.1 - b.1);
    lemma_square_nonnegative(aside(p, a, b));
    let n = 4 * g.0 / g.1;
    assert(n >= 0 && n * g.1 <= 4 * g.0 < (n + 1) * g.1) by (nonlinear_arith)
        requires
            n == 4 * g.0 / g.1,
            g.0 >= 0,
            g.1 > 0,
    ;
    lemma_has_root(n);
    let r = root(n);
    assert(is_root(n, r));
    if r < bound {
        assert((r + 1) * (r + 1) <= bound * bound) by (nonlinear_arith)
            requires
                0 <= r,
                r + 1 <= bound,
        ;
        assert((n + 1) * g.1 <= bound * bound * g.1) by (nonlinear_arith)
            requires
                n + 1 <= bound * bound,
                g.1 > 0,
        ;
    } else {
        assert(bound * bound <= r * r) by (nonlinear_arith)
            requires
                0 <= bound <= r,
        ;
        assert(bound * bound * g.1 <= n * g.1) by (nonlinear_arith)
            requires
                bound * bound <= n,
                g.1 > 0,
        ;
    }
}

/// Every number from zero on has a root.
pub proof fn lemma_has_root(n: int)
    requires
        n >= 0,
    ensures
        is_root(n, root(n)),
    decreases n,
{
    if n == 0 {
        assert(is_root(0, 0));
    } else {
        lemma_has_root(n - 1);
        let r = root(n - 1);
        if n < (r + 1) * (r + 1) {
            assert(is_root(n, r));
        } else {
            assert(n == (r + 1) * (r + 1));
            assert((r + 1) * (r + 1) < (r + 2) * (r + 2)) by (nonlinear_arith)
                requires
                    r >= 0,
            ;
            assert(is_root(n, r + 1));
        }
    }
}

/// Whether a point on the line through `p` and `q` lies between them.
pub open spec fn between(p: (int, int), q: (int, int), r: (int, int)) -> bool {
    &&& (p.0 <= r.0 <= q.0 || q.0 <= r.0 <= p.0)
    &&& (p.1 <= r.1 <= q.1 || q.1 <= r.1 <= p.1)
}

/// Whether two segments cross or touch.
pub open spec fn crossing(a: (int, int), b: (int, int), c: (int, int), d: (int, int)) -> bool {
    let o1 = aside(c, a, b);
    let o2 = aside(d, a, b);
    let o3 = aside(a, c, d);
    let o4 = aside(b, c, d);
    ||| (o1 > 0) != (o2 > 0) && (o3 > 0) != (o4 > 0)
    ||| o1 == 0 && between(a, b, c)
    ||| o2 == 0 && between(a, b, d)
    ||| o3 == 0 && between(c, d, a)
    ||| o4 == 0 && between(c, d, b)
}

pub open spec fn lesser(a: int, b: int) -> int {
    if a <= b {
        a
    } else {
        b
    }
}

/// Twice the distance of two segments, to the whole nanometre below.
pub open spec fn twice_apart(
    a: (int, int),
    b: (int, int),
    c: (int, int),
    d: (int, int),
) -> int {
    if crossing(a, b, c, d) {
        0
    } else {
        lesser(
            lesser(twice_gap(a, c, d), twice_gap(b, c, d)),
            lesser(twice_gap(c, a, b), twice_gap(d, a, b)),
        )
    }
}

fn side_of(p: (i64, i64), a: (i64, i64), b: (i64, i64)) -> (s: i128)
    requires
        in_reach(point(p)),
        in_reach(point(a)),
        in_reach(point(b)),
    ensures
        s == aside(point(p), point(a), point(b)),
{
    proof {
        lemma_bounds(point(p), point(a), point(b));
        let m: int = 6_000_000_000;
        lemma_product_bound(b.0 - a.0, p.1 - a.1, m);
        lemma_product_bound(b.1 - a.1, p.0 - a.0, m);
    }
    (b.0 as i128 - a.0 as i128) * (p.1 as i128 - a.1 as i128) - (b.1 as i128 - a.1 as i128) * (
    p.0 as i128 - a.0 as i128)
}

fn lies_between(p: (i64, i64), q: (i64, i64), r: (i64, i64)) -> (yes: bool)
    ensures
        yes == between(point(p), point(q), point(r)),
{
    ((p.0 <= r.0 && r.0 <= q.0) || (q.0 <= r.0 && r.0 <= p.0)) && ((p.1 <= r.1 && r.1 <= q.1) || (
    q.1 <= r.1 && r.1 <= p.1))
}

fn cross(a: (i64, i64), b: (i64, i64), c: (i64, i64), d: (i64, i64)) -> (yes: bool)
    requires
        in_reach(point(a)),
        in_reach(point(b)),
        in_reach(point(c)),
        in_reach(point(d)),
    ensures
        yes == crossing(point(a), point(b), point(c), point(d)),
{
    let o1: i128 = side_of(c, a, b);
    let o2: i128 = side_of(d, a, b);
    let o3: i128 = side_of(a, c, d);
    let o4: i128 = side_of(b, c, d);
    ((o1 > 0) != (o2 > 0) && (o3 > 0) != (o4 > 0)) || (o1 == 0 && lies_between(a, b, c)) || (o2 == 0
        && lies_between(a, b, d)) || (o3 == 0 && lies_between(c, d, a)) || (o4 == 0
        && lies_between(c, d, b))
}

fn smaller(a: i64, b: i64) -> (m: i64)
    ensures
        m == lesser(a as int, b as int),
{
    if a <= b {
        a
    } else {
        b
    }
}

/// Twice the distance of two segments, to the whole nanometre below.
pub fn twice_between_segments(
    a: (i64, i64),
    b: (i64, i64),
    c: (i64, i64),
    d: (i64, i64),
) -> (t: i64)
    requires
        in_reach(point(a)),
        in_reach(point(b)),
        in_reach(point(c)),
        in_reach(point(d)),
    ensures
        t == twice_apart(point(a), point(b), point(c), point(d)),
        0 <= t <= 8 * FAR,
{
    if cross(a, b, c, d) {
        0
    } else {
        smaller(
            smaller(twice_from_segment(a, c, d), twice_from_segment(b, c, d)),
            smaller(twice_from_segment(c, a, b), twice_from_segment(d, a, b)),
        )
    }
}

} // verus!
