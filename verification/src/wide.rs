//! Products that do not fit into one machine number.

use crate::distance::{is_root, lemma_root, root};
use vstd::prelude::*;

verus! {

/// How many values half of a machine number takes.
pub const HALF: u128 = 0x1_0000_0000_0000_0000;

/// A number of two parts: the upper counts how often all values of the lower are passed.
#[derive(Clone, Copy, Debug, PartialEq, Eq, Structural)]
pub struct Wide {
    pub upper: u128,
    pub lower: u128,
}

impl Wide {
    pub open spec fn value(self) -> int {
        self.upper * (HALF * HALF) + self.lower
    }

    /// Whether this number is not above another.
    pub fn at_most(&self, other: &Wide) -> (yes: bool)
        ensures
            yes == (self.value() <= other.value()),
    {
        proof {
            let m: int = HALF * HALF;
            assert(m == 0x1_0000_0000_0000_0000_0000_0000_0000_0000) by (nonlinear_arith)
                requires
                    m == 0x1_0000_0000_0000_0000int * 0x1_0000_0000_0000_0000int,
            ;
            assert(self.lower < m && other.lower < m);
            let (a, b) = (self.upper as int, other.upper as int);
            if a < b {
                assert((a + 1) * m <= b * m) by (nonlinear_arith)
                    requires
                        a + 1 <= b,
                        m > 0,
                ;
                assert((a + 1) * m == a * m + m) by (nonlinear_arith);
            } else if b < a {
                assert((b + 1) * m <= a * m) by (nonlinear_arith)
                    requires
                        b + 1 <= a,
                        m > 0,
                ;
                assert((b + 1) * m == b * m + m) by (nonlinear_arith);
            }
        }
        self.upper < other.upper || (self.upper == other.upper && self.lower <= other.lower)
    }
}

proof fn lemma_halves_product(x: int, y: int)
    requires
        0 <= x < HALF,
        0 <= y < HALF,
    ensures
        0 <= x * y <= (HALF - 1) * (HALF - 1),
{
    assert(0 <= x * y <= (HALF - 1) * (HALF - 1)) by (nonlinear_arith)
        requires
            0 <= x <= HALF - 1,
            0 <= y <= HALF - 1,
    ;
}

proof fn lemma_parts(
    a1: int,
    a0: int,
    b1: int,
    b0: int,
    h: int,
)
    ensures
        (a1 * h + a0) * (b1 * h + b0) == (a1 * b1) * (h * h) + (a1 * b0 + a0 * b1) * h + a0 * b0,
{
    assert((a1 * h + a0) * (b1 * h + b0) == (a1 * h) * (b1 * h) + (a1 * h) * b0 + a0 * (b1 * h)
        + a0 * b0) by (nonlinear_arith);
    assert((a1 * h) * (b1 * h) == (a1 * b1) * (h * h)) by (nonlinear_arith);
    assert((a1 * h) * b0 == (a1 * b0) * h) by (nonlinear_arith);
    assert(a0 * (b1 * h) == (a0 * b1) * h) by (nonlinear_arith);
    assert((a1 * b0 + a0 * b1) * h == (a1 * b0) * h + (a0 * b1) * h) by (nonlinear_arith);
}

/// The product of two numbers.
pub fn wide_product(a: u128, b: u128) -> (p: Wide)
    ensures
        p.value() == a * b,
{
    let (a1, a0): (u128, u128) = (a / HALF, a % HALF);
    let (b1, b0): (u128, u128) = (b / HALF, b % HALF);
    let ghost h: int = HALF as int;
    proof {
        assert(a == a1 * h + a0 && b == b1 * h + b0 && a1 < h && b1 < h && a0 < h && b0 < h);
        lemma_halves_product(a0 as int, b0 as int);
        lemma_halves_product(a0 as int, b1 as int);
        lemma_halves_product(a1 as int, b0 as int);
        lemma_halves_product(a1 as int, b1 as int);
        assert((h - 1) * (h - 1) == 0xffff_ffff_ffff_fffe_0000_0000_0000_0001int)
            by (nonlinear_arith)
            requires
                h == 0x1_0000_0000_0000_0000int,
        ;
    }
    let low: u128 = a0 * b0;
    let one: u128 = a0 * b1;
    let two: u128 = a1 * b0;
    let top: u128 = a1 * b1;
    let mid: u128 = low / HALF + one % HALF + two % HALF;
    proof {
        assert(one / HALF <= h - 2 && two / HALF <= h - 2) by (nonlinear_arith)
            requires
                one <= (h - 1) * (h - 1),
                two <= (h - 1) * (h - 1),
                h == HALF,
                h == 0x1_0000_0000_0000_0000int,
        ;
        assert(mid / HALF <= 2);
    }
    let upper: u128 = top + one / HALF + two / HALF + mid / HALF;
    let lower: u128 = (mid % HALF) * HALF + low % HALF;
    proof {
        lemma_parts(a1 as int, a0 as int, b1 as int, b0 as int, h);
        let (o1, o0) = (one / HALF, one % HALF);
        let (t1, t0) = (two / HALF, two % HALF);
        let (m1, m0) = (mid / HALF, mid % HALF);
        let (l1, l0) = (low / HALF, low % HALF);
        assert(one == o1 * h + o0 && two == t1 * h + t0 && mid == m1 * h + m0 && low == l1 * h
            + l0);
        lemma_gather(top as int, o1 as int, o0 as int, t1 as int, t0 as int, m1 as int, m0 as int, l1 as int, l0 as int, h);
    }
    Wide { upper, lower }
}

proof fn lemma_gather(
    top: int,
    o1: int,
    o0: int,
    t1: int,
    t0: int,
    m1: int,
    m0: int,
    l1: int,
    l0: int,
    h: int,
)
    requires
        m1 * h + m0 == l1 + o0 + t0,
    ensures
        (top + o1 + t1 + m1) * (h * h) + (m0 * h + l0) == top * (h * h) + ((t1 * h + t0) + (o1 * h
            + o0)) * h + (l1 * h + l0),
{
    let hh = h * h;
    assert((top + o1 + t1 + m1) * hh == top * hh + o1 * hh + t1 * hh + m1 * hh)
        by (nonlinear_arith);
    assert((t1 * h + t0 + (o1 * h + o0)) * h == t1 * hh + t0 * h + o1 * hh + o0 * h)
        by (nonlinear_arith)
        requires
            hh == h * h,
    ;
    assert((m1 * h + m0) * h == m1 * hh + m0 * h) by (nonlinear_arith)
        requires
            hh == h * h,
    ;
    assert((l1 + o0 + t0) * h == l1 * h + o0 * h + t0 * h) by (nonlinear_arith);
}

/// The whole part of the root of a square divided by a number.
pub fn root_of_quotient(a: u128, n: u128) -> (r: u128)
    requires
        0 < n,
        a * a < 0x100_0000_0000_0000_0000 * n,
    ensures
        r == root(a * a / n as int),
        is_root(a * a / n as int, r as int),
{
    let square = wide_product(a, a);
    let mut low: u128 = 0;
    let mut high: u128 = 0x10_0000_0000;
    proof {
        assert(0x10_0000_0000int * 0x10_0000_0000int == 0x100_0000_0000_0000_0000int)
            by (nonlinear_arith);
        assert(0 * n == 0) by (nonlinear_arith);
        assert(0 <= a * a) by (nonlinear_arith);
    }
    while high - low > 1
        invariant
            low < high <= 0x10_0000_0000,
            square.value() == a * a,
            (low * low) * n <= a * a < (high * high) * n,
        decreases high - low,
    {
        let mid: u128 = (low + high) / 2;
        proof {
            assert(0 <= mid * mid <= 0x100_0000_0000_0000_0000int) by (nonlinear_arith)
                requires
                    0 <= mid <= 0x10_0000_0000,
            ;
        }
        let product = wide_product(mid * mid, n);
        if product.at_most(&square) {
            low = mid;
        } else {
            high = mid;
        }
    }
    proof {
        assert(high == low + 1);
        let q = a * a / n as int;
        assert(low * low <= q < high * high) by (nonlinear_arith)
            requires
                q == a * a / n as int,
                n > 0,
                (low * low) * n <= a * a < (high * high) * n,
        ;
        lemma_root(q, low as int);
    }
    low
}

} // verus!
