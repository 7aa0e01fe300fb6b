//! What checking a trace is for: copper that would overlap is a collision, and a trace
//! that keeps its distance is let through.

use crate::clearance::{
    clearance_report, ended, given_points, pad_remark, pad_remarks, remarks, status, trace_remark, trace_remarks, Proposal,
};
use crate::distance::{
    aside, between, crossing, gap2, lemma_gap_is_least, lemma_twice_gap_compares, point, twice_apart,
    twice_gap,
};
use crate::pads::PcbPad;
use crate::strings::decimal;
use crate::traces::SegmentModel;
use crate::units::thousandths;
use vstd::prelude::*;

verus! {

/// The width of a pad that counts as round: its longer side.
pub open spec fn longer_side(pad: PcbPad) -> int {
    if pad.width >= pad.height {
        pad.width as int
    } else {
        pad.height as int
    }
}

/// Whether a trace is none of the proposal's business: on another layer, or on its net.
pub open spec fn is_aside(s: SegmentModel, p: Proposal) -> bool {
    s.layer != p.layer@ || (p.net@.len() > 0 && s.net == p.net@)
}

proof fn lemma_pads_told(pads: Seq<PcbPad>, p: Proposal)
    ensures
        (pad_remarks(pads, p).0.len() > 0) == exists|i: int|
            0 <= i < pads.len() && twice_gap(
                ((#[trigger] pads[i]).x as int, pads[i].y as int),
                point(p.from),
                point(p.to),
            ) < p.width + longer_side(pads[i]),
        (pad_remarks(pads, p).0.len() + pad_remarks(pads, p).1.len() > 0) ==> exists|i: int|
            0 <= i < pads.len() && {
                let twice = twice_gap(
                    ((#[trigger] pads[i]).x as int, pads[i].y as int),
                    point(p.from),
                    point(p.to),
                );
                twice < p.width + longer_side(pads[i]) || twice < p.width + longer_side(pads[i]) + 2
                    * p.clearance
            },
        forall|i: int|
            0 <= i < pads.len() && twice_gap(
                ((#[trigger] pads[i]).x as int, pads[i].y as int),
                point(p.from),
                point(p.to),
            ) < p.width + longer_side(pads[i]) + 2 * p.clearance ==> pad_remarks(pads, p).0.len()
                + pad_remarks(pads, p).1.len() > 0,
    decreases pads.len(),
{
    if pads.len() > 0 {
        let front = pads.drop_last();
        lemma_pads_told(front, p);
        assert forall|i: int| 0 <= i < front.len() implies #[trigger] front[i] == pads[i] by {}
        let last = pads[pads.len() - 1];
        assert(pad_remarks(pads, p).0.len() == pad_remarks(front, p).0.len() + pad_remark(
            last,
            p,
        ).0.len());
        assert(pad_remarks(pads, p).1.len() == pad_remarks(front, p).1.len() + pad_remark(
            last,
            p,
        ).1.len());
        if pad_remarks(front, p).0.len() > 0 {
            let i = choose|i: int|
                0 <= i < front.len() && twice_gap(
                    ((#[trigger] front[i]).x as int, front[i].y as int),
                    point(p.from),
                    point(p.to),
                ) < p.width + longer_side(front[i]);
            assert(front[i] == pads[i]);
        }
        if exists|i: int|
            0 <= i < pads.len() && twice_gap(
                ((#[trigger] pads[i]).x as int, pads[i].y as int),
                point(p.from),
                point(p.to),
            ) < p.width + longer_side(pads[i]) {
            let i = choose|i: int|
                0 <= i < pads.len() && twice_gap(
                    ((#[trigger] pads[i]).x as int, pads[i].y as int),
                    point(p.from),
                    point(p.to),
                ) < p.width + longer_side(pads[i]);
            if i < front.len() {
                assert(front[i] == pads[i]);
            }
        }
        if pad_remarks(front, p).0.len() + pad_remarks(front, p).1.len() > 0 {
            let i = choose|i: int|
                0 <= i < front.len() && {
                    let twice = twice_gap(
                        ((#[trigger] front[i]).x as int, front[i].y as int),
                        point(p.from),
                        point(p.to),
                    );
                    twice < p.width + longer_side(front[i]) || twice < p.width + longer_side(
                        front[i],
                    ) + 2 * p.clearance
                };
            assert(front[i] == pads[i]);
        }
        assert forall|i: int|
            0 <= i < pads.len() && twice_gap(
                ((#[trigger] pads[i]).x as int, pads[i].y as int),
                point(p.from),
                point(p.to),
            ) < p.width + longer_side(pads[i]) + 2 * p.clearance implies pad_remarks(
            pads,
            p,
        ).0.len() + pad_remarks(pads, p).1.len() > 0 by {
            if i < front.len() {
                assert(front[i] == pads[i]);
            }
        }
    }
}

proof fn lemma_traces_told(list: Seq<SegmentModel>, p: Proposal)
    ensures
        (trace_remarks(list, p).0.len() > 0) == exists|i: int|
            0 <= i < list.len() && !is_aside(#[trigger] list[i], p) && twice_apart(
                point(p.from),
                point(p.to),
                list[i].from,
                list[i].to,
            ) < p.width + list[i].width,
        (trace_remarks(list, p).0.len() + trace_remarks(list, p).1.len() > 0) ==> exists|i: int|
            0 <= i < list.len() && !is_aside(#[trigger] list[i], p) && {
                let twice = twice_apart(point(p.from), point(p.to), list[i].from, list[i].to);
                twice < p.width + list[i].width || twice < p.width + list[i].width + 2 * p.clearance
            },
        forall|i: int|
            0 <= i < list.len() && !is_aside(#[trigger] list[i], p) && twice_apart(
                point(p.from),
                point(p.to),
                list[i].from,
                list[i].to,
            ) < p.width + list[i].width + 2 * p.clearance ==> trace_remarks(list, p).0.len()
                + trace_remarks(list, p).1.len() > 0,
    decreases list.len(),
{
    if list.len() > 0 {
        let front = list.drop_last();
        lemma_traces_told(front, p);
        let last = list[list.len() - 1];
        assert(trace_remarks(list, p).0.len() == trace_remarks(front, p).0.len() + trace_remark(
            last,
            p,
        ).0.len());
        assert(trace_remarks(list, p).1.len() == trace_remarks(front, p).1.len() + trace_remark(
            last,
            p,
        ).1.len());
        if trace_remarks(front, p).0.len() > 0 {
            let i = choose|i: int|
                0 <= i < front.len() && !is_aside(#[trigger] front[i], p) && twice_apart(
                    point(p.from),
                    point(p.to),
                    front[i].from,
                    front[i].to,
                ) < p.width + front[i].width;
            assert(front[i] == list[i]);
        }
        if exists|i: int|
            0 <= i < list.len() && !is_aside(#[trigger] list[i], p) && twice_apart(
                point(p.from),
                point(p.to),
                list[i].from,
                list[i].to,
            ) < p.width + list[i].width {
            let i = choose|i: int|
                0 <= i < list.len() && !is_aside(#[trigger] list[i], p) && twice_apart(
                    point(p.from),
                    point(p.to),
                    list[i].from,
                    list[i].to,
                ) < p.width + list[i].width;
            if i < front.len() {
                assert(front[i] == list[i]);
            }
        }
        if trace_remarks(front, p).0.len() + trace_remarks(front, p).1.len() > 0 {
            let i = choose|i: int|
                0 <= i < front.len() && !is_aside(#[trigger] front[i], p) && {
                    let twice = twice_apart(point(p.from), point(p.to), front[i].from, front[i].to);
                    twice < p.width + front[i].width || twice < p.width + front[i].width + 2
                        * p.clearance
                };
            assert(front[i] == list[i]);
        }
        assert forall|i: int|
            0 <= i < list.len() && !is_aside(#[trigger] list[i], p) && twice_apart(
                point(p.from),
                point(p.to),
                list[i].from,
                list[i].to,
            ) < p.width + list[i].width + 2 * p.clearance implies trace_remarks(list, p).0.len()
            + trace_remarks(list, p).1.len() > 0 by {
            if i < front.len() {
                assert(front[i] == list[i]);
            }
        }
    }
}

/// There is a collision exactly if a pad, or a trace of another net on the layer, is
/// nearer to the proposed centre line than half its own width and half the proposed one
/// together.
pub proof fn lemma_overlap_is_a_collision(pads: Seq<PcbPad>, list: Seq<SegmentModel>, p: Proposal)
    ensures
        (remarks(pads, list, p).0.len() > 0) == ((exists|i: int|
            0 <= i < pads.len() && twice_gap(
                ((#[trigger] pads[i]).x as int, pads[i].y as int),
                point(p.from),
                point(p.to),
            ) < p.width + longer_side(pads[i])) || (exists|i: int|
            0 <= i < list.len() && !is_aside(#[trigger] list[i], p) && twice_apart(
                point(p.from),
                point(p.to),
                list[i].from,
                list[i].to,
            ) < p.width + list[i].width)),
{
    lemma_pads_told(pads, p);
    lemma_traces_told(list, p);
}

/// Nothing is told exactly if every pad, and every trace of another net on the layer, is
/// as far away as both half widths and the clearance ask.
pub proof fn lemma_clear_is_let_through(pads: Seq<PcbPad>, list: Seq<SegmentModel>, p: Proposal)
    requires
        p.clearance >= 0,
    ensures
        (remarks(pads, list, p).0.len() == 0 && remarks(pads, list, p).1.len() == 0) == ((forall|
            i: int,
        |
            0 <= i < pads.len() ==> twice_gap(
                ((#[trigger] pads[i]).x as int, pads[i].y as int),
                point(p.from),
                point(p.to),
            ) >= p.width + longer_side(pads[i]) + 2 * p.clearance) && (forall|i: int|
            0 <= i < list.len() && !is_aside(#[trigger] list[i], p) ==> twice_apart(
                point(p.from),
                point(p.to),
                list[i].from,
                list[i].to,
            ) >= p.width + list[i].width + 2 * p.clearance)),
{
    lemma_pads_told(pads, p);
    lemma_traces_told(list, p);
}

proof fn lemma_point_near(q: (int, int), a: (int, int), b: (int, int), s: int, n: int, sum: int)
    requires
        0 <= s <= n,
        0 < n,
        sum >= 0,
        ({
            let x = n * (q.0 - a.0) - s * (b.0 - a.0);
            let y = n * (q.1 - a.1) - s * (b.1 - a.1);
            4 * (x * x + y * y) < sum * sum * (n * n)
        }),
    ensures
        twice_gap(q, a, b) < sum,
{
    let x = n * (q.0 - a.0) - s * (b.0 - a.0);
    let y = n * (q.1 - a.1) - s * (b.1 - a.1);
    let g = gap2(q, a, b);
    let h = x * x + y * y;
    let m = n * n;
    let w = sum * sum;
    lemma_gap_is_least(q, a, b, s, n);
    lemma_twice_gap_compares(q, a, b, sum);
    assert(m > 0) by (nonlinear_arith)
        requires
            m == n * n,
            n > 0,
    ;
    assert(m * g.0 <= h * g.1);
    assert(4 * h * g.1 < w * m * g.1) by (nonlinear_arith)
        requires
            4 * h < w * m,
            g.1 > 0,
    ;
    assert(4 * g.0 < w * g.1) by (nonlinear_arith)
        requires
            m > 0,
            m * g.0 <= h * g.1,
            4 * h * g.1 < w * m * g.1,
    ;
}

/// A pad is a collision if some point of the proposed centre line, `s` of `n` parts
/// along it, is nearer to its middle than half both widths.
pub proof fn lemma_near_pad_collides(
    pads: Seq<PcbPad>,
    list: Seq<SegmentModel>,
    p: Proposal,
    i: int,
    s: int,
    n: int,
)
    requires
        0 <= i < pads.len(),
        0 <= s <= n,
        0 < n,
        p.width + longer_side(pads[i]) >= 0,
        ({
            let sum = p.width + longer_side(pads[i]);
            let x = n * (pads[i].x - p.from.0) - s * (p.to.0 - p.from.0);
            let y = n * (pads[i].y - p.from.1) - s * (p.to.1 - p.from.1);
            4 * (x * x + y * y) < sum * sum * (n * n)
        }),
    ensures
        remarks(pads, list, p).0.len() > 0,
{
    lemma_point_near(
        (pads[i].x as int, pads[i].y as int),
        point(p.from),
        point(p.to),
        s,
        n,
        p.width + longer_side(pads[i]),
    );
    lemma_overlap_is_a_collision(pads, list, p);
}

/// A trace of another net on the layer is a collision if some point of one centre line,
/// `s` of `n` parts along it, is nearer to an end of the other than half both widths.
pub proof fn lemma_near_trace_collides(
    pads: Seq<PcbPad>,
    list: Seq<SegmentModel>,
    p: Proposal,
    i: int,
    s: int,
    n: int,
)
    requires
        0 <= i < list.len(),
        list[i].layer == p.layer@,
        p.net@.len() == 0 || list[i].net != p.net@,
        0 <= s <= n,
        0 < n,
        p.width + list[i].width >= 0,
        ({
            let sum = p.width + list[i].width;
            let near = |q: (int, int), a: (int, int), b: (int, int)|
                {
                    let x = n * (q.0 - a.0) - s * (b.0 - a.0);
                    let y = n * (q.1 - a.1) - s * (b.1 - a.1);
                    4 * (x * x + y * y) < sum * sum * (n * n)
                };
            ||| near(list[i].from, point(p.from), point(p.to))
            ||| near(list[i].to, point(p.from), point(p.to))
            ||| near(point(p.from), list[i].from, list[i].to)
            ||| near(point(p.to), list[i].from, list[i].to)
        }),
    ensures
        remarks(pads, list, p).0.len() > 0,
{
    let sum = p.width + list[i].width;
    let t = list[i];
    let a = point(p.from);
    let b = point(p.to);
    let near = |q: (int, int), a: (int, int), b: (int, int)|
        {
            let x = n * (q.0 - a.0) - s * (b.0 - a.0);
            let y = n * (q.1 - a.1) - s * (b.1 - a.1);
            4 * (x * x + y * y) < sum * sum * (n * n)
        };
    if near(t.from, a, b) {
        lemma_point_near(t.from, a, b, s, n, sum);
    } else if near(t.to, a, b) {
        lemma_point_near(t.to, a, b, s, n, sum);
    } else if near(a, t.from, t.to) {
        lemma_point_near(a, t.from, t.to, s, n, sum);
    } else {
        lemma_point_near(b, t.from, t.to, s, n, sum);
    }
    if crossing(a, b, t.from, t.to) {
        if sum == 0 {
            assert(twice_apart(a, b, t.from, t.to) == 0);
            lemma_no_nearer(t, a, b);
        }
    }
    assert(!is_aside(list[i], p));
    assert(twice_apart(a, b, t.from, t.to) < sum);
    lemma_overlap_is_a_collision(pads, list, p);
}

proof fn lemma_no_nearer(t: SegmentModel, a: (int, int), b: (int, int))
    ensures
        twice_gap(t.from, a, b) >= 0,
        twice_gap(t.to, a, b) >= 0,
        twice_gap(a, t.from, t.to) >= 0,
        twice_gap(b, t.from, t.to) >= 0,
{
    lemma_never_negative(t.from, a, b);
    lemma_never_negative(t.to, a, b);
    lemma_never_negative(a, t.from, t.to);
    lemma_never_negative(b, t.from, t.to);
}

proof fn lemma_never_negative(q: (int, int), a: (int, int), b: (int, int))
    ensures
        twice_gap(q, a, b) >= 0,
{
    lemma_twice_gap_compares(q, a, b, 0);
    lemma_gap_is_least(q, a, b, 0, 1);
    let g = gap2(q, a, b);
    assert(g.0 >= 0) by {
        lemma_squares(q.0 - a.0, q.1 - a.1);
        lemma_squares(q.0 - b.0, q.1 - b.1);
        lemma_squares(aside(q, a, b), 0);
    }
    assert(0 * 0 * g.1 == 0) by (nonlinear_arith);
}

proof fn lemma_squares(x: int, y: int)
    ensures
        x * x + y * y >= 0,
        x * x >= 0,
{
    assert(x * x >= 0) by (nonlinear_arith);
    assert(y * y >= 0) by (nonlinear_arith);
}

proof fn lemma_on_line(a: int, b: int, c: int, s: int, n: int)
    requires
        0 <= s <= n,
        0 < n,
        n * c == n * a + s * (b - a),
    ensures
        a <= c <= b || b <= c <= a,
{
    if a <= b {
        assert(a <= c <= b) by (nonlinear_arith)
            requires
                0 <= s <= n,
                0 < n,
                n * c == n * a + s * (b - a),
                a <= b,
        ;
    } else {
        assert(b <= c <= a) by (nonlinear_arith)
            requires
                0 <= s <= n,
                0 < n,
                n * c == n * a + s * (b - a),
                b < a,
        ;
    }
}

proof fn lemma_spread(u: int, n: int, y: int, t: int, f: int)
    ensures
        u * (n * y + t * (f - y)) == n * (u * y) + t * (u * f) - t * (u * y),
{
    assert(u * (n * y + t * (f - y)) == u * (n * y) + u * (t * (f - y))) by (nonlinear_arith);
    assert(u * (n * y) == n * (u * y)) by (nonlinear_arith);
    assert(u * (t * (f - y)) == t * (u * f) - t * (u * y)) by (nonlinear_arith);
}

proof fn lemma_balance(
    a: (int, int),
    b: (int, int),
    c: (int, int),
    d: (int, int),
    s: int,
    t: int,
    n: int,
)
    requires
        n * a.0 + s * (b.0 - a.0) == n * c.0 + t * (d.0 - c.0),
        n * a.1 + s * (b.1 - a.1) == n * c.1 + t * (d.1 - c.1),
    ensures
        (n - t) * aside(c, a, b) + t * aside(d, a, b) == 0,
{
    let u = b.0 - a.0;
    let v = b.1 - a.1;
    let x = c.0 - a.0;
    let y = c.1 - a.1;
    let e = d.0 - a.0;
    let f = d.1 - a.1;
    assert(n * x + t * (e - x) == s * u) by (nonlinear_arith)
        requires
            n * a.0 + s * (b.0 - a.0) == n * c.0 + t * (d.0 - c.0),
            u == b.0 - a.0,
            x == c.0 - a.0,
            e == d.0 - a.0,
    ;
    assert(n * y + t * (f - y) == s * v) by (nonlinear_arith)
        requires
            n * a.1 + s * (b.1 - a.1) == n * c.1 + t * (d.1 - c.1),
            v == b.1 - a.1,
            y == c.1 - a.1,
            f == d.1 - a.1,
    ;
    let o1 = u * y - v * x;
    let o2 = u * f - v * e;
    lemma_spread(u, n, y, t, f);
    lemma_spread(v, n, x, t, e);
    let p1 = u * y;
    let p2 = v * x;
    let p3 = u * f;
    let p4 = v * e;
    assert((n - t) * (p1 - p2) + t * (p3 - p4) == (n * p1 + t * p3 - t * p1) - (n * p2 + t * p4 - t
        * p2)) by (nonlinear_arith);
    assert(u * (s * v) - v * (s * u) == 0) by (nonlinear_arith);
}

proof fn lemma_both_sides(
    a: (int, int),
    b: (int, int),
    c: (int, int),
    d: (int, int),
    s: int,
    t: int,
    n: int,
)
    requires
        0 <= s <= n,
        0 <= t <= n,
        0 < n,
        n * a.0 + s * (b.0 - a.0) == n * c.0 + t * (d.0 - c.0),
        n * a.1 + s * (b.1 - a.1) == n * c.1 + t * (d.1 - c.1),
        (b.0 - a.0) * (d.1 - c.1) != (b.1 - a.1) * (d.0 - c.0),
    ensures
        ({
            let o1 = aside(c, a, b);
            let o2 = aside(d, a, b);
            ||| (o1 > 0) != (o2 > 0)
            ||| o1 == 0 && between(a, b, c)
            ||| o2 == 0 && between(a, b, d)
        }),
{
    let o1 = aside(c, a, b);
    let o2 = aside(d, a, b);
    lemma_balance(a, b, c, d, s, t, n);
    if (o1 > 0) == (o2 > 0) {
        if o1 > 0 {
            assert((n - t) * o1 + t * o2 > 0) by (nonlinear_arith)
                requires
                    o1 > 0,
                    o2 > 0,
                    0 <= t <= n,
                    0 < n,
            ;
        } else if t == 0 {
            assert(n * o1 == 0 ==> o1 == 0) by (nonlinear_arith)
                requires
                    n > 0,
            ;
            assert((n - t) * o1 == n * o1);
            assert(n * c.0 + t * (d.0 - c.0) == n * c.0) by (nonlinear_arith)
                requires
                    t == 0,
            ;
            assert(n * c.1 + t * (d.1 - c.1) == n * c.1) by (nonlinear_arith)
                requires
                    t == 0,
            ;
            assert(t * o2 == 0) by (nonlinear_arith)
                requires
                    t == 0,
            ;
            lemma_on_line(a.0, b.0, c.0, s, n);
            lemma_on_line(a.1, b.1, c.1, s, n);
        } else if t == n {
            assert((n - t) * o1 == 0) by (nonlinear_arith)
                requires
                    t == n,
            ;
            assert(t * o2 == 0 ==> o2 == 0) by (nonlinear_arith)
                requires
                    t > 0,
            ;
            assert(n * c.0 + t * (d.0 - c.0) == n * d.0) by (nonlinear_arith)
                requires
                    t == n,
            ;
            assert(n * c.1 + t * (d.1 - c.1) == n * d.1) by (nonlinear_arith)
                requires
                    t == n,
            ;
            lemma_on_line(a.0, b.0, d.0, s, n);
            lemma_on_line(a.1, b.1, d.1, s, n);
        } else {
            assert(o1 == 0 && o2 == 0) by (nonlinear_arith)
                requires
                    o1 <= 0,
                    o2 <= 0,
                    0 < t < n,
                    (n - t) * o1 + t * o2 == 0,
            ;
            let u = b.0 - a.0;
            let v = b.1 - a.1;
            assert(o2 - o1 == u * (d.1 - c.1) - v * (d.0 - c.0)) by (nonlinear_arith)
                requires
                    o1 == u * (c.1 - a.1) - v * (c.0 - a.0),
                    o2 == u * (d.1 - a.1) - v * (d.0 - a.0),
            ;
        }
    }
}

/// Two traces that have a point in common, `s` of `n` parts along the one and `t` of `n`
/// along the other, collide where they cross.
pub proof fn lemma_crossing_trace_collides(
    pads: Seq<PcbPad>,
    list: Seq<SegmentModel>,
    p: Proposal,
    i: int,
    s: int,
    t: int,
    n: int,
)
    requires
        0 <= i < list.len(),
        list[i].layer == p.layer@,
        p.net@.len() == 0 || list[i].net != p.net@,
        p.width + list[i].width > 0,
        0 <= s <= n,
        0 <= t <= n,
        0 < n,
        n * p.from.0 + s * (p.to.0 - p.from.0) == n * list[i].from.0 + t * (list[i].to.0
            - list[i].from.0),
        n * p.from.1 + s * (p.to.1 - p.from.1) == n * list[i].from.1 + t * (list[i].to.1
            - list[i].from.1),
        (p.to.0 - p.from.0) * (list[i].to.1 - list[i].from.1) != (p.to.1 - p.from.1) * (list[i].to.0
            - list[i].from.0),
    ensures
        remarks(pads, list, p).0.len() > 0,
{
    let a = point(p.from);
    let b = point(p.to);
    let c = list[i].from;
    let d = list[i].to;
    lemma_both_sides(a, b, c, d, s, t, n);
    assert((d.0 - c.0) * (b.1 - a.1) != (d.1 - c.1) * (b.0 - a.0)) by (nonlinear_arith)
        requires
            (b.0 - a.0) * (d.1 - c.1) != (b.1 - a.1) * (d.0 - c.0),
    ;
    lemma_both_sides(c, d, a, b, t, s, n);
    assert(crossing(a, b, c, d));
    assert(twice_apart(a, b, c, d) == 0);
    assert(!is_aside(list[i], p));
    lemma_overlap_is_a_collision(pads, list, p);
}

/// Whether a text starts with another.
pub open spec fn starts(text: Seq<char>, front: Seq<char>) -> bool {
    text.len() >= front.len() && text.take(front.len() as int) == front
}

proof fn lemma_starts(text: Seq<char>, more: Seq<char>, front: Seq<char>)
    requires
        starts(text, front),
    ensures
        starts(text + more, front),
{
    assert((text + more).take(front.len() as int) =~= text.take(front.len() as int));
}

#[verifier::rlimit(40)]
proof fn lemma_report_head(p: Proposal, hits: Seq<Seq<char>>, near: Seq<Seq<char>>)
    ensures
        starts(
            clearance_report(p, hits, near),
            "Clearance check ["@ + status(hits.len(), near.len()) + "]"@,
        ),
{
    reveal_strlit("]: ");
    reveal_strlit("]");
    let front = "Clearance check ["@ + status(hits.len(), near.len()) + "]"@;
    let a = "Clearance check ["@ + status(hits.len(), near.len()) + "]: "@;
    assert(a.take(front.len() as int) =~= front);
    let points = given_points(point(p.from), "→"@, point(p.to));
    lemma_starts(a, points, front);
    let b = a + points;
    lemma_starts(b, " on "@, front);
    let c = b + " on "@;
    lemma_starts(c, p.layer@, front);
    let d = c + p.layer@;
    lemma_starts(d, " w="@, front);
    let e = d + " w="@;
    lemma_starts(e, thousandths(p.width as int), front);
    let f = e + thousandths(p.width as int);
    lemma_starts(f, "mm gap="@, front);
    let g = f + "mm gap="@;
    lemma_starts(g, thousandths(p.clearance as int), front);
    let h = g + thousandths(p.clearance as int);
    lemma_starts(h, "mm\n\n"@, front);
    let head = h + "mm\n\n"@;
    let clear = if hits.len() == 0 && near.len() == 0 {
        "No pads or existing traces within collision or clearance distance. Safe to route.\n"@
    } else {
        Seq::empty()
    };
    let touched = if hits.len() > 0 {
        "COLLISIONS ("@ + decimal(hits.len())
            + ") — trace physically overlaps these pads/existing traces:\n"@ + ended(hits)
    } else {
        Seq::empty()
    };
    let tight = if near.len() > 0 {
        "\nCLEARANCE WARNINGS ("@ + decimal(near.len()) + ") — closer than "@ + thousandths(
            p.clearance as int,
        ) + "mm gap:\n"@ + ended(near)
    } else {
        Seq::empty()
    };
    lemma_starts(head, clear, front);
    lemma_starts(head + clear, touched, front);
    lemma_starts(head + clear + touched, tight, front);
}

/// What a text that opens with a status says.
#[verifier::rlimit(40)]
proof fn lemma_status_is_true(text: Seq<char>, hits: nat, near: nat)
    requires
        starts(text, "Clearance check ["@ + status(hits, near) + "]"@),
    ensures
        starts(text, "Clearance check [CLEAR]"@) == (hits == 0 && near == 0),
        hits > 0 ==> starts(text, "Clearance check ["@ + decimal(hits) + " COLLISION(S)]"@),
        hits == 0 && near > 0 ==> starts(
            text,
            "Clearance check ["@ + decimal(near) + " WARNING(S)]"@,
        ),
{
    reveal_strlit("Clearance check [");
    reveal_strlit("CLEAR");
    reveal_strlit("Clearance check [CLEAR]");
    reveal_strlit(" COLLISION(S)");
    reveal_strlit(" COLLISION(S)]");
    reveal_strlit(" WARNING(S)");
    reveal_strlit(" WARNING(S)]");
    reveal_strlit("]");
    let said = status(hits, near);
    let start = "Clearance check ["@ + said + "]"@;
    let mark = "Clearance check [CLEAR]"@;
    if hits == 0 && near == 0 {
        assert(start =~= mark);
    } else {
        let n = if hits > 0 {
            hits
        } else {
            near
        };
        lemma_first_digit(n);
        assert(said[0] == decimal(n)[0]);
        assert(text[17] == said[0]) by {
            assert(text.take(start.len() as int)[17] == start[17]);
        }
        if starts(text, mark) {
            assert(text.take(mark.len() as int)[17] == mark[17]);
        }
        if hits > 0 {
            assert(start =~= "Clearance check ["@ + decimal(hits) + " COLLISION(S)]"@);
        } else {
            assert(start =~= "Clearance check ["@ + decimal(near) + " WARNING(S)]"@);
        }
    }
}

/// The report says that the way is clear exactly if nothing was found, and counts
/// collisions if there are any.
pub proof fn lemma_report_is_true(p: Proposal, hits: Seq<Seq<char>>, near: Seq<Seq<char>>)
    ensures
        ({
            let text = clearance_report(p, hits, near);
            &&& starts(text, "Clearance check [CLEAR]"@) == (hits.len() == 0 && near.len() == 0)
            &&& hits.len() > 0 ==> starts(
                text,
                "Clearance check ["@ + decimal(hits.len()) + " COLLISION(S)]"@,
            )
            &&& hits.len() == 0 && near.len() > 0 ==> starts(
                text,
                "Clearance check ["@ + decimal(near.len()) + " WARNING(S)]"@,
            )
        }),
{
    lemma_report_head(p, hits, near);
    lemma_status_is_true(clearance_report(p, hits, near), hits.len(), near.len());
}

proof fn lemma_first_digit(n: nat)
    ensures
        decimal(n).len() > 0,
        '0' <= decimal(n)[0] <= '9',
    decreases n,
{
    if n >= 10 {
        lemma_first_digit(n / 10);
    }
}

} // verus!
