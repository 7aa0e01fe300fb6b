//! The layout of paint stencils and of the ring that clamps them.
//!
//! Everything here is a rectangle along the axes. The plating bus is a rail along the
//! edge of the board, with ties across it that hold the plate together and stubs that
//! lead to each piece of copper.

use crate::bores::upper_of;
use crate::choices::StencilMount;
use crate::config::Config;
use crate::distance::{apart2, distance2, in_reach, lesser, point, FAR};
use crate::pcb::{BoundingBox, CopperLayer, PcbData};
use vstd::prelude::*;

verus! {

/// The middle line of the rail, between two corners.
#[derive(Clone, Copy, Debug, PartialEq, Eq, Structural)]
pub struct Rail {
    pub x0: i64,
    pub y0: i64,
    pub x1: i64,
    pub y1: i64,
}

/// A number brought between two others, in whatever order these are.
pub open spec fn into_span(n: int, a: int, b: int) -> int {
    let low = lesser(a, b);
    let high = upper_of(a, b);
    if n < low {
        low
    } else if n > high {
        high
    } else {
        n
    }
}

/// The nearest point to `p` on each of the four sides of the rail: bottom, right, top,
/// left.
pub open spec fn on_side(rail: Rail, side: int, p: (int, int)) -> (int, int) {
    if side == 0 {
        (into_span(p.0, rail.x0 as int, rail.x1 as int), rail.y0 as int)
    } else if side == 1 {
        (rail.x1 as int, into_span(p.1, rail.y0 as int, rail.y1 as int))
    } else if side == 2 {
        (into_span(p.0, rail.x0 as int, rail.x1 as int), rail.y1 as int)
    } else {
        (rail.x0 as int, into_span(p.1, rail.y0 as int, rail.y1 as int))
    }
}

/// The first of the first sides on which the nearest point is nearest.
pub open spec fn nearest_side(rail: Rail, p: (int, int), upto: nat) -> int
    decreases upto,
{
    if upto <= 1 {
        0
    } else {
        let best = nearest_side(rail, p, (upto - 1) as nat);
        if apart2(p, on_side(rail, upto - 1, p)) < apart2(p, on_side(rail, best, p)) {
            upto - 1
        } else {
            best
        }
    }
}

/// The nearest point of the rail.
pub open spec fn nearest_on_rail(rail: Rail, p: (int, int)) -> (int, int) {
    on_side(rail, nearest_side(rail, p, 4), p)
}

/// No point of the rail is nearer than the nearest one on each side.
pub proof fn lemma_nearest_on_rail(rail: Rail, p: (int, int), side: int)
    requires
        0 <= side < 4,
    ensures
        apart2(p, nearest_on_rail(rail, p)) <= apart2(p, on_side(rail, side, p)),
{
    lemma_nearest_side(rail, p, 4, side);
}

proof fn lemma_nearest_side(rail: Rail, p: (int, int), upto: nat, side: int)
    requires
        0 <= side < upto,
    ensures
        0 <= nearest_side(rail, p, upto) < upto,
        apart2(p, on_side(rail, nearest_side(rail, p, upto), p)) <= apart2(
            p,
            on_side(rail, side, p),
        ),
    decreases upto,
{
    if upto > 1 {
        if side < upto - 1 {
            lemma_nearest_side(rail, p, (upto - 1) as nat, side);
        } else {
            lemma_nearest_side(rail, p, (upto - 1) as nat, 0);
        }
    }
}

/// Whether the corners of the rail are within reach.
pub open spec fn fits_rail(rail: Rail) -> bool {
    in_reach((rail.x0 as int, rail.y0 as int)) && in_reach((rail.x1 as int, rail.y1 as int))
}

fn spanned(n: i64, a: i64, b: i64) -> (m: i64)
    ensures
        m == into_span(n as int, a as int, b as int),
{
    let (low, high): (i64, i64) = if a <= b {
        (a, b)
    } else {
        (b, a)
    };
    if n < low {
        low
    } else if n > high {
        high
    } else {
        n
    }
}

fn point_on_side(rail: &Rail, side: usize, p: (i64, i64)) -> (q: (i64, i64))
    requires
        fits_rail(*rail),
        in_reach(point(p)),
        side < 4,
    ensures
        point(q) == on_side(*rail, side as int, point(p)),
        in_reach(point(q)),
{
    if side == 0 {
        (spanned(p.0, rail.x0, rail.x1), rail.y0)
    } else if side == 1 {
        (rail.x1, spanned(p.1, rail.y0, rail.y1))
    } else if side == 2 {
        (spanned(p.0, rail.x0, rail.x1), rail.y1)
    } else {
        (rail.x0, spanned(p.1, rail.y0, rail.y1))
    }
}

fn find_side(rail: &Rail, p: (i64, i64)) -> (side: usize)
    requires
        fits_rail(*rail),
        in_reach(point(p)),
    ensures
        side == nearest_side(*rail, point(p), 4),
        side < 4,
{
    let mut best: usize = 0;
    let mut n: usize = 1;
    while n < 4
        invariant
            1 <= n <= 4,
            best < n,
            fits_rail(*rail),
            in_reach(point(p)),
            best == nearest_side(*rail, point(p), n as nat),
        decreases 4 - n,
    {
        let was: i128 = distance2(p, point_on_side(rail, best, p));
        let now: i128 = distance2(p, point_on_side(rail, n, p));
        if now < was {
            best = n;
        }
        n += 1;
        assert((n as nat - 1) as nat == (n - 1) as nat);
    }
    best
}

/// The rectangle of a tie across the rail at the point of the rail that is nearest to
/// a target. It reaches beyond the rail by `pad` both ways.
pub open spec fn tie_over(
    rail: Rail,
    bus: int,
    tie: int,
    pad: int,
    target: (int, int),
) -> (int, int, int, int) {
    let side = nearest_side(rail, target, 4);
    let c = on_side(rail, side, target);
    let half = bus / 2 + pad;
    let flat = if side == 0 || side == 2 {
        rail.x0 != rail.x1
    } else {
        false
    };
    if flat {
        (c.0 - tie / 2, c.1 - half, c.0 + tie / 2, c.1 + half)
    } else {
        (c.0 - half, c.1 - tie / 2, c.0 + half, c.1 + tie / 2)
    }
}

pub open spec fn corners(b: BoundingBox) -> (int, int, int, int) {
    (b.min_x as int, b.min_y as int, b.max_x as int, b.max_y as int)
}

/// The rectangle of a tie across the rail.
pub fn rail_tie_rect(rail: &Rail, bus_width: i64, tie_width: i64, pad: i64, target: (i64, i64)) -> (
r: BoundingBox)
    requires
        fits_rail(*rail),
        in_reach(point(target)),
        0 <= bus_width <= FAR,
        0 <= tie_width <= FAR,
        0 <= pad <= FAR,
    ensures
        corners(r) == tie_over(
            *rail,
            bus_width as int,
            tie_width as int,
            pad as int,
            point(target),
        ),
{
    let side: usize = find_side(rail, target);
    let c = point_on_side(rail, side, target);
    let half: i64 = bus_width / 2 + pad;
    if (side == 0 || side == 2) && rail.x0 != rail.x1 {
        BoundingBox {
            min_x: c.0 - tie_width / 2,
            min_y: c.1 - half,
            max_x: c.0 + tie_width / 2,
            max_y: c.1 + half,
        }
    } else {
        BoundingBox {
            min_x: c.0 - half,
            min_y: c.1 - tie_width / 2,
            max_x: c.0 + half,
            max_y: c.1 + tie_width / 2,
        }
    }
}

/// The square of the distance of a point from the rail.
pub open spec fn rail_gap(rail: Rail, p: (int, int)) -> int {
    apart2(p, nearest_on_rail(rail, p))
}

/// The first of the points that are allowed which is nearest to the rail. A point is
/// allowed if four times the square of its distance is no more than `most`, unless
/// `most` is missing.
pub open spec fn nearest_point(
    points: Seq<(i64, i64)>,
    rail: Rail,
    most: Option<int>,
) -> Option<int>
    decreases points.len(),
{
    if points.len() == 0 {
        None
    } else {
        let best = nearest_point(points.drop_last(), rail, most);
        let d = rail_gap(rail, point(points.last()));
        let allowed = match most {
            Some(m) => 4 * d <= m,
            None => true,
        };
        if allowed && (best is None || d < rail_gap(rail, point(points[best->0]))) {
            Some(points.len() - 1)
        } else {
            best
        }
    }
}

proof fn lemma_nearest_point_bounds(points: Seq<(i64, i64)>, rail: Rail, most: Option<int>)
    ensures
        nearest_point(points, rail, most) matches Some(i) ==> 0 <= i < points.len(),
    decreases points.len(),
{
    if points.len() > 0 {
        lemma_nearest_point_bounds(points.drop_last(), rail, most);
    }
}

fn find_nearest(points: &Vec<(i64, i64)>, rail: &Rail, most: Option<i128>) -> (found: Option<usize>)
    requires
        fits_rail(*rail),
        forall|i: int| 0 <= i < points@.len() ==> in_reach(point(#[trigger] points@[i])),
    ensures
        (match found {
            Some(i) => Some(i as int),
            None => None,
        }) == nearest_point(
            points@,
            *rail,
            match most {
                Some(m) => Some(m as int),
                None => None,
            },
        ),
        found matches Some(i) ==> i < points@.len(),
{
    let ghost limit: Option<int> = match most {
        Some(m) => Some(m as int),
        None => None,
    };
    let mut best: Option<(usize, i128)> = None;
    let mut i: usize = 0;
    proof {
        assert(points@.take(0).len() == 0);
    }
    while i < points.len()
        invariant
            i <= points@.len(),
            fits_rail(*rail),
            forall|j: int| 0 <= j < points@.len() ==> in_reach(point(#[trigger] points@[j])),
            limit == (match most {
                Some(m) => Some(m as int),
                None => None,
            }),
            (match best {
                Some(b) => Some(b.0 as int),
                None => None,
            }) == nearest_point(points@.take(i as int), *rail, limit),
            best matches Some(b) ==> b.0 < i && b.1 == rail_gap(*rail, point(points@[b.0 as int])),
        decreases points@.len() - i,
    {
        proof {
            assert(points@.take(i + 1).drop_last() =~= points@.take(i as int));
            assert(in_reach(point(points@[i as int])));
            lemma_nearest_point_bounds(points@.take(i as int), *rail, limit);
        }
        let p = points[i];
        let side: usize = find_side(rail, p);
        let d: i128 = distance2(p, point_on_side(rail, side, p));
        let allowed: bool = match most {
            Some(m) => 4 * d <= m,
            None => true,
        };
        let better: bool = match best {
            Some(b) => d < b.1,
            None => true,
        };
        proof {
            if best is Some {
                assert(points@.take(i + 1).drop_last()[(best->0).0 as int] == points@[(best->0).0 as int]);
                assert(points@.take(i + 1)[(best->0).0 as int] == points@[(best->0).0 as int]);
            }
        }
        if allowed && better {
            best = Some((i, d));
        }
        i += 1;
    }
    proof {
        assert(points@.take(points@.len() as int) =~= points@);
    }
    match best {
        Some(b) => Some(b.0),
        None => None,
    }
}

/// Where a stub leads from a piece of copper to the rail: from the point of its
/// boundary that is nearest to the rail, to the point of the rail nearest to that.
pub fn stub_for(boundary: &Vec<(i64, i64)>, rail: &Rail) -> (stub: Option<((i64, i64), (i64, i64))>)
    requires
        fits_rail(*rail),
        forall|i: int| 0 <= i < boundary@.len() ==> in_reach(point(#[trigger] boundary@[i])),
    ensures
        match nearest_point(boundary@, *rail, None) {
            None => stub is None,
            Some(i) => stub matches Some(s) && s.0 == boundary@[i] && point(s.1)
                == nearest_on_rail(*rail, point(boundary@[i])),
        },
{
    match find_nearest(boundary, rail, None) {
        None => None,
        Some(i) => {
            let p = boundary[i];
            assert(in_reach(point(boundary@[i as int])));
            let side: usize = find_side(rail, p);
            Some((p, point_on_side(rail, side, p)))
        },
    }
}

/// Four times the square of how far from the middle of the rail a loose piece of the
/// plate may be and still be tied across it: half the rail and a quarter millimetre.
pub open spec fn tie_reach(bus: int) -> int {
    (bus + 500_000) * (bus + 500_000)
}

/// Where a loose piece of the plate is tied to the rest: at its corner that is nearest
/// to the rail, if one lies along the rail.
pub fn tie_target(corners_of: &Vec<(i64, i64)>, rail: &Rail, bus_width: i64) -> (target: Option<
    (i64, i64),
>)
    requires
        fits_rail(*rail),
        0 <= bus_width <= FAR,
        forall|i: int| 0 <= i < corners_of@.len() ==> in_reach(point(#[trigger] corners_of@[i])),
    ensures
        match nearest_point(corners_of@, *rail, Some(tie_reach(bus_width as int))) {
            None => target is None,
            Some(i) => target == Some(corners_of@[i]),
        },
{
    let side: i128 = bus_width as i128 + 500_000;
    proof {
        assert(0 <= side * side <= 6_000_000_000 * 6_000_000_000) by (nonlinear_arith)
            requires
                0 <= side <= 6_000_000_000,
        ;
    }
    match find_nearest(corners_of, rail, Some(side * side)) {
        None => None,
        Some(i) => Some(corners_of[i]),
    }
}

/// The plating bus of a stencil.
#[derive(Debug)]
pub struct Bus {
    pub rail: Rail,
    /// The rail is what lies in the outer rectangle and not in the inner one. Without
    /// an inner one it is a bar along one edge.
    pub outer: BoundingBox,
    pub inner: Option<BoundingBox>,
    /// The first ties.
    pub ties: Vec<BoundingBox>,
    /// How far ties reach beyond the rail.
    pub tie_pad: i64,
}

/// The layout of a stencil.
#[derive(Debug)]
pub struct Stencil {
    /// How wide the slots over traces are.
    pub slot_width: i64,
    /// By how much slots over pads are wider than the pads.
    pub land_margin: i64,
    /// The plate.
    pub plate: BoundingBox,
    /// Where slots may be.
    pub opening: BoundingBox,
    pub bus: Option<Bus>,
}

/// A rectangle made larger on every side.
pub open spec fn widened(b: BoundingBox, by_: int) -> (int, int, int, int) {
    (b.min_x - by_, b.min_y - by_, b.max_x + by_, b.max_y + by_)
}

fn widen(b: &BoundingBox, by_: i64) -> (out: BoundingBox)
    requires
        fits_box(*b),
        -4 * FAR <= by_ <= 4 * FAR,
    ensures
        corners(out) == widened(*b, by_ as int),
{
    BoundingBox {
        min_x: b.min_x - by_,
        min_y: b.min_y - by_,
        max_x: b.max_x + by_,
        max_y: b.max_y + by_,
    }
}

/// Whether a board lies within three quarters of the reach, with its corners in order.
pub open spec fn fits_box(b: BoundingBox) -> bool {
    &&& -3 * (FAR / 4) <= b.min_x <= b.max_x <= 3 * (FAR / 4)
    &&& -3 * (FAR / 4) <= b.min_y <= b.max_y <= 3 * (FAR / 4)
}

/// Whether a length is neither negative nor more than an eighth of the reach.
pub open spec fn fits_length(n: i64) -> bool {
    0 <= n <= FAR / 8
}

/// Whether a length is no more than an eighth of the reach, either way.
pub open spec fn fits_shift(n: i64) -> bool {
    -(FAR / 8) <= n <= FAR / 8
}

/// Whether a stencil can be laid out in whole numbers.
pub open spec fn fits_stencil(b: BoundingBox, c: Config) -> bool {
    &&& fits_box(b)
    &&& fits_shift(c.channel_width)
    &&& fits_shift(c.stencil_slot_clearance)
    &&& fits_shift(c.stencil_fit_clearance)
    &&& fits_shift(c.stencil_wall_thickness)
    &&& fits_length(c.bus_width)
    &&& fits_shift(c.bus_inset)
    &&& fits_length(c.bus_tie_width)
}

/// The corners of the band that the rail runs in.
pub open spec fn rail_band(b: BoundingBox, c: Config) -> (int, int, int, int) {
    widened(b, -c.bus_inset)
}

/// The middle line of the rail.
pub open spec fn rail_of(b: BoundingBox, c: Config) -> (int, int, int, int) {
    let r = rail_band(b, c);
    let half = c.bus_width as int / 2;
    (r.0 + half, r.1 + half, r.2 - half, r.3 - half)
}

/// Whether the board is large enough for the rail to run all the way round.
pub open spec fn has_ring(b: BoundingBox, c: Config) -> bool {
    let r = rail_band(b, c);
    2 * (r.2 - r.0) > 5 * c.bus_width && 2 * (r.3 - r.1) > 5 * c.bus_width
}

/// How many ties there are to begin with: as many as are asked for, else two on a
/// board longer than thirty millimetres and one on a smaller one; never more than
/// four.
pub open spec fn tie_count(b: BoundingBox, c: Config) -> int {
    let n = if c.bus_tie_count > 0 {
        c.bus_tie_count as int
    } else if upper_of(b.max_x - b.min_x, b.max_y - b.min_y) > 30_000_000 {
        2
    } else {
        1
    };
    lesser(n, 4)
}

/// Where ties go, in order: the middles of the longer sides first.
pub open spec fn tie_spot(b: BoundingBox, c: Config, i: int) -> (int, int) {
    let band = rail_band(b, c);
    let r = rail_of(b, c);
    let xmid = (band.0 + band.2) / 2;
    let ymid = (band.1 + band.3) / 2;
    let across = b.max_x - b.min_x >= b.max_y - b.min_y;
    let k = if across {
        i
    } else {
        (i + 2) % 4
    };
    if k == 0 {
        (xmid, r.1)
    } else if k == 1 {
        (xmid, r.3)
    } else if k == 2 {
        (r.0, ymid)
    } else {
        (r.2, ymid)
    }
}

/// How far ties reach beyond the rail: as far as it is wide, but a millimetre at least.
pub open spec fn pad_of(c: Config) -> int {
    upper_of(c.bus_width as int, 1_000_000)
}

/// Whether a bus is laid out as the settings ask.
pub open spec fn is_bus(bus: Bus, b: BoundingBox, c: Config) -> bool {
    let r = rail_of(b, c);
    let band = rail_band(b, c);
    &&& (bus.rail.x0 as int, bus.rail.y0 as int, bus.rail.x1 as int, bus.rail.y1 as int) == r
    &&& bus.tie_pad == pad_of(c)
    &&& if has_ring(b, c) {
        &&& corners(bus.outer) == band
        &&& bus.inner matches Some(i) && corners(i) == (
            band.0 + c.bus_width,
            band.1 + c.bus_width,
            band.2 - c.bus_width,
            band.3 - c.bus_width,
        )
    } else {
        &&& corners(bus.outer) == (band.0, band.1, band.2, band.1 + c.bus_width)
        &&& bus.inner is None
    }
    &&& bus.ties@.len() == tie_count(b, c)
    &&& forall|i: int|
        0 <= i < bus.ties@.len() ==> corners(#[trigger] bus.ties@[i]) == tie_over(
            bus.rail,
            c.bus_width as int,
            c.bus_tie_width as int,
            pad_of(c),
            tie_spot(b, c, i),
        )
}

fn lay_bus(b: &BoundingBox, c: &Config) -> (bus: Bus)
    requires
        fits_stencil(*b, *c),
    ensures
        is_bus(bus, *b, *c),
        fits_rail(bus.rail),
{
    let rx0: i64 = b.min_x + c.bus_inset;
    let ry0: i64 = b.min_y + c.bus_inset;
    let rx1: i64 = b.max_x - c.bus_inset;
    let ry1: i64 = b.max_y - c.bus_inset;
    let w: i64 = c.bus_width;
    let half: i64 = w / 2;
    let rail = Rail { x0: rx0 + half, y0: ry0 + half, x1: rx1 - half, y1: ry1 - half };
    let pad: i64 = if w >= 1_000_000 {
        w
    } else {
        1_000_000
    };
    let (outer, inner): (BoundingBox, Option<BoundingBox>) = if 2 * (rx1 - rx0) > 5 * w && 2 * (ry1
        - ry0) > 5 * w {
        (
            BoundingBox { min_x: rx0, min_y: ry0, max_x: rx1, max_y: ry1 },
            Some(
                BoundingBox { min_x: rx0 + w, min_y: ry0 + w, max_x: rx1 - w, max_y: ry1 - w },
            ),
        )
    } else {
        (BoundingBox { min_x: rx0, min_y: ry0, max_x: rx1, max_y: ry0 + w }, None)
    };
    let wide: i64 = b.max_x - b.min_x;
    let high: i64 = b.max_y - b.min_y;
    let asked: u32 = if c.bus_tie_count > 0 {
        c.bus_tie_count
    } else if wide > 30_000_000 || high > 30_000_000 {
        2
    } else {
        1
    };
    let n: usize = if asked > 4 {
        4
    } else {
        asked as usize
    };
    let xmid: i64 = halved(rx0 + rx1);
    let ymid: i64 = halved(ry0 + ry1);
    let mut ties: Vec<BoundingBox> = Vec::new();
    while ties.len() < n
        invariant
            ties@.len() <= n <= 4,
            fits_stencil(*b, *c),
            fits_rail(rail),
            w == c.bus_width,
            pad == pad_of(*c),
            wide == b.max_x - b.min_x,
            high == b.max_y - b.min_y,
            (rail.x0 as int, rail.y0 as int, rail.x1 as int, rail.y1 as int) == rail_of(*b, *c),
            xmid == (rail_band(*b, *c).0 + rail_band(*b, *c).2) / 2,
            ymid == (rail_band(*b, *c).1 + rail_band(*b, *c).3) / 2,
            -FAR <= xmid <= FAR,
            -FAR <= ymid <= FAR,
            forall|i: int|
                0 <= i < ties@.len() ==> corners(#[trigger] ties@[i]) == tie_over(
                    rail,
                    c.bus_width as int,
                    c.bus_tie_width as int,
                    pad_of(*c),
                    tie_spot(*b, *c, i),
                ),
        decreases n - ties@.len(),
    {
        let i: usize = ties.len();
        let k: usize = if wide >= high {
            i
        } else if i < 2 {
            i + 2
        } else {
            i - 2
        };
        assert(!(wide >= high) ==> k == (i + 2) % 4);
        let target: (i64, i64) = if k == 0 {
            (xmid, rail.y0)
        } else if k == 1 {
            (xmid, rail.y1)
        } else if k == 2 {
            (rail.x0, ymid)
        } else {
            (rail.x1, ymid)
        };
        assert(point(target) == tie_spot(*b, *c, i as int));
        ties.push(rail_tie_rect(&rail, w, c.bus_tie_width, pad, target));
    }
    Bus { rail, outer, inner, ties, tie_pad: pad }
}

fn halved(n: i64) -> (h: i64)
    requires
        -4 * FAR <= n <= 4 * FAR,
    ensures
        h == n as int / 2,
{
    if n >= 0 {
        n / 2
    } else {
        -((-n + 1) / 2)
    }
}

/// Whether a stencil is laid out as the settings ask. Held by a lip, the plate
/// overhangs the board; held by a ring it is as large as the board.
pub open spec fn is_stencil(s: Stencil, b: BoundingBox, c: Config) -> bool {
    &&& s.slot_width == c.channel_width + 2 * c.stencil_slot_clearance
    &&& s.land_margin == 2 * c.stencil_slot_clearance
    &&& match c.stencil_mount {
        StencilMount::Lip => {
            &&& corners(s.plate) == widened(b, c.stencil_fit_clearance + c.stencil_wall_thickness)
            &&& corners(s.opening) == widened(b, c.stencil_fit_clearance as int)
        },
        StencilMount::Ring => s.plate == b && s.opening == b,
    }
    &&& (s.bus is Some) == c.stencil_plating_bus
    &&& (s.bus matches Some(bus) ==> is_bus(bus, b, c) && fits_rail(bus.rail))
}

fn length_fits(n: i64) -> (yes: bool)
    ensures
        yes == fits_length(n),
{
    0 <= n && n <= FAR / 8
}

fn shift_fits(n: i64) -> (yes: bool)
    ensures
        yes == fits_shift(n),
{
    -(FAR / 8) <= n && n <= FAR / 8
}

/// Lays out a stencil over a board. None if something lies out of reach.
pub fn lay_stencil(b: &BoundingBox, c: &Config) -> (out: Option<Stencil>)
    ensures
        out is Some == fits_stencil(*b, *c),
        out matches Some(s) ==> is_stencil(s, *b, *c),
{
    let most: i64 = 3 * (FAR / 4);
    if !(-most <= b.min_x && b.min_x <= b.max_x && b.max_x <= most && -most <= b.min_y && b.min_y
        <= b.max_y && b.max_y <= most) {
        return None;
    }
    if !(shift_fits(c.channel_width) && shift_fits(c.stencil_slot_clearance) && shift_fits(
        c.stencil_fit_clearance,
    ) && shift_fits(c.stencil_wall_thickness) && length_fits(c.bus_width) && shift_fits(
        c.bus_inset,
    ) && length_fits(c.bus_tie_width)) {
        return None;
    }
    let (plate, opening): (BoundingBox, BoundingBox) = match c.stencil_mount {
        StencilMount::Lip => (
            widen(b, c.stencil_fit_clearance + c.stencil_wall_thickness),
            widen(b, c.stencil_fit_clearance),
        ),
        StencilMount::Ring => (*b, *b),
    };
    let bus: Option<Bus> = if c.stencil_plating_bus {
        Some(lay_bus(b, c))
    } else {
        None
    };
    Some(
        Stencil {
            slot_width: c.channel_width + 2 * c.stencil_slot_clearance,
            land_margin: 2 * c.stencil_slot_clearance,
            plate,
            opening,
            bus,
        },
    )
}

/// Whether a layer gets a stencil: only one with traces does.
pub fn wants_stencil(pcb: &PcbData, layer: CopperLayer) -> (yes: bool)
    ensures
        yes == (match layer {
            CopperLayer::FCu => pcb.traces_fcu@.len() > 0,
            CopperLayer::BCu => pcb.traces_bcu@.len() > 0,
        }),
{
    match layer {
        CopperLayer::FCu => pcb.traces_fcu.len() > 0,
        CopperLayer::BCu => pcb.traces_bcu.len() > 0,
    }
}

/// The ring that clamps a stencil to the board.
#[derive(Clone, Copy, Debug, PartialEq, Eq, Structural)]
pub struct ClampRing {
    /// The outside of the wall.
    pub outer: BoundingBox,
    /// The inside of the wall, which grips the board and the plate.
    pub wall: BoundingBox,
    /// The opening that the lip leaves.
    pub lip: BoundingBox,
    /// The height of the underside of the lip, which rests on the plate.
    pub plate_top: i64,
    /// The height of the ring.
    pub ring_top: i64,
}

/// How far the lip reaches over the plate. It leaves a millimetre in the middle of a
/// small board.
pub open spec fn lip_overlap(b: BoundingBox, wanted: int) -> int {
    let shorter = lesser(b.max_x - b.min_x, b.max_y - b.min_y);
    lesser(wanted, upper_of(shorter / 2 - 500_000, 0))
}

/// Whether a ring can be laid out in whole numbers.
pub open spec fn fits_ring(b: BoundingBox, c: Config) -> bool {
    &&& fits_box(b)
    &&& fits_shift(c.stencil_fit_clearance)
    &&& fits_shift(c.stencil_wall_thickness)
    &&& fits_shift(c.ring_lip_overlap)
    &&& fits_shift(c.ring_lip_height)
    &&& fits_shift(c.substrate_thickness)
    &&& fits_shift(c.stencil_thickness)
}

/// Lays out the ring that clamps a stencil. None if something lies out of reach.
pub fn lay_clamp_ring(b: &BoundingBox, c: &Config) -> (out: Option<ClampRing>)
    ensures
        out is Some == fits_ring(*b, *c),
        out matches Some(r) ==> {
            &&& corners(r.outer) == widened(*b, c.stencil_fit_clearance + c.stencil_wall_thickness)
            &&& corners(r.wall) == widened(*b, c.stencil_fit_clearance as int)
            &&& corners(r.lip) == widened(*b, -lip_overlap(*b, c.ring_lip_overlap as int))
            &&& r.plate_top == c.substrate_thickness + c.stencil_thickness
            &&& r.ring_top == r.plate_top + c.ring_lip_height
        },
{
    let most: i64 = 3 * (FAR / 4);
    if !(-most <= b.min_x && b.min_x <= b.max_x && b.max_x <= most && -most <= b.min_y && b.min_y
        <= b.max_y && b.max_y <= most) {
        return None;
    }
    if !(shift_fits(c.stencil_fit_clearance) && shift_fits(c.stencil_wall_thickness)
        && shift_fits(c.ring_lip_overlap) && shift_fits(c.ring_lip_height) && shift_fits(
        c.substrate_thickness,
    ) && shift_fits(c.stencil_thickness)) {
        return None;
    }
    let wide: i64 = b.max_x - b.min_x;
    let high: i64 = b.max_y - b.min_y;
    let shorter: i64 = if wide <= high {
        wide
    } else {
        high
    };
    let room: i64 = if shorter / 2 > 500_000 {
        shorter / 2 - 500_000
    } else {
        0
    };
    let overlap: i64 = if c.ring_lip_overlap <= room {
        c.ring_lip_overlap
    } else {
        room
    };
    let plate_top: i64 = c.substrate_thickness + c.stencil_thickness;
    Some(
        ClampRing {
            outer: widen(b, c.stencil_fit_clearance + c.stencil_wall_thickness),
            wall: widen(b, c.stencil_fit_clearance),
            lip: widen(b, -overlap),
            plate_top,
            ring_top: plate_top + c.ring_lip_height,
        },
    )
}

/// The opening of a ring is never turned inside out.
pub proof fn lemma_lip_stays_open(b: BoundingBox, wanted: int)
    requires
        fits_box(b),
        wanted >= 0,
    ensures
        ({
            let r = widened(b, -lip_overlap(b, wanted));
            r.0 <= r.2 && r.1 <= r.3
        }),
{
}

} // verus!
