//! Through-holes with countersunk mouths, and how far each mouth may reach.
//!
//! A mouth is an offset from the wall of the bore in each of a number of directions.
//! It reaches as far as is wanted, unless the edge of the board, a trace or a hole of
//! another net is in the way in that direction. Directions are given in billionths.

use crate::distance::{
    apart2, distance2, in_reach, lemma_has_root, lesser, point, reachable, root, square_root,
    twice_from_segment, twice_gap, FAR,
};
use crate::pcb::{Pad, PcbData, Point2, Trace, Via};
use crate::strings::decimal;
use crate::text::{extend_str, same_str, to_text};
use crate::units::{extend_decimal, extend_hundredths, hundredths};
use vstd::prelude::*;

verus! {

/// The length of a direction.
pub const UNIT: i64 = 1_000_000_000;

/// How far from the bore the footprint of a hole starts, so that no boundary lands on
/// the bore itself. It is not a round number, so that it does not add up with usual
/// drills to half a usual channel.
pub const COLLAR_GAP: i64 = 170_000;

/// The least that a footprint grows from one band to the next.
pub const MIN_BAND_GROWTH: i64 = 11_000;

/// A through-hole before its mouth is planned.
#[derive(Debug)]
pub struct Hole {
    pub center: Point2,
    pub w: i64,
    pub h: i64,
    pub rotation: i64,
    pub net: Option<String>,
}

/// A through-hole with its mouth.
#[derive(Debug)]
pub struct Bore {
    pub center: Point2,
    pub w: i64,
    pub h: i64,
    pub rotation: i64,
    /// How far the mouth reaches beyond the wall of the bore, for each direction.
    pub mouth_offsets: Vec<i64>,
    /// How deep the cone goes.
    pub cone_depth: i64,
    /// The number of directions.
    pub sides: usize,
}

/// What mouths are wanted, and what they must keep clear of.
#[derive(Clone, Copy, Debug, PartialEq, Eq, Structural)]
pub struct BoreRules {
    /// How far a mouth reaches where nothing is in the way.
    pub offset: i64,
    /// How deep a cone goes where nothing is in the way.
    pub depth: i64,
    /// The slope of the cone, in millionths.
    pub slope: i64,
    /// What is kept between a mouth and other copper.
    pub rim: i64,
    /// How wide channels are.
    pub channel: i64,
}

pub open spec fn upper_of(a: int, b: int) -> int {
    if a >= b {
        a
    } else {
        b
    }
}

fn larger(a: i64, b: i64) -> (m: i64)
    ensures
        m == upper_of(a as int, b as int),
{
    if a >= b {
        a
    } else {
        b
    }
}

fn smaller(a: i64, b: i64) -> (m: i64)
    ensures
        m == lesser(a as int, b as int),
{
    if a <= b {
        a
    } else {
        b
    }
}

/// The diameter to cut for a via. Its own drill is the electrical hole, often too
/// small to print or to take an eyelet, so the eyelet sets the least.
pub open spec fn via_bore(drill: int, eyelet: int) -> int {
    upper_of(drill, eyelet)
}

/// The diameter to cut for a via.
pub fn via_bore_diameter(via: &Via, eyelet_diameter: i64) -> (d: i64)
    ensures
        d == via_bore(via.drill as int, eyelet_diameter as int),
{
    larger(via.drill, eyelet_diameter)
}

/// The width and height to cut for a drilled pad, at least `least` each.
pub open spec fn pad_bore(drill: int, drill_h: int, least: int) -> (int, int) {
    let w = upper_of(drill, least);
    (w, if drill_h > 0 {
        upper_of(drill_h, least)
    } else {
        w
    })
}

/// The width and height to cut for a drilled pad.
pub fn pad_bore_size(pad: &Pad, least: i64) -> (size: (i64, i64))
    ensures
        (size.0 as int, size.1 as int) == pad_bore(
            pad.drill as int,
            pad.drill_h as int,
            least as int,
        ),
{
    let w: i64 = larger(pad.drill, least);
    if pad.drill_h > 0 {
        (w, larger(pad.drill_h, least))
    } else {
        (w, w)
    }
}

/// A hole in numbers and texts.
#[verifier::ext_equal]
pub struct HoleModel {
    pub center: (int, int),
    pub w: int,
    pub h: int,
    pub rotation: int,
    pub net: Option<Seq<char>>,
}

pub open spec fn net_text(net: Option<String>) -> Option<Seq<char>> {
    match net {
        Some(t) => Some(t@),
        None => None,
    }
}

pub open spec fn hole_model(h: Hole) -> HoleModel {
    HoleModel {
        center: (h.center.x as int, h.center.y as int),
        w: h.w as int,
        h: h.h as int,
        rotation: h.rotation as int,
        net: net_text(h.net),
    }
}

pub open spec fn hole_models(list: Seq<Hole>) -> Seq<HoleModel> {
    list.map_values(|h: Hole| hole_model(h))
}

/// The holes of drilled pads.
pub open spec fn pad_holes(pads: Seq<Pad>, least: int) -> Seq<HoleModel>
    decreases pads.len(),
{
    if pads.len() == 0 {
        Seq::empty()
    } else {
        let front = pad_holes(pads.drop_last(), least);
        let p = pads.last();
        if p.drill > 0 {
            let size = pad_bore(p.drill as int, p.drill_h as int, least);
            front.push(
                HoleModel {
                    center: (p.center.x as int, p.center.y as int),
                    w: size.0,
                    h: size.1,
                    rotation: p.rotation as int,
                    net: net_text(p.net_name),
                },
            )
        } else {
            front
        }
    }
}

/// The holes of vias.
pub open spec fn via_holes(vias: Seq<Via>, eyelet: int) -> Seq<HoleModel> {
    vias.map_values(
        |v: Via|
            HoleModel {
                center: (v.center.x as int, v.center.y as int),
                w: via_bore(v.drill as int, eyelet),
                h: via_bore(v.drill as int, eyelet),
                rotation: 0,
                net: net_text(v.net_name),
            },
    )
}

fn copied(net: &Option<String>) -> (out: Option<String>)
    ensures
        net_text(out) == net_text(*net),
{
    match net {
        Some(t) => Some(t.clone()),
        None => None,
    }
}

/// The through-holes of a board: those of drilled pads, if they are wanted, then
/// those of vias.
pub fn holes_of(
    pcb: &PcbData,
    pads_wanted: bool,
    pad_hole_diameter: i64,
    eyelet_diameter: i64,
) -> (out: Vec<Hole>)
    ensures
        hole_models(out@) == (if pads_wanted {
            pad_holes(pcb.pads@, pad_hole_diameter as int)
        } else {
            Seq::empty()
        }) + via_holes(pcb.vias@, eyelet_diameter as int),
{
    let mut out: Vec<Hole> = Vec::new();
    proof {
        assert(hole_models(out@) =~= Seq::empty());
    }
    if pads_wanted {
        let mut i: usize = 0;
        proof {
            assert(pcb.pads@.take(0).len() == 0);
        }
        while i < pcb.pads.len()
            invariant
                i <= pcb.pads@.len(),
                hole_models(out@) == pad_holes(pcb.pads@.take(i as int), pad_hole_diameter as int),
            decreases pcb.pads@.len() - i,
        {
            proof {
                assert(pcb.pads@.take(i + 1).drop_last() =~= pcb.pads@.take(i as int));
            }
            let p = &pcb.pads[i];
            if p.drill > 0 {
                let size = pad_bore_size(p, pad_hole_diameter);
                let hole = Hole {
                    center: p.center,
                    w: size.0,
                    h: size.1,
                    rotation: p.rotation,
                    net: copied(&p.net_name),
                };
                let ghost done = out@;
                out.push(hole);
                proof {
                    assert(hole_models(out@) =~= hole_models(done).push(hole_model(hole)));
                }
            }
            i += 1;
        }
        proof {
            assert(pcb.pads@.take(pcb.pads@.len() as int) =~= pcb.pads@);
        }
    }
    let ghost start = hole_models(out@);
    let ghost more = via_holes(pcb.vias@, eyelet_diameter as int);
    let mut i: usize = 0;
    proof {
        assert(start + more.take(0) =~= start);
    }
    while i < pcb.vias.len()
        invariant
            i <= pcb.vias@.len(),
            more == via_holes(pcb.vias@, eyelet_diameter as int),
            hole_models(out@) == start + more.take(i as int),
        decreases pcb.vias@.len() - i,
    {
        let v = &pcb.vias[i];
        let d: i64 = via_bore_diameter(v, eyelet_diameter);
        let hole = Hole { center: v.center, w: d, h: d, rotation: 0, net: copied(&v.net_name) };
        let ghost done = out@;
        out.push(hole);
        proof {
            assert(more[i as int] == hole_model(hole));
            assert(hole_models(out@) =~= hole_models(done).push(hole_model(hole)));
            assert(more.take(i + 1) =~= more.take(i as int).push(more[i as int]));
            assert(hole_models(out@) =~= start + more.take(i + 1));
        }
        i += 1;
    }
    proof {
        assert(more.take(more.len() as int) =~= more);
    }
    out
}

/// How many directions the outline of a hole has, so that its facets are of about
/// equal length whatever its size.
pub open spec fn sides_for(radius: int) -> int {
    let n = (6_283_185_307 * radius + 149_999_999_999_999) / 150_000_000_000_000;
    if n < 16 {
        16
    } else if n > 64 {
        64
    } else {
        n
    }
}

/// How many directions the outline of a hole has.
pub fn arc_sides_for(radius: i64) -> (n: usize)
    requires
        0 <= radius,
    ensures
        n == sides_for(radius as int),
{
    let n: i128 = (6_283_185_307 * radius as i128 + 149_999_999_999_999) / 150_000_000_000_000;
    if n < 16 {
        16
    } else if n > 64 {
        64
    } else {
        n as usize
    }
}

/// How far an obstacle lies along a direction, in the unit of directions.
pub open spec fn facing(from: (int, int), dir: (int, int), obs: (int, int)) -> int {
    (obs.0 - from.0) * dir.0 + (obs.1 - from.1) * dir.1
}

/// The least whole number whose square is not below a number.
pub open spec fn root_above(n: int) -> int {
    if n <= 0 {
        0
    } else {
        root(n - 1) + 1
    }
}

/// What is left, squared, between a ray and the middle of an obstacle where the ray
/// meets the circle round it.
pub open spec fn overlap(
    from: (int, int),
    dir: (int, int),
    obs: (int, int),
    keep_out: int,
) -> int {
    let f = facing(from, dir, obs);
    f * f - UNIT * UNIT * (apart2(from, obs) - keep_out * keep_out)
}

/// How far one may go from a point in a direction before an obstacle is nearer than
/// `keep_out`; none if the obstacle is not in the way in that direction.
pub open spec fn ray_limit(
    from: (int, int),
    dir: (int, int),
    obs: (int, int),
    keep_out: int,
) -> Option<int> {
    if apart2(from, obs) < keep_out * keep_out {
        Some(0)
    } else {
        let n = overlap(from, dir, obs, keep_out);
        let hit = facing(from, dir, obs) - root_above(n);
        if n <= 0 || hit < 0 {
            None
        } else {
            Some(hit / UNIT as int)
        }
    }
}

/// Whether the point at distance `h` in a direction is at least `keep_out` from an
/// obstacle, for a direction whose length is the unit.
pub open spec fn is_clear(
    from: (int, int),
    dir: (int, int),
    obs: (int, int),
    keep_out: int,
    h: int,
) -> bool {
    let v = UNIT * h;
    v * v - 2 * (v * facing(from, dir, obs)) + UNIT * UNIT * apart2(from, obs) >= UNIT * UNIT * (
    keep_out * keep_out)
}

proof fn lemma_root_above(n: int)
    requires
        n > 0,
    ensures
        0 < root_above(n),
        n <= root_above(n) * root_above(n),
        (root_above(n) - 1) * (root_above(n) - 1) < n,
{
    lemma_has_root(n - 1);
}

proof fn lemma_clear_square(f: int, v: int, n: int, c: int)
    requires
        0 <= v,
        n <= f * f,
        n > 0 ==> 0 < c && n <= c * c && (c - 1) * (c - 1) < n && (f - c < 0 || v <= f - c),
    ensures
        n <= (f - v) * (f - v),
{
    let w = f - v;
    assert(0 <= w * w) by (nonlinear_arith);
    if n > 0 {
        if f - c < 0 {
            if f >= 0 {
                assert(f * f <= (c - 1) * (c - 1)) by (nonlinear_arith)
                    requires
                        0 <= f <= c - 1,
                ;
            }
            assert(f * f <= w * w) by (nonlinear_arith)
                requires
                    f < 0,
                    w <= f,
            ;
        } else {
            assert(c * c <= w * w) by (nonlinear_arith)
                requires
                    0 < c <= w,
            ;
        }
    }
}

/// Going no further than the limit keeps clear of the obstacle.
pub proof fn lemma_within_limit_is_clear(
    from: (int, int),
    dir: (int, int),
    obs: (int, int),
    keep_out: int,
    h: int,
)
    requires
        0 <= h,
        keep_out * keep_out <= apart2(from, obs),
        ray_limit(from, dir, obs, keep_out) matches Some(l) ==> h <= l,
    ensures
        is_clear(from, dir, obs, keep_out, h),
{
    let f = facing(from, dir, obs);
    let u = UNIT * UNIT;
    let m = apart2(from, obs) - keep_out * keep_out;
    let n = overlap(from, dir, obs, keep_out);
    let v = UNIT * h;
    assert(u > 0);
    assert(0 <= u * m) by (nonlinear_arith)
        requires
            0 < u,
            0 <= m,
    ;
    if n > 0 {
        lemma_root_above(n);
    }
    lemma_clear_square(f, v, n, root_above(n));
    assert((f - v) * (f - v) == f * f - 2 * (v * f) + v * v) by (nonlinear_arith);
    let a = apart2(from, obs);
    let k = keep_out * keep_out;
    assert(u * (a - k) == u * a - u * k) by (nonlinear_arith);
}

proof fn lemma_smaller_keep_out(
    from: (int, int),
    dir: (int, int),
    obs: (int, int),
    keep_out: int,
    less: int,
    h: int,
)
    requires
        0 <= less <= keep_out,
        is_clear(from, dir, obs, keep_out, h),
    ensures
        is_clear(from, dir, obs, less, h),
{
    assert(less * less <= keep_out * keep_out) by (nonlinear_arith)
        requires
            0 <= less <= keep_out,
    ;
    let u = UNIT * UNIT;
    let a = less * less;
    let b = keep_out * keep_out;
    assert(u > 0);
    assert(u * a <= u * b) by (nonlinear_arith)
        requires
            a <= b,
            u > 0,
    ;
}

/// Whether a direction is no longer than the unit, either way.
pub open spec fn is_direction(dir: (int, int)) -> bool {
    -UNIT <= dir.0 <= UNIT && -UNIT <= dir.1 <= UNIT
}

proof fn lemma_product_bound(x: int, y: int, m: int, n: int)
    requires
        -m <= x <= m,
        -n <= y <= n,
        0 <= m,
        0 <= n,
    ensures
        -(m * n) <= x * y <= m * n,
{
    assert(-(m * n) <= x * y <= m * n) by (nonlinear_arith)
        requires
            -m <= x <= m,
            -n <= y <= n,
            0 <= m,
            0 <= n,
    ;
}

fn half_of(n: i64) -> (h: i64)
    requires
        -FAR <= n <= FAR,
    ensures
        h == n as int / 2,
{
    if n >= 0 {
        n / 2
    } else {
        -((1 - n) / 2)
    }
}

/// How far one may go in a direction before an obstacle is too near.
pub fn measure_ray(from: (i64, i64), dir: (i64, i64), obs: (i64, i64), keep_out: i64) -> (limit:
    Option<i64>)
    requires
        in_reach(point(from)),
        in_reach(point(obs)),
        is_direction(point(dir)),
        -4 * FAR <= keep_out <= 4 * FAR,
    ensures
        as_int(limit) == ray_limit(point(from), point(dir), point(obs), keep_out as int),
        limit matches Some(l) ==> 0 <= l <= 4 * FAR,
{
    let d2: i128 = distance2(from, obs);
    proof {
        lemma_product_bound(keep_out as int, keep_out as int, 12_000_000_000, 12_000_000_000);
        assert(0 <= keep_out * keep_out) by (nonlinear_arith);
        lemma_product_bound(obs.0 - from.0, dir.0 as int, 2 * FAR as int, UNIT as int);
        lemma_product_bound(obs.1 - from.1, dir.1 as int, 2 * FAR as int, UNIT as int);
    }
    let k2: i128 = keep_out as i128 * keep_out as i128;
    if d2 < k2 {
        Some(0)
    } else {
        let f: i128 = (obs.0 as i128 - from.0 as i128) * dir.0 as i128 + (obs.1 as i128
            - from.1 as i128) * dir.1 as i128;
        let ghost big: int = 12_000_000_000_000_000_000;
        proof {
            assert(big * big == 144_000_000_000_000_000_000_000_000_000_000_000_000);
            lemma_product_bound(f as int, f as int, big, big);
            assert(0 <= f * f) by (nonlinear_arith);
        }
        let n: i128 = f * f - 1_000_000_000_000_000_000 * (d2 - k2);
        if n <= 0 {
            return None;
        }
        let c: i128 = square_root((n - 1) as u128) as i128 + 1;
        let hit: i128 = f - c;
        if hit < 0 {
            None
        } else {
            Some((hit / 1_000_000_000) as i64)
        }
    }
}

pub open spec fn as_int(n: Option<i64>) -> Option<int> {
    match n {
        Some(n) => Some(n as int),
        None => None,
    }
}

pub open spec fn ints(list: Seq<i64>) -> Seq<int> {
    list.map_values(|n: i64| n as int)
}

pub open spec fn rows(list: Seq<Vec<i64>>) -> Seq<Seq<int>> {
    list.map_values(|r: Vec<i64>| ints(r@))
}

pub open spec fn directions(list: Seq<(i64, i64)>) -> Seq<(int, int)> {
    list.map_values(|d: (i64, i64)| point(d))
}

/// An offset from the wall of a bore that does not go beyond a limit from its middle.
pub open spec fn limited(offset: int, limit: Option<int>, radius: int) -> int {
    match limit {
        None => offset,
        Some(l) => lesser(offset, upper_of(l - radius, 0)),
    }
}

/// Offsets that keep clear of an obstacle.
pub open spec fn held_off(
    row: Seq<int>,
    dirs: Seq<(int, int)>,
    from: (int, int),
    radius: int,
    obs: (int, int),
    keep_out: int,
) -> Seq<int> {
    Seq::new(row.len(), |k: int| limited(row[k], ray_limit(from, dirs[k], obs, keep_out), radius))
}

/// Whether offsets are from nothing to `FAR`.
pub open spec fn fits_row(row: Seq<i64>) -> bool {
    forall|k: int| 0 <= k < row.len() ==> 0 <= #[trigger] row[k] <= FAR
}

/// Whether directions are no longer than the unit.
pub open spec fn fits_dirs(dirs: Seq<(i64, i64)>) -> bool {
    forall|k: int| 0 <= k < dirs.len() ==> is_direction(point(#[trigger] dirs[k]))
}

fn hold_off(
    row: &mut Vec<i64>,
    dirs: &Vec<(i64, i64)>,
    from: (i64, i64),
    radius: i64,
    obs: (i64, i64),
    keep_out: i64,
)
    requires
        old(row)@.len() == dirs@.len(),
        fits_row(old(row)@),
        fits_dirs(dirs@),
        in_reach(point(from)),
        in_reach(point(obs)),
        0 <= radius <= FAR,
        -4 * FAR <= keep_out <= 4 * FAR,
    ensures
        ints(final(row)@) == held_off(
            ints(old(row)@),
            directions(dirs@),
            point(from),
            radius as int,
            point(obs),
            keep_out as int,
        ),
        fits_row(final(row)@),
        final(row)@.len() == old(row)@.len(),
{
    let ghost start = row@;
    let ghost want = held_off(
        ints(start),
        directions(dirs@),
        point(from),
        radius as int,
        point(obs),
        keep_out as int,
    );
    let mut k: usize = 0;
    while k < row.len()
        invariant
            k <= row@.len(),
            row@.len() == start.len(),
            row@.len() == dirs@.len(),
            fits_row(row@),
            fits_row(start),
            fits_dirs(dirs@),
            in_reach(point(from)),
            in_reach(point(obs)),
            0 <= radius <= FAR,
            -4 * FAR <= keep_out <= 4 * FAR,
            want == held_off(
                ints(start),
                directions(dirs@),
                point(from),
                radius as int,
                point(obs),
                keep_out as int,
            ),
            forall|j: int| 0 <= j < k ==> #[trigger] row@[j] == want[j],
            forall|j: int| k <= j < row@.len() ==> #[trigger] row@[j] == start[j],
        decreases row@.len() - k,
    {
        let was: i64 = row[k];
        assert(is_direction(point(dirs@[k as int])));
        let now: i64 = match measure_ray(from, dirs[k], obs, keep_out) {
            None => was,
            Some(l) => smaller(was, larger(l - radius, 0)),
        };
        proof {
            assert(ints(start)[k as int] == was);
            assert(directions(dirs@)[k as int] == point(dirs@[k as int]));
            assert(want[k as int] == now);
        }
        row.set(k, now);
        k += 1;
    }
    proof {
        assert(ints(row@) =~= want);
    }
}

/// The wider side of a hole.
pub open spec fn across(h: HoleModel) -> int {
    upper_of(h.w, h.h)
}

/// Half the wider side of a hole.
pub open spec fn radius_of(h: HoleModel) -> int {
    across(h) / 2
}

/// What a mouth keeps from the middle of a trace.
pub open spec fn keep_from_trace(rules: BoreRules) -> int {
    rules.channel as int / 2 + rules.rim
}

/// Twice how far from the middle of a hole a trace can be in the way.
pub open spec fn twice_reach(h: HoleModel, rules: BoreRules) -> int {
    across(h) + 2 * rules.offset + 2 * keep_from_trace(rules)
}

/// The part of a number that `s` of `n` equal steps make up, cut to whole units.
pub open spec fn part_of(x: int, s: int, n: int) -> int {
    if x >= 0 {
        x * s / n
    } else {
        -((-x) * s / n)
    }
}

/// The place `s` of `n` equal steps along a trace.
pub open spec fn step_along(t: Trace, s: int, n: int) -> (int, int) {
    (
        t.start.x + part_of(t.end.x - t.start.x, s, n),
        t.start.y + part_of(t.end.y - t.start.y, s, n),
    )
}

/// In how many steps a trace is gone along.
pub open spec fn steps_along(t: Trace, rules: BoreRules) -> int {
    let length = root(apart2(ends(t).0, ends(t).1));
    let stride = upper_of(keep_from_trace(rules), 50_000);
    let n = (length + stride - 1) / stride;
    if n < 1 {
        1
    } else if n > 64 {
        64
    } else {
        n
    }
}

pub open spec fn ends(t: Trace) -> ((int, int), (int, int)) {
    ((t.start.x as int, t.start.y as int), (t.end.x as int, t.end.y as int))
}

/// Offsets that keep clear of the first places along a trace.
pub open spec fn off_places(
    row: Seq<int>,
    dirs: Seq<(int, int)>,
    h: HoleModel,
    t: Trace,
    rules: BoreRules,
    upto: nat,
) -> Seq<int>
    decreases upto,
{
    if upto == 0 {
        row
    } else {
        let front = off_places(row, dirs, h, t, rules, (upto - 1) as nat);
        let p = step_along(t, upto - 1, steps_along(t, rules));
        if root(4 * apart2(p, h.center)) > twice_reach(h, rules) {
            front
        } else {
            held_off(front, dirs, h.center, radius_of(h), p, keep_from_trace(rules))
        }
    }
}

/// Whether a trace is in the way of a mouth. One that runs into the hole is the hole's
/// own connection.
pub open spec fn in_the_way(h: HoleModel, t: Trace, rules: BoreRules) -> bool {
    let d = twice_gap(h.center, ends(t).0, ends(t).1);
    across(h) + rules.channel < d <= twice_reach(h, rules)
}

/// Offsets that keep clear of traces.
pub open spec fn off_traces(
    row: Seq<int>,
    dirs: Seq<(int, int)>,
    h: HoleModel,
    traces: Seq<Trace>,
    rules: BoreRules,
) -> Seq<int>
    decreases traces.len(),
{
    if traces.len() == 0 {
        row
    } else {
        let front = off_traces(row, dirs, h, traces.drop_last(), rules);
        let t = traces.last();
        if in_the_way(h, t, rules) {
            off_places(front, dirs, h, t, rules, (steps_along(t, rules) + 1) as nat)
        } else {
            front
        }
    }
}

/// Whether rules can be followed in whole numbers.
pub open spec fn fits_rules(rules: BoreRules) -> bool {
    &&& 0 <= rules.offset <= FAR
    &&& 0 <= rules.depth <= FAR
    &&& 0 <= rules.slope <= FAR
    &&& -FAR <= rules.rim <= FAR
    &&& -FAR <= rules.channel <= FAR
}

/// Whether a hole lies within reach.
pub open spec fn fits_hole(h: HoleModel) -> bool {
    in_reach(h.center) && 0 <= h.w <= FAR && 0 <= h.h <= FAR
}

/// Whether a trace lies within reach.
pub open spec fn fits_trace(t: Trace) -> bool {
    in_reach(ends(t).0) && in_reach(ends(t).1)
}

proof fn lemma_part_bounds(x: int, s: int, n: int)
    requires
        0 <= s <= n,
        0 < n,
    ensures
        x >= 0 ==> 0 <= part_of(x, s, n) <= x,
        x < 0 ==> x <= part_of(x, s, n) <= 0,
{
    let y = if x >= 0 {
        x
    } else {
        -x
    };
    assert(0 <= y * s && y * s <= y * n) by (nonlinear_arith)
        requires
            0 <= s <= n,
            0 <= y,
    ;
    assert(0 <= y * s / n <= y) by (nonlinear_arith)
        requires
            0 <= y * s <= y * n,
            0 < n,
    ;
}

fn part(x: i64, s: i64, n: i64) -> (p: i64)
    requires
        0 <= s <= n <= 64,
        0 < n,
        -2 * FAR <= x <= 2 * FAR,
    ensures
        p == part_of(x as int, s as int, n as int),
{
    proof {
        lemma_part_bounds(x as int, s as int, n as int);
        lemma_product_bound(x as int, s as int, 2 * FAR as int, 64);
        lemma_product_bound(-x as int, s as int, 2 * FAR as int, 64);
        if x >= 0 {
            assert(0 <= x * s) by (nonlinear_arith)
                requires
                    0 <= x,
                    0 <= s,
            ;
        } else {
            assert(0 <= (-x) * s) by (nonlinear_arith)
                requires
                    x < 0,
                    0 <= s,
            ;
        }
    }
    if x >= 0 {
        x * s / n
    } else {
        -((-x) * s / n)
    }
}

fn keep_off_trace(
    row: &mut Vec<i64>,
    dirs: &Vec<(i64, i64)>,
    hole: &Hole,
    t: &Trace,
    rules: &BoreRules,
)
    requires
        old(row)@.len() == dirs@.len(),
        fits_row(old(row)@),
        fits_dirs(dirs@),
        fits_hole(hole_model(*hole)),
        fits_trace(*t),
        fits_rules(*rules),
    ensures
        ints(final(row)@) == (if in_the_way(hole_model(*hole), *t, *rules) {
            off_places(
                ints(old(row)@),
                directions(dirs@),
                hole_model(*hole),
                *t,
                *rules,
                (steps_along(*t, *rules) + 1) as nat,
            )
        } else {
            ints(old(row)@)
        }),
        fits_row(final(row)@),
        final(row)@.len() == old(row)@.len(),
{
    let ghost h = hole_model(*hole);
    let ghost start = ints(row@);
    let center: (i64, i64) = (hole.center.x, hole.center.y);
    let a: (i64, i64) = (t.start.x, t.start.y);
    let b: (i64, i64) = (t.end.x, t.end.y);
    let wide: i64 = larger(hole.w, hole.h);
    let radius: i64 = wide / 2;
    let keep_out: i64 = half_of(rules.channel) + rules.rim;
    let reach2: i64 = wide + 2 * rules.offset + 2 * keep_out;
    let d: i64 = twice_from_segment(center, a, b);
    if wide + rules.channel < d && d <= reach2 {
        let length: i64 = {
            let r: u128 = square_root(distance2(a, b) as u128);
            proof {
                assert(r <= 12_000_000_000) by (nonlinear_arith)
                    requires
                        r * r <= 72_000_000_000_000_000_000,
                ;
            }
            r as i64
        };
        let stride: i64 = larger(keep_out, 50_000);
        let whole: i64 = (length + stride - 1) / stride;
        let steps: i64 = if whole < 1 {
            1
        } else if whole > 64 {
            64
        } else {
            whole
        };
        assert(steps == steps_along(*t, *rules));
        let mut s: i64 = 0;
        while s <= steps
            invariant
                0 <= s <= steps + 1,
                1 <= steps <= 64,
                steps == steps_along(*t, *rules),
                h == hole_model(*hole),
                fits_hole(h),
                fits_trace(*t),
                fits_rules(*rules),
                fits_dirs(dirs@),
                fits_row(row@),
                row@.len() == dirs@.len(),
                point(center) == h.center,
                radius == radius_of(h),
                keep_out == keep_from_trace(*rules),
                reach2 == twice_reach(h, *rules),
                ints(row@) == off_places(start, directions(dirs@), h, *t, *rules, s as nat),
            decreases steps + 1 - s,
        {
            proof {
                lemma_part_bounds(t.end.x - t.start.x, s as int, steps as int);
                lemma_part_bounds(t.end.y - t.start.y, s as int, steps as int);
            }
            let p: (i64, i64) = (
                t.start.x + part(t.end.x - t.start.x, s, steps),
                t.start.y + part(t.end.y - t.start.y, s, steps),
            );
            assert(point(p) == step_along(*t, s as int, steps as int));
            let far: u128 = square_root(4 * distance2(p, center) as u128);
            if 0 <= reach2 && far <= reach2 as u128 {
                hold_off(row, dirs, center, radius, p, keep_out);
            }
            s += 1;
            assert((s - 1) as nat == (s as nat - 1) as nat);
        }
    }
}

fn keep_off_traces(
    row: &mut Vec<i64>,
    dirs: &Vec<(i64, i64)>,
    hole: &Hole,
    traces: &Vec<Trace>,
    rules: &BoreRules,
)
    requires
        old(row)@.len() == dirs@.len(),
        fits_row(old(row)@),
        fits_dirs(dirs@),
        fits_hole(hole_model(*hole)),
        forall|i: int| 0 <= i < traces@.len() ==> fits_trace(#[trigger] traces@[i]),
        fits_rules(*rules),
    ensures
        ints(final(row)@) == off_traces(
            ints(old(row)@),
            directions(dirs@),
            hole_model(*hole),
            traces@,
            *rules,
        ),
        fits_row(final(row)@),
        final(row)@.len() == old(row)@.len(),
{
    let ghost start = ints(row@);
    let mut i: usize = 0;
    proof {
        assert(traces@.take(0).len() == 0);
    }
    while i < traces.len()
        invariant
            i <= traces@.len(),
            row@.len() == dirs@.len(),
            fits_row(row@),
            fits_dirs(dirs@),
            fits_hole(hole_model(*hole)),
            forall|j: int| 0 <= j < traces@.len() ==> fits_trace(#[trigger] traces@[j]),
            fits_rules(*rules),
            ints(row@) == off_traces(
                start,
                directions(dirs@),
                hole_model(*hole),
                traces@.take(i as int),
                *rules,
            ),
        decreases traces@.len() - i,
    {
        proof {
            assert(traces@.take(i + 1).drop_last() =~= traces@.take(i as int));
        }
        keep_off_trace(row, dirs, hole, &traces[i], rules);
        i += 1;
    }
    proof {
        assert(traces@.take(traces@.len() as int) =~= traces@);
    }
}

/// The widest of offsets, at least nothing.
pub open spec fn widest(row: Seq<int>) -> int
    decreases row.len(),
{
    if row.len() == 0 {
        0
    } else {
        upper_of(widest(row.drop_last()), row.last())
    }
}

pub open spec fn widest_of(list: Seq<Seq<int>>) -> Seq<int> {
    list.map_values(|r: Seq<int>| widest(r))
}

/// Whether two holes are known to be on one net.
pub open spec fn same_net(a: HoleModel, b: HoleModel) -> bool {
    a.net is Some && a.net == b.net
}

/// What a mouth keeps from the middle of another hole, whose mouth reaches `reach`.
pub open spec fn keep_from_hole(h: HoleModel, reach: int, rules: BoreRules) -> int {
    radius_of(h) + reach + rules.rim
}

/// Offsets of a hole that keep clear of the first of the other holes.
pub open spec fn off_holes(
    row: Seq<int>,
    dirs: Seq<(int, int)>,
    holes: Seq<HoleModel>,
    i: int,
    reaches: Seq<int>,
    rules: BoreRules,
    upto: nat,
) -> Seq<int>
    decreases upto,
{
    if upto == 0 {
        row
    } else {
        let j = upto - 1;
        let front = off_holes(row, dirs, holes, i, reaches, rules, (upto - 1) as nat);
        if i == j || same_net(holes[i], holes[j]) {
            front
        } else {
            held_off(
                front,
                dirs,
                holes[i].center,
                radius_of(holes[i]),
                holes[j].center,
                keep_from_hole(holes[j], reaches[j], rules),
            )
        }
    }
}

/// One pass over all holes. Each is held off the others by how far these reach before
/// the pass, which is no less than how far they reach after it.
pub open spec fn pass(
    list: Seq<Seq<int>>,
    dirs: Seq<Seq<(int, int)>>,
    holes: Seq<HoleModel>,
    rules: BoreRules,
) -> Seq<Seq<int>> {
    Seq::new(
        list.len(),
        |i: int|
            off_holes(list[i], dirs[i], holes, i, widest_of(list), rules, holes.len()),
    )
}

/// A number of passes.
pub open spec fn passes(
    list: Seq<Seq<int>>,
    dirs: Seq<Seq<(int, int)>>,
    holes: Seq<HoleModel>,
    rules: BoreRules,
    n: nat,
) -> Seq<Seq<int>>
    decreases n,
{
    if n == 0 {
        list
    } else {
        pass(passes(list, dirs, holes, rules, (n - 1) as nat), dirs, holes, rules)
    }
}

/// Whether each offset of the first list is no more than that of the second.
pub open spec fn no_wider(a: Seq<int>, b: Seq<int>) -> bool {
    a.len() == b.len() && forall|k: int| 0 <= k < a.len() ==> #[trigger] a[k] <= b[k]
}

proof fn lemma_off_holes_shrinks(
    row: Seq<int>,
    dirs: Seq<(int, int)>,
    holes: Seq<HoleModel>,
    i: int,
    reaches: Seq<int>,
    rules: BoreRules,
    from: nat,
    upto: nat,
)
    requires
        from <= upto,
    ensures
        no_wider(
            off_holes(row, dirs, holes, i, reaches, rules, upto),
            off_holes(row, dirs, holes, i, reaches, rules, from),
        ),
    decreases upto,
{
    if from < upto {
        lemma_off_holes_shrinks(row, dirs, holes, i, reaches, rules, from, (upto - 1) as nat);
    }
}

proof fn lemma_widest_no_wider(a: Seq<int>, b: Seq<int>)
    requires
        no_wider(a, b),
    ensures
        widest(a) <= widest(b),
    decreases a.len(),
{
    if a.len() > 0 {
        assert forall|k: int| 0 <= k < a.drop_last().len() implies #[trigger] a.drop_last()[k]
            <= b.drop_last()[k] by {
            assert(a[k] <= b[k]);
        }
        lemma_widest_no_wider(a.drop_last(), b.drop_last());
    }
}

proof fn lemma_widest_not_below(row: Seq<int>)
    ensures
        widest(row) >= 0,
    decreases row.len(),
{
    if row.len() > 0 {
        lemma_widest_not_below(row.drop_last());
    }
}

/// After a pass, no mouth reaches further than before.
pub proof fn lemma_pass_shrinks(
    list: Seq<Seq<int>>,
    dirs: Seq<Seq<(int, int)>>,
    holes: Seq<HoleModel>,
    rules: BoreRules,
    i: int,
)
    requires
        0 <= i < list.len(),
    ensures
        no_wider(pass(list, dirs, holes, rules)[i], list[i]),
        widest(pass(list, dirs, holes, rules)[i]) <= widest(list[i]),
{
    lemma_off_holes_shrinks(
        list[i],
        dirs[i],
        holes,
        i,
        widest_of(list),
        rules,
        0,
        holes.len(),
    );
    lemma_widest_no_wider(pass(list, dirs, holes, rules)[i], list[i]);
}

/// Where a mouth reaches beyond its bore after at least one pass, it is clear of the
/// mouth of every hole that is not on its net, by the rim at least, however that
/// mouth is turned.
pub proof fn lemma_mouths_clear(
    list: Seq<Seq<int>>,
    dirs: Seq<Seq<(int, int)>>,
    holes: Seq<HoleModel>,
    rules: BoreRules,
    n: nat,
    i: int,
    j: int,
    k: int,
)
    requires
        list.len() == holes.len(),
        n > 0,
        0 <= i < holes.len(),
        0 <= j < holes.len(),
        i != j,
        !same_net(holes[i], holes[j]),
        0 <= k < list[i].len(),
        radius_of(holes[i]) >= 0,
        radius_of(holes[j]) >= 0,
        rules.rim >= 0,
        passes(list, dirs, holes, rules, n)[i][k] > 0,
    ensures
        ({
            let now = passes(list, dirs, holes, rules, n);
            is_clear(
                holes[i].center,
                dirs[i][k],
                holes[j].center,
                keep_from_hole(holes[j], widest(now[j]), rules),
                radius_of(holes[i]) + now[i][k],
            )
        }),
{
    lemma_passes_shape(list, dirs, holes, rules, (n - 1) as nat);
    let was = passes(list, dirs, holes, rules, (n - 1) as nat);
    let now = passes(list, dirs, holes, rules, n);
    assert(now == pass(was, dirs, holes, rules));
    let reaches = widest_of(was);
    let upto = (j + 1) as nat;
    let front = off_holes(was[i], dirs[i], holes, i, reaches, rules, j as nat);
    let then = off_holes(was[i], dirs[i], holes, i, reaches, rules, upto);
    assert((upto - 1) as nat == j as nat);
    lemma_off_holes_shrinks(was[i], dirs[i], holes, i, reaches, rules, upto, holes.len());
    lemma_off_holes_shrinks(was[i], dirs[i], holes, i, reaches, rules, 0, j as nat);
    assert(now[i][k] <= then[k]);
    let keep = keep_from_hole(holes[j], reaches[j], rules);
    assert(then == held_off(
        front,
        dirs[i],
        holes[i].center,
        radius_of(holes[i]),
        holes[j].center,
        keep,
    ));
    let limit = ray_limit(holes[i].center, dirs[i][k], holes[j].center, keep);
    assert(then[k] == limited(front[k], limit, radius_of(holes[i])));
    let h = radius_of(holes[i]) + now[i][k];
    lemma_within_limit_is_clear(holes[i].center, dirs[i][k], holes[j].center, keep, h);
    lemma_pass_shrinks(was, dirs, holes, rules, j);
    lemma_widest_not_below(now[j]);
    lemma_smaller_keep_out(
        holes[i].center,
        dirs[i][k],
        holes[j].center,
        keep,
        keep_from_hole(holes[j], widest(now[j]), rules),
        h,
    );
}

proof fn lemma_passes_shape(
    list: Seq<Seq<int>>,
    dirs: Seq<Seq<(int, int)>>,
    holes: Seq<HoleModel>,
    rules: BoreRules,
    n: nat,
)
    ensures
        passes(list, dirs, holes, rules, n).len() == list.len(),
        forall|i: int|
            0 <= i < list.len() ==> (#[trigger] passes(list, dirs, holes, rules, n)[i]).len()
                == list[i].len(),
    decreases n,
{
    if n > 0 {
        lemma_passes_shape(list, dirs, holes, rules, (n - 1) as nat);
        let was = passes(list, dirs, holes, rules, (n - 1) as nat);
        assert forall|i: int| 0 <= i < list.len() implies (#[trigger] passes(
            list,
            dirs,
            holes,
            rules,
            n,
        )[i]).len() == list[i].len() by {
            lemma_pass_shrinks(was, dirs, holes, rules, i);
        }
    }
}

/// Offsets before anything but the edge of the board is in the way.
pub open spec fn first_offset(h: HoleModel, edge: int, rules: BoreRules) -> int {
    lesser(rules.offset as int, upper_of(edge - radius_of(h) - rules.rim, 0))
}

/// The offsets of a hole that keep clear of the edge and of traces.
pub open spec fn first_row(
    h: HoleModel,
    edge: int,
    dirs: Seq<(int, int)>,
    traces: Seq<Trace>,
    rules: BoreRules,
) -> Seq<int> {
    off_traces(
        Seq::new(dirs.len(), |k: int| first_offset(h, edge, rules)),
        dirs,
        h,
        traces,
        rules,
    )
}

/// The offsets of all holes that keep clear of the edge and of traces.
pub open spec fn first_rows(
    holes: Seq<HoleModel>,
    edges: Seq<i64>,
    dirs: Seq<Seq<(int, int)>>,
    traces: Seq<Trace>,
    rules: BoreRules,
) -> Seq<Seq<int>> {
    Seq::new(
        holes.len(),
        |i: int| first_row(holes[i], edges[i] as int, dirs[i], traces, rules),
    )
}

pub open spec fn direction_rows(list: Seq<Vec<(i64, i64)>>) -> Seq<Seq<(int, int)>> {
    list.map_values(|r: Vec<(i64, i64)>| directions(r@))
}

fn start_row(
    hole: &Hole,
    edge: i64,
    dirs: &Vec<(i64, i64)>,
    traces: &Vec<Trace>,
    rules: &BoreRules,
) -> (row: Vec<i64>)
    requires
        fits_hole(hole_model(*hole)),
        0 <= edge <= 4 * FAR,
        fits_dirs(dirs@),
        forall|i: int| 0 <= i < traces@.len() ==> fits_trace(#[trigger] traces@[i]),
        fits_rules(*rules),
    ensures
        ints(row@) == first_row(
            hole_model(*hole),
            edge as int,
            directions(dirs@),
            traces@,
            *rules,
        ),
        fits_row(row@),
        row@.len() == dirs@.len(),
{
    let radius: i64 = larger(hole.w, hole.h) / 2;
    let first: i64 = smaller(rules.offset, larger(edge - radius - rules.rim, 0));
    let mut row: Vec<i64> = Vec::new();
    while row.len() < dirs.len()
        invariant
            row@.len() <= dirs@.len(),
            0 <= first <= FAR,
            forall|k: int| 0 <= k < row@.len() ==> #[trigger] row@[k] == first,
        decreases dirs@.len() - row@.len(),
    {
        row.push(first);
    }
    proof {
        assert(ints(row@) =~= Seq::new(
            directions(dirs@).len(),
            |k: int| first_offset(hole_model(*hole), edge as int, *rules),
        ));
    }
    keep_off_traces(&mut row, dirs, hole, traces, rules);
    row
}

fn widest_in(row: &Vec<i64>) -> (w: i64)
    requires
        fits_row(row@),
    ensures
        w == widest(ints(row@)),
        0 <= w <= FAR,
{
    let ghost all = ints(row@);
    let mut w: i64 = 0;
    let mut k: usize = 0;
    proof {
        assert(all.take(0).len() == 0);
    }
    while k < row.len()
        invariant
            k <= row@.len(),
            all == ints(row@),
            fits_row(row@),
            0 <= w <= FAR,
            w == widest(all.take(k as int)),
        decreases row@.len() - k,
    {
        proof {
            assert(all.take(k + 1).drop_last() =~= all.take(k as int));
            assert(row@[k as int] == all[k as int]);
        }
        w = larger(w, row[k]);
        k += 1;
    }
    proof {
        assert(all.take(all.len() as int) =~= all);
    }
    w
}

fn share_net(a: &Hole, b: &Hole) -> (yes: bool)
    ensures
        yes == same_net(hole_model(*a), hole_model(*b)),
{
    match (&a.net, &b.net) {
        (Some(x), Some(y)) => same_str(x.as_str(), y.as_str()),
        _ => false,
    }
}

/// Whether everything that is planned with lies within reach.
pub open spec fn fits_plan(
    holes: Seq<Hole>,
    edges: Seq<i64>,
    dirs: Seq<Vec<(i64, i64)>>,
    traces: Seq<Trace>,
    rules: BoreRules,
) -> bool {
    &&& edges.len() == holes.len()
    &&& dirs.len() == holes.len()
    &&& fits_rules(rules)
    &&& forall|i: int| 0 <= i < holes.len() ==> fits_hole(hole_model(#[trigger] holes[i]))
    &&& forall|i: int| 0 <= i < edges.len() ==> 0 <= #[trigger] edges[i] <= 4 * FAR
    &&& forall|i: int| 0 <= i < dirs.len() ==> fits_dirs((#[trigger] dirs[i])@)
    &&& forall|i: int| 0 <= i < traces.len() ==> fits_trace(#[trigger] traces[i])
}

fn one_pass(
    list: &mut Vec<Vec<i64>>,
    dirs: &Vec<Vec<(i64, i64)>>,
    holes: &Vec<Hole>,
    rules: &BoreRules,
)
    requires
        old(list)@.len() == holes@.len(),
        dirs@.len() == holes@.len(),
        fits_rules(*rules),
        forall|i: int| 0 <= i < holes@.len() ==> fits_hole(hole_model(#[trigger] holes@[i])),
        forall|i: int| 0 <= i < dirs@.len() ==> fits_dirs((#[trigger] dirs@[i])@),
        forall|i: int|
            0 <= i < old(list)@.len() ==> fits_row((#[trigger] old(list)@[i])@) && old(list)@[i]@.len() == dirs@[i]@.len(),
    ensures
        rows(final(list)@) == pass(
            rows(old(list)@),
            direction_rows(dirs@),
            hole_models(holes@),
            *rules,
        ),
        final(list)@.len() == holes@.len(),
        forall|i: int|
            0 <= i < final(list)@.len() ==> fits_row((#[trigger] final(list)@[i])@) && final(list)@[i]@.len() == dirs@[i]@.len(),
{
    let ghost start = rows(list@);
    let ghost models = hole_models(holes@);
    let ghost dmodels = direction_rows(dirs@);
    let ghost want = pass(start, dmodels, models, *rules);
    let mut reaches: Vec<i64> = Vec::new();
    while reaches.len() < list.len()
        invariant
            reaches@.len() <= list@.len(),
            start == rows(list@),
            forall|i: int| 0 <= i < list@.len() ==> fits_row((#[trigger] list@[i])@),
            forall|i: int|
                0 <= i < reaches@.len() ==> #[trigger] reaches@[i] == widest_of(start)[i] && 0
                    <= reaches@[i] <= FAR,
        decreases list@.len() - reaches@.len(),
    {
        let i: usize = reaches.len();
        assert(fits_row(list@[i as int]@));
        let w: i64 = widest_in(&list[i]);
        assert(start[i as int] == ints(list@[i as int]@));
        reaches.push(w);
    }
    let mut done: Vec<Vec<i64>> = Vec::new();
    let mut i: usize = 0;
    while i < holes.len()
        invariant
            i <= holes@.len(),
            done@.len() == i,
            list@.len() == holes@.len(),
            dirs@.len() == holes@.len(),
            reaches@.len() == holes@.len(),
            models == hole_models(holes@),
            dmodels == direction_rows(dirs@),
            start == rows(list@),
            want == pass(start, dmodels, models, *rules),
            fits_rules(*rules),
            forall|j: int| 0 <= j < holes@.len() ==> fits_hole(hole_model(#[trigger] holes@[j])),
            forall|j: int| 0 <= j < dirs@.len() ==> fits_dirs((#[trigger] dirs@[j])@),
            forall|j: int|
                0 <= j < list@.len() ==> fits_row((#[trigger] list@[j])@) && list@[j]@.len()
                    == dirs@[j]@.len(),
            forall|j: int|
                0 <= j < reaches@.len() ==> #[trigger] reaches@[j] == widest_of(start)[j] && 0
                    <= reaches@[j] <= FAR,
            forall|j: int|
                0 <= j < i ==> ints((#[trigger] done@[j])@) == want[j] && fits_row(done@[j]@)
                    && done@[j]@.len() == dirs@[j]@.len(),
        decreases holes@.len() - i,
    {
        let mut row: Vec<i64> = Vec::new();
        assert(fits_row(list@[i as int]@) && list@[i as int]@.len() == dirs@[i as int]@.len());
        while row.len() < list[i].len()
            invariant
                i < list@.len(),
                row@.len() <= list@[i as int]@.len(),
                fits_row(list@[i as int]@),
                forall|k: int| 0 <= k < row@.len() ==> #[trigger] row@[k] == list@[i as int]@[k],
            decreases list@[i as int]@.len() - row@.len(),
        {
            let k: usize = row.len();
            row.push(list[i][k]);
        }
        proof {
            assert(row@ =~= list@[i as int]@);
            assert(start[i as int] == ints(row@));
            assert(dmodels[i as int] == directions(dirs@[i as int]@));
        }
        let ghost base = ints(row@);
        let center: (i64, i64) = (holes[i].center.x, holes[i].center.y);
        let radius: i64 = larger(holes[i].w, holes[i].h) / 2;
        assert(fits_hole(hole_model(holes@[i as int])));
        assert(models[i as int] == hole_model(holes@[i as int]));
        assert(fits_dirs(dirs@[i as int]@));
        let mut j: usize = 0;
        while j < holes.len()
            invariant
                j <= holes@.len(),
                i < holes@.len(),
                list@.len() == holes@.len(),
                dirs@.len() == holes@.len(),
                reaches@.len() == holes@.len(),
                models == hole_models(holes@),
                dmodels == direction_rows(dirs@),
                fits_rules(*rules),
                forall|l: int|
                    0 <= l < holes@.len() ==> fits_hole(hole_model(#[trigger] holes@[l])),
                fits_dirs(dirs@[i as int]@),
                dmodels[i as int] == directions(dirs@[i as int]@),
                models[i as int] == hole_model(holes@[i as int]),
                fits_hole(models[i as int]),
                point(center) == models[i as int].center,
                radius == radius_of(models[i as int]),
                row@.len() == dirs@[i as int]@.len(),
                fits_row(row@),
                forall|l: int|
                    0 <= l < reaches@.len() ==> #[trigger] reaches@[l] == widest_of(start)[l] && 0
                        <= reaches@[l] <= FAR,
                ints(row@) == off_holes(
                    base,
                    dmodels[i as int],
                    models,
                    i as int,
                    widest_of(start),
                    *rules,
                    j as nat,
                ),
            decreases holes@.len() - j,
        {
            assert(models[j as int] == hole_model(holes@[j as int]));
            assert(fits_hole(hole_model(holes@[j as int])));
            assert(reaches@[j as int] == widest_of(start)[j as int]);
            if i != j && !share_net(&holes[i], &holes[j]) {
                let keep_out: i64 = larger(holes[j].w, holes[j].h) / 2 + reaches[j] + rules.rim;
                let obs: (i64, i64) = (holes[j].center.x, holes[j].center.y);
                hold_off(&mut row, &dirs[i], center, radius, obs, keep_out);
            }
            j += 1;
            assert((j as nat - 1) as nat == (j - 1) as nat);
        }
        proof {
            assert(ints(row@) == want[i as int]);
        }
        done.push(row);
        i += 1;
    }
    *list = done;
    proof {
        assert(rows(list@) =~= want);
    }
}

/// Half of what is left of the board between the throats, but no deeper than the
/// channels.
pub open spec fn wanted_depth(thickness: int, throat: int, channel_depth: int) -> int {
    upper_of(lesser((thickness - throat) / 2, channel_depth), 0)
}

/// How deep a cone goes where nothing is in the way.
pub fn cone_depth_wanted(thickness: i64, throat: i64, channel_depth: i64) -> (depth: i64)
    ensures
        depth == wanted_depth(thickness as int, throat as int, channel_depth as int),
{
    let rest: i128 = thickness as i128 - throat as i128;
    if rest <= 0 || channel_depth <= 0 {
        return 0;
    }
    let half: i128 = rest / 2;
    if half < channel_depth as i128 {
        half as i64
    } else {
        channel_depth
    }
}

/// How far a mouth reaches at a depth, for a slope in millionths.
pub open spec fn run_of(depth: int, slope: int) -> int {
    depth * 1_000_000 / slope
}

/// How far a mouth reaches at a depth.
pub fn run_for(depth: i64, slope: i64) -> (run: i128)
    requires
        0 <= depth,
        0 < slope,
    ensures
        run == run_of(depth as int, slope as int),
{
    depth as i128 * 1_000_000 / slope as i128
}

/// How deep the cone of a mouth goes that reaches `reach`.
pub open spec fn depth_for(reach: int, rules: BoreRules) -> int {
    lesser(reach * rules.slope / 1_000_000, rules.depth as int)
}

/// Whether a bore is a hole with its mouth.
pub open spec fn is_bore(b: Bore, h: HoleModel, row: Seq<int>, rules: BoreRules) -> bool {
    &&& (b.center.x as int, b.center.y as int) == h.center
    &&& b.w == h.w
    &&& b.h == h.h
    &&& b.rotation == h.rotation
    &&& ints(b.mouth_offsets@) == row
    &&& b.cone_depth == depth_for(widest(row), rules)
    &&& b.sides == row.len()
}

/// What came of the plan as a whole.
#[derive(Debug)]
pub struct BorePlan {
    pub bores: Vec<Bore>,
    /// How many mouths reach less far than wanted.
    pub limited: usize,
    /// How many have no mouth at all.
    pub straight: usize,
    /// How many pairs of holes on different nets are too near each other even so.
    pub tight: u128,
}

/// How many offsets stay below what is wanted, in every direction.
pub open spec fn limited_count(list: Seq<Seq<int>>, wanted: int) -> nat
    decreases list.len(),
{
    if list.len() == 0 {
        0
    } else {
        limited_count(list.drop_last(), wanted) + if widest(list.last()) < wanted {
            1nat
        } else {
            0nat
        }
    }
}

/// Whether two holes on different nets are too near each other for any mouth.
pub open spec fn is_tight(a: HoleModel, b: HoleModel, rules: BoreRules) -> bool {
    !same_net(a, b) && root(4 * apart2(a.center, b.center)) < across(a) + across(b) + 4
        * COLLAR_GAP + 2 * rules.rim
}

/// How many of the first holes are too near to one after them.
pub open spec fn tight_with(holes: Seq<HoleModel>, j: int, upto: nat, rules: BoreRules) -> nat
    decreases upto,
{
    if upto == 0 {
        0
    } else {
        tight_with(holes, j, (upto - 1) as nat, rules) + if is_tight(
            holes[upto - 1],
            holes[j],
            rules,
        ) {
            1nat
        } else {
            0nat
        }
    }
}

/// How many pairs of the first holes are too near each other.
pub open spec fn tight_pairs(holes: Seq<HoleModel>, upto: nat, rules: BoreRules) -> nat
    decreases upto,
{
    if upto == 0 {
        0
    } else {
        tight_pairs(holes, (upto - 1) as nat, rules) + tight_with(
            holes,
            upto - 1,
            (upto - 1) as nat,
            rules,
        )
    }
}

fn too_near(a: &Hole, b: &Hole, rules: &BoreRules) -> (yes: bool)
    requires
        fits_hole(hole_model(*a)),
        fits_hole(hole_model(*b)),
        fits_rules(*rules),
    ensures
        yes == is_tight(hole_model(*a), hole_model(*b), *rules),
{
    if share_net(a, b) {
        return false;
    }
    let d: u128 = square_root(
        4 * distance2((a.center.x, a.center.y), (b.center.x, b.center.y)) as u128,
    );
    let bound: i64 = larger(a.w, a.h) + larger(b.w, b.h) + 4 * COLLAR_GAP + 2 * rules.rim;
    0 <= bound && d < bound as u128
}

/// How many times the holes are held off each other.
pub const CLEARANCE_PASSES: usize = 4;

/// The offsets of all holes in the end.
pub open spec fn planned(
    holes: Seq<HoleModel>,
    edges: Seq<i64>,
    dirs: Seq<Seq<(int, int)>>,
    traces: Seq<Trace>,
    rules: BoreRules,
) -> Seq<Seq<int>> {
    passes(
        first_rows(holes, edges, dirs, traces, rules),
        dirs,
        holes,
        rules,
        CLEARANCE_PASSES as nat,
    )
}

fn within_plan(
    holes: &Vec<Hole>,
    edges: &Vec<i64>,
    dirs: &Vec<Vec<(i64, i64)>>,
    traces: &Vec<Trace>,
    rules: &BoreRules,
) -> (yes: bool)
    ensures
        yes == fits_plan(holes@, edges@, dirs@, traces@, *rules),
{
    if edges.len() != holes.len() || dirs.len() != holes.len() {
        return false;
    }
    if !(0 <= rules.offset && rules.offset <= FAR && 0 <= rules.depth && rules.depth <= FAR && 0
        <= rules.slope && rules.slope <= FAR && -FAR <= rules.rim && rules.rim <= FAR && -FAR
        <= rules.channel && rules.channel <= FAR) {
        return false;
    }
    let mut i: usize = 0;
    while i < holes.len()
        invariant
            i <= holes@.len(),
            edges@.len() == holes@.len(),
            dirs@.len() == holes@.len(),
            forall|j: int| 0 <= j < i ==> fits_hole(hole_model(#[trigger] holes@[j])),
            forall|j: int| 0 <= j < i ==> 0 <= #[trigger] edges@[j] <= 4 * FAR,
            forall|j: int| 0 <= j < i ==> fits_dirs((#[trigger] dirs@[j])@),
        decreases holes@.len() - i,
    {
        let h = &holes[i];
        if !(reachable((h.center.x, h.center.y)) && 0 <= h.w && h.w <= FAR && 0 <= h.h && h.h
            <= FAR) {
            assert(!fits_hole(hole_model(holes@[i as int])));
            return false;
        }
        if !(0 <= edges[i] && edges[i] <= 4 * FAR) {
            return false;
        }
        let row = &dirs[i];
        let mut k: usize = 0;
        while k < row.len()
            invariant
                k <= row@.len(),
                i < dirs@.len(),
                row@ == dirs@[i as int]@,
                forall|l: int| 0 <= l < k ==> is_direction(point(#[trigger] row@[l])),
            decreases row@.len() - k,
        {
            let d = row[k];
            if !(-UNIT <= d.0 && d.0 <= UNIT && -UNIT <= d.1 && d.1 <= UNIT) {
                assert(!is_direction(point(row@[k as int])));
                assert(!fits_dirs(dirs@[i as int]@));
                return false;
            }
            k += 1;
        }
        i += 1;
    }
    let mut i: usize = 0;
    while i < traces.len()
        invariant
            i <= traces@.len(),
            forall|j: int| 0 <= j < i ==> fits_trace(#[trigger] traces@[j]),
        decreases traces@.len() - i,
    {
        let t = &traces[i];
        if !(reachable((t.start.x, t.start.y)) && reachable((t.end.x, t.end.y))) {
            assert(!fits_trace(traces@[i as int]));
            return false;
        }
        i += 1;
    }
    true
}

fn count_tight(holes: &Vec<Hole>, rules: &BoreRules) -> (n: u128)
    requires
        fits_rules(*rules),
        forall|i: int| 0 <= i < holes@.len() ==> fits_hole(hole_model(#[trigger] holes@[i])),
    ensures
        n == tight_pairs(hole_models(holes@), holes@.len(), *rules),
{
    let ghost models = hole_models(holes@);
    let mut n: u128 = 0;
    let mut j: usize = 0;
    while j < holes.len()
        invariant
            j <= holes@.len(),
            models == hole_models(holes@),
            fits_rules(*rules),
            forall|i: int| 0 <= i < holes@.len() ==> fits_hole(hole_model(#[trigger] holes@[i])),
            n == tight_pairs(models, j as nat, *rules),
            n <= j * 0x1_0000_0000_0000_0000,
        decreases holes@.len() - j,
    {
        let ghost before = n;
        let mut i: usize = 0;
        while i < j
            invariant
                i <= j < holes@.len(),
                models == hole_models(holes@),
                fits_rules(*rules),
                forall|l: int|
                    0 <= l < holes@.len() ==> fits_hole(hole_model(#[trigger] holes@[l])),
                n == before + tight_with(models, j as int, i as nat, *rules),
                before <= j * 0x1_0000_0000_0000_0000,
                n <= before + i,
            decreases j - i,
        {
            assert(models[i as int] == hole_model(holes@[i as int]));
            assert(models[j as int] == hole_model(holes@[j as int]));
            assert(fits_hole(hole_model(holes@[i as int])));
            assert(fits_hole(hole_model(holes@[j as int])));
            if too_near(&holes[i], &holes[j], rules) {
                n += 1;
            }
            i += 1;
            assert((i as nat - 1) as nat == (i - 1) as nat);
        }
        j += 1;
        assert((j as nat - 1) as nat == (j - 1) as nat);
    }
    n
}

/// Plans a mouth for every hole. `edges` says how far each hole is from the edge of
/// the board, `dirs` in which directions its outline is given. None if something lies
/// out of reach.
pub fn plan_bores(
    holes: &Vec<Hole>,
    edges: &Vec<i64>,
    dirs: &Vec<Vec<(i64, i64)>>,
    traces: &Vec<Trace>,
    rules: &BoreRules,
) -> (plan: Option<BorePlan>)
    ensures
        plan is Some == fits_plan(holes@, edges@, dirs@, traces@, *rules),
        plan matches Some(p) ==> {
            let models = hole_models(holes@);
            let list = planned(models, edges@, direction_rows(dirs@), traces@, *rules);
            &&& p.bores@.len() == models.len()
            &&& forall|i: int|
                0 <= i < models.len() ==> is_bore(#[trigger] p.bores@[i], models[i], list[i], *rules)
            &&& p.limited == limited_count(list, rules.offset as int)
            &&& p.straight == limited_count(list, 1)
            &&& p.tight == tight_pairs(models, models.len(), *rules)
        },
{
    if !within_plan(holes, edges, dirs, traces, rules) {
        return None;
    }
    let ghost models = hole_models(holes@);
    let ghost dmodels = direction_rows(dirs@);
    let ghost start = first_rows(models, edges@, dmodels, traces@, *rules);
    let mut list: Vec<Vec<i64>> = Vec::new();
    let mut i: usize = 0;
    while i < holes.len()
        invariant
            i <= holes@.len(),
            list@.len() == i,
            models == hole_models(holes@),
            dmodels == direction_rows(dirs@),
            start == first_rows(models, edges@, dmodels, traces@, *rules),
            fits_plan(holes@, edges@, dirs@, traces@, *rules),
            forall|j: int|
                0 <= j < i ==> ints((#[trigger] list@[j])@) == start[j] && fits_row(list@[j]@)
                    && list@[j]@.len() == dirs@[j]@.len(),
        decreases holes@.len() - i,
    {
        assert(fits_hole(hole_model(holes@[i as int])));
        assert(0 <= edges@[i as int] <= 4 * FAR);
        assert(fits_dirs(dirs@[i as int]@));
        let row = start_row(&holes[i], edges[i], &dirs[i], traces, rules);
        proof {
            assert(models[i as int] == hole_model(holes@[i as int]));
            assert(dmodels[i as int] == directions(dirs@[i as int]@));
            assert(start[i as int] == ints(row@));
        }
        list.push(row);
        i += 1;
    }
    proof {
        assert(rows(list@) =~= start);
    }
    let mut n: usize = 0;
    while n < CLEARANCE_PASSES
        invariant
            n <= CLEARANCE_PASSES,
            list@.len() == holes@.len(),
            models == hole_models(holes@),
            dmodels == direction_rows(dirs@),
            fits_plan(holes@, edges@, dirs@, traces@, *rules),
            rows(list@) == passes(start, dmodels, models, *rules, n as nat),
            forall|j: int|
                0 <= j < list@.len() ==> fits_row((#[trigger] list@[j])@) && list@[j]@.len()
                    == dirs@[j]@.len(),
        decreases CLEARANCE_PASSES - n,
    {
        one_pass(&mut list, dirs, holes, rules);
        n += 1;
        assert((n as nat - 1) as nat == (n - 1) as nat);
    }
    let ghost end = rows(list@);
    let ghost ends = list@;
    let mut bores: Vec<Bore> = Vec::new();
    let mut limited: usize = 0;
    let mut straight: usize = 0;
    let tight: u128 = count_tight(holes, rules);
    proof {
        assert(end.take(0).len() == 0);
    }
    let mut i: usize = 0;
    while i < holes.len()
        invariant
            i <= holes@.len(),
            list@.len() == holes@.len(),
            models == hole_models(holes@),
            end == rows(list@),
            fits_plan(holes@, edges@, dirs@, traces@, *rules),
            forall|j: int| 0 <= j < list@.len() ==> fits_row((#[trigger] list@[j])@),
            bores@.len() == i,
            forall|j: int|
                0 <= j < i ==> is_bore(#[trigger] bores@[j], models[j], end[j], *rules),
            limited == limited_count(end.take(i as int), rules.offset as int),
            straight == limited_count(end.take(i as int), 1),
            limited <= i,
            straight <= i,
        decreases holes@.len() - i,
    {
        assert(fits_row(list@[i as int]@));
        let w: i64 = widest_in(&list[i]);
        proof {
            assert(end.take(i + 1).drop_last() =~= end.take(i as int));
            assert(end.take(i + 1).last() == ints(list@[i as int]@));
            assert(models[i as int] == hole_model(holes@[i as int]));
            assert(0 <= w * rules.slope <= 3_000_000_000 * 3_000_000_000) by (nonlinear_arith)
                requires
                    0 <= w <= 3_000_000_000,
                    0 <= rules.slope <= 3_000_000_000,
            ;
        }
        if w < rules.offset {
            limited += 1;
        }
        if w < 1 {
            straight += 1;
        }
        let drop: i64 = w * rules.slope / 1_000_000;
        let mut row: Vec<i64> = Vec::new();
        while row.len() < list[i].len()
            invariant
                i < list@.len(),
                row@.len() <= list@[i as int]@.len(),
                forall|k: int| 0 <= k < row@.len() ==> #[trigger] row@[k] == list@[i as int]@[k],
            decreases list@[i as int]@.len() - row@.len(),
        {
            let k: usize = row.len();
            row.push(list[i][k]);
        }
        proof {
            assert(row@ =~= list@[i as int]@);
        }
        let sides: usize = row.len();
        let bore = Bore {
            center: holes[i].center,
            w: holes[i].w,
            h: holes[i].h,
            rotation: holes[i].rotation,
            mouth_offsets: row,
            cone_depth: smaller(drop, rules.depth),
            sides,
        };
        assert(is_bore(bore, models[i as int], end[i as int], *rules));
        bores.push(bore);
        i += 1;
    }
    proof {
        assert(end.take(end.len() as int) =~= end);
    }
    Some(BorePlan { bores, limited, straight, tight })
}

/// How far a footprint reaches beyond the bore in one direction: the gap round the
/// bore, and what the cone adds at a depth below the face, but at least what every
/// footprint grows by from band to band.
pub open spec fn offset_at(mouth: int, cone_depth: int, depth: int, band: int) -> int {
    let cone = if cone_depth <= 0 || depth >= cone_depth {
        0
    } else if depth <= 0 {
        upper_of(mouth - COLLAR_GAP, 0)
    } else {
        upper_of(mouth - COLLAR_GAP, 0) * (cone_depth - depth) / cone_depth
    };
    COLLAR_GAP + upper_of(cone, MIN_BAND_GROWTH * band)
}

impl Bore {
    /// How far the footprint reaches in a direction, at a depth below the face, in a
    /// band counted from the floor.
    pub fn offset_at(&self, vertex: usize, depth: i64, band: usize) -> (offset: i64)
        requires
            vertex < self.mouth_offsets@.len(),
            0 <= self.mouth_offsets@[vertex as int] <= FAR,
            0 <= self.cone_depth <= FAR,
            band <= 8,
        ensures
            offset == offset_at(
                self.mouth_offsets@[vertex as int] as int,
                self.cone_depth as int,
                depth as int,
                band as int,
            ),
    {
        let add: i64 = larger(self.mouth_offsets[vertex] - COLLAR_GAP, 0);
        let cone: i64 = if self.cone_depth <= 0 || depth >= self.cone_depth {
            0
        } else if depth <= 0 {
            add
        } else {
            proof {
                let c = self.cone_depth as int;
                let r = c - depth;
                assert(0 <= add * r <= 3_000_000_000 * 3_000_000_000) by (nonlinear_arith)
                    requires
                        0 <= add <= 3_000_000_000,
                        0 <= r <= 3_000_000_000,
                ;
                assert(0 <= add * r / c <= add) by (nonlinear_arith)
                    requires
                        0 <= add,
                        0 <= r <= c,
                        0 < c,
                ;
            }
            add * (self.cone_depth - depth) / self.cone_depth
        };
        COLLAR_GAP + larger(cone, MIN_BAND_GROWTH * band as i64)
    }
}

/// Every footprint is strictly larger in a band than in the one below it, if the band
/// is nearer to the face by an eighth of the cone at least: no two bands share a
/// boundary.
pub proof fn lemma_bands_nest(mouth: int, cone_depth: int, depth: int, nearer: int, band: int)
    requires
        0 <= band,
        0 <= nearer <= depth,
        cone_depth <= 8 * (depth - nearer),
    ensures
        offset_at(mouth, cone_depth, depth, band) < offset_at(mouth, cone_depth, nearer, band + 1),
{
    let m = upper_of(mouth - COLLAR_GAP, 0);
    if 0 < cone_depth && depth < cone_depth {
        let a = cone_depth - depth;
        let b = cone_depth - nearer;
        let c = cone_depth;
        assert(m * c / c == m) by (nonlinear_arith)
            requires
                c > 0,
        ;
        let x = m * a / c;
        let y = m * b / c;
        if depth <= 0 {
            assert(depth == 0 && nearer == 0);
        }
        assert(x * c <= m * a) by (nonlinear_arith)
            requires
                x == m * a / c,
                c > 0,
        ;
        assert(y * c > m * b - c) by (nonlinear_arith)
            requires
                y == m * b / c,
                c > 0,
        ;
        assert(x <= m) by (nonlinear_arith)
            requires
                x * c <= m * a,
                0 <= a <= c,
                0 <= m,
                c > 0,
        ;
        if x >= MIN_BAND_GROWTH * (band + 1) {
            assert(8 * (m * b) >= 8 * (m * a) + m * c) by (nonlinear_arith)
                requires
                    0 <= m,
                    c <= 8 * (b - a),
            ;
            assert(m * c >= 16 * c) by (nonlinear_arith)
                requires
                    m >= 16,
                    c > 0,
            ;
            assert(y * c > x * c);
            assert(y > x) by (nonlinear_arith)
                requires
                    y * c > x * c,
                    c > 0,
            ;
            if nearer == 0 {
                assert(b == c);
            }
        }
    }
}

/// What is said of holes that are too near each other.
pub open spec fn tight_warning(tight: nat, rim: int) -> Seq<char> {
    decimal(tight) + " hole pair(s) on different nets sit closer than "@ + hundredths(rim)
        + "mm apart even with no cone at all — inspect those before plating, they can short."@
}

/// What is said of mouths that had to shrink.
pub open spec fn limited_note(limited: nat, of: nat, rim: int) -> Seq<char> {
    decimal(limited) + " of "@ + decimal(of) + " cone mouth(s) shrunk to keep "@ + hundredths(rim)
        + "mm clear of neighbouring copper or the board edge"@
}

/// What is said of holes without a mouth.
pub open spec fn straight_note(straight: nat) -> Seq<char> {
    decimal(straight)
        + " hole(s) had no room for a cone at all and stayed straight — those still need an eyelet or a soldered wire stitch."@
}

pub open spec fn remark_texts(list: Seq<String>) -> Seq<Seq<char>> {
    list.map_values(|t: String| t@)
}

pub open spec fn remark_if(given: bool, text: Seq<char>) -> Seq<Seq<char>> {
    if given {
        seq![text]
    } else {
        Seq::empty()
    }
}

impl BorePlan {
    /// What is to be said of the plan.
    pub fn remarks(&self, rim: i64) -> (out: Vec<String>)
        ensures
            remark_texts(out@) == remark_if(
                self.tight > 0,
                tight_warning(self.tight as nat, rim as int),
            ) + remark_if(
                self.limited > 0,
                limited_note(self.limited as nat, self.bores@.len(), rim as int),
            ) + remark_if(self.straight > 0, straight_note(self.straight as nat)),
    {
        let mut out: Vec<String> = Vec::new();
        proof {
            assert(remark_texts(out@) =~= Seq::empty());
        }
        if self.tight > 0 {
            let mut line: Vec<char> = Vec::new();
            extend_decimal(&mut line, self.tight);
            extend_str(&mut line, " hole pair(s) on different nets sit closer than ");
            extend_hundredths(&mut line, rim);
            extend_str(
                &mut line,
                "mm apart even with no cone at all — inspect those before plating, they can short.",
            );
            proof {
                assert(line@ =~= tight_warning(self.tight as nat, rim as int));
            }
            out.push(to_text(line.as_slice()));
        }
        let ghost one = remark_texts(out@);
        proof {
            assert(one =~= remark_if(
                self.tight > 0,
                tight_warning(self.tight as nat, rim as int),
            ));
        }
        if self.limited > 0 {
            let mut line: Vec<char> = Vec::new();
            extend_decimal(&mut line, self.limited as u128);
            extend_str(&mut line, " of ");
            extend_decimal(&mut line, self.bores.len() as u128);
            extend_str(&mut line, " cone mouth(s) shrunk to keep ");
            extend_hundredths(&mut line, rim);
            extend_str(&mut line, "mm clear of neighbouring copper or the board edge");
            proof {
                assert(line@ =~= limited_note(self.limited as nat, self.bores@.len(), rim as int));
            }
            out.push(to_text(line.as_slice()));
        }
        let ghost two = remark_texts(out@);
        proof {
            assert(two =~= one + remark_if(
                self.limited > 0,
                limited_note(self.limited as nat, self.bores@.len(), rim as int),
            ));
        }
        if self.straight > 0 {
            let mut line: Vec<char> = Vec::new();
            extend_decimal(&mut line, self.straight as u128);
            extend_str(
                &mut line,
                " hole(s) had no room for a cone at all and stayed straight — those still need an eyelet or a soldered wire stitch.",
            );
            proof {
                assert(line@ =~= straight_note(self.straight as nat));
            }
            out.push(to_text(line.as_slice()));
        }
        proof {
            assert(remark_texts(out@) =~= two + remark_if(
                self.straight > 0,
                straight_note(self.straight as nat),
            ));
        }
        out
    }
}

/// Twice the distance of a point from the first sides of an outline, to the whole
/// nanometre below.
pub open spec fn twice_from_edge(p: (int, int), outline: Seq<Point2>, upto: nat) -> int
    decreases upto,
{
    if upto == 0 {
        8 * FAR
    } else {
        let a = outline[upto - 1];
        let b = outline[upto as int % outline.len() as int];
        lesser(
            twice_from_edge(p, outline, (upto - 1) as nat),
            twice_gap(p, (a.x as int, a.y as int), (b.x as int, b.y as int)),
        )
    }
}

/// How far a point is from the outline of the board, to the whole nanometre below.
pub fn edge_distance(p: (i64, i64), outline: &Vec<Point2>) -> (d: i64)
    requires
        in_reach(point(p)),
        forall|i: int|
            0 <= i < outline@.len() ==> in_reach(
                ((#[trigger] outline@[i]).x as int, outline@[i].y as int),
            ),
    ensures
        d == twice_from_edge(point(p), outline@, outline@.len()) / 2,
        0 <= d <= 4 * FAR,
{
    let mut d: i64 = 8 * FAR;
    let mut i: usize = 0;
    while i < outline.len()
        invariant
            i <= outline@.len(),
            in_reach(point(p)),
            forall|j: int|
                0 <= j < outline@.len() ==> in_reach(
                    ((#[trigger] outline@[j]).x as int, outline@[j].y as int),
                ),
            0 <= d <= 8 * FAR,
            d == twice_from_edge(point(p), outline@, i as nat),
        decreases outline@.len() - i,
    {
        let a = outline[i];
        let next: usize = if i + 1 == outline.len() {
            0
        } else {
            i + 1
        };
        let b = outline[next];
        proof {
            let n = outline@.len() as int;
            if i + 1 == n {
                assert((i + 1) as int % n == 0) by (nonlinear_arith)
                    requires
                        i + 1 == n,
                        n > 0,
                ;
            } else {
                assert((i + 1) as int % n == i + 1) by (nonlinear_arith)
                    requires
                        0 <= i + 1 < n,
                ;
            }
            assert(outline@[i as int] == a && outline@[next as int] == b);
        }
        d = smaller(d, twice_from_segment(p, (a.x, a.y), (b.x, b.y)));
        i += 1;
        assert((i as nat - 1) as nat == (i - 1) as nat);
    }
    d / 2
}

} // verus!
