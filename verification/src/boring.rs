//! What is bored into a board: which holes, how wide their mouths, and what these keep
//! clear of.

use crate::bores::{
    depth_for, facing, first_offset, first_row, first_rows, held_off, is_tight, lemma_pass_shrinks,
    no_wider, off_holes, off_places, off_traces, offset_at, overlap, pad_holes, pass, passes,
    planned, radius_of, ray_limit, same_net, step_along, steps_along, tight_pairs, tight_with,
    twice_from_edge, via_holes, widest, BoreRules, HoleModel,
};
use crate::distance::{apart2, lemma_has_root, root, twice_gap};
use crate::listing::{lemma_picked_next, picked_next, picks};
use crate::pcb::{Pad, Point2, Trace, Via};
use vstd::prelude::*;

verus! {

/// Whether a number is the larger of two.
pub open spec fn is_larger_of(n: int, a: int, b: int) -> bool {
    n >= a && n >= b && (n == a || n == b)
}

/// The pads that are drilled.
pub open spec fn is_drilled(pads: Seq<Pad>) -> spec_fn(int) -> bool {
    |i: int| pads[i].drill > 0
}

/// Whether a hole is that of a pad: round its middle, turned as it is, on its net, as wide as
/// it is drilled but no narrower than can be made; one that is drilled round is as high as
/// wide.
pub open spec fn is_hole_of(h: HoleModel, p: Pad, least: int) -> bool {
    &&& h.center == (p.center.x as int, p.center.y as int)
    &&& h.rotation == p.rotation
    &&& is_larger_of(h.w, p.drill as int, least)
    &&& if p.drill_h > 0 {
        is_larger_of(h.h, p.drill_h as int, least)
    } else {
        h.h == h.w
    }
    &&& (h.net is Some) == (p.net_name is Some)
    &&& h.net matches Some(n) ==> n == p.net_name->0@
}

/// Every drilled pad has its hole, in their order, and there are no others.
pub proof fn lemma_holes_are_those_of_drilled_pads(pads: Seq<Pad>, least: int) -> (at: Seq<int>)
    ensures
        picks(at, pads.len() as int, is_drilled(pads)),
        pad_holes(pads, least).len() == at.len(),
        forall|k: int|
            0 <= k < at.len() ==> is_hole_of(#[trigger] pad_holes(pads, least)[k], pads[at[k]], least),
    decreases pads.len(),
{
    if pads.len() == 0 {
        Seq::empty()
    } else {
        let front = pads.drop_last();
        let at = lemma_holes_are_those_of_drilled_pads(front, least);
        let n = pads.len() - 1;
        lemma_picked_next(at, n, is_drilled(front), is_drilled(pads));
        let more = picked_next(at, n, is_drilled(pads));
        assert forall|k: int| 0 <= k < more.len() implies is_hole_of(
            #[trigger] pad_holes(pads, least)[k],
            pads[more[k]],
            least,
        ) by {
            if k < at.len() {
                assert(pad_holes(pads, least)[k] == pad_holes(front, least)[k]);
                assert(front[at[k]] == pads[at[k]]);
            }
        }
        more
    }
}

/// Every via has its hole, as wide as it is drilled but no narrower than the eyelet.
pub proof fn lemma_holes_are_those_of_vias(vias: Seq<Via>, eyelet: int)
    ensures
        via_holes(vias, eyelet).len() == vias.len(),
        forall|i: int|
            0 <= i < vias.len() ==> {
                let h = #[trigger] via_holes(vias, eyelet)[i];
                let v = vias[i];
                &&& h.center == (v.center.x as int, v.center.y as int)
                &&& is_larger_of(h.w, v.drill as int, eyelet)
                &&& h.h == h.w
                &&& h.rotation == 0
                &&& (h.net is Some) == (v.net_name is Some)
                &&& h.net matches Some(n) ==> n == v.net_name->0@
            },
{
}

/// A mouth reaches as far as the widest of its offsets.
pub proof fn lemma_widest_is_the_greatest(row: Seq<int>)
    ensures
        widest(row) >= 0,
        forall|k: int| 0 <= k < row.len() ==> #[trigger] row[k] <= widest(row),
        widest(row) > 0 ==> row.contains(widest(row)),
    decreases row.len(),
{
    if row.len() > 0 {
        let front = row.drop_last();
        lemma_widest_is_the_greatest(front);
        assert forall|k: int| 0 <= k < row.len() implies #[trigger] row[k] <= widest(row) by {
            if k < front.len() {
                assert(front[k] == row[k]);
            }
        }
        if widest(front) >= row.last() {
            if widest(row) > 0 {
                let k = choose|k: int| 0 <= k < front.len() && front[k] == widest(front);
                assert(row[k] == widest(row));
            }
        } else {
            assert(row[row.len() - 1] == widest(row));
        }
    }
}

/// Where an obstacle limits a way, the way comes too near to it within one unit behind the
/// limit: no way is cut shorter than it must be.
pub proof fn lemma_limit_is_not_early(
    from: (int, int),
    dir: (int, int),
    obs: (int, int),
    keep_out: int,
) -> (v: int)
    requires
        keep_out * keep_out <= apart2(from, obs),
        ray_limit(from, dir, obs, keep_out) is Some,
    ensures
        ({
            let limit = ray_limit(from, dir, obs, keep_out)->0;
            let u = 1_000_000_000int;
            &&& u * limit <= v <= u * (limit + 1)
            &&& v * v - 2 * (v * facing(from, dir, obs)) + u * u * apart2(from, obs) < u * u * (keep_out
                * keep_out)
        }),
{
    let f = facing(from, dir, obs);
    let u = 1_000_000_000int;
    let d = apart2(from, obs);
    let k = keep_out * keep_out;
    let n = overlap(from, dir, obs, keep_out);
    let r = root(n - 1);
    let hit = f - (r + 1);
    let v = hit + 1;
    lemma_has_root(n - 1);
    assert(n == f * f - u * u * (d - k));
    assert(v == f - r);
    assert(r * r <= n - 1);
    assert(v * v - 2 * (v * f) == r * r - f * f) by (nonlinear_arith)
        requires
            v == f - r,
    ;
    assert(u * u * (d - k) == u * u * d - u * u * k) by (nonlinear_arith);
    assert(u * (hit / u) <= hit < u * (hit / u) + u);
    v
}

proof fn lemma_off_places_no_wider(
    row: Seq<int>,
    dirs: Seq<(int, int)>,
    h: HoleModel,
    t: Trace,
    rules: BoreRules,
    upto: nat,
)
    ensures
        no_wider(off_places(row, dirs, h, t, rules, upto), row),
    decreases upto,
{
    if upto > 0 {
        lemma_off_places_no_wider(row, dirs, h, t, rules, (upto - 1) as nat);
    }
}

proof fn lemma_off_traces_no_wider(
    row: Seq<int>,
    dirs: Seq<(int, int)>,
    h: HoleModel,
    traces: Seq<Trace>,
    rules: BoreRules,
)
    ensures
        no_wider(off_traces(row, dirs, h, traces, rules), row),
    decreases traces.len(),
{
    if traces.len() > 0 {
        lemma_off_traces_no_wider(row, dirs, h, traces.drop_last(), rules);
        let front = off_traces(row, dirs, h, traces.drop_last(), rules);
        let t = traces.last();
        lemma_off_places_no_wider(front, dirs, h, t, rules, (steps_along(t, rules) + 1) as nat);
    }
}

proof fn lemma_passes_no_wider(
    list: Seq<Seq<int>>,
    dirs: Seq<Seq<(int, int)>>,
    holes: Seq<HoleModel>,
    rules: BoreRules,
    n: nat,
    i: int,
)
    requires
        0 <= i < list.len(),
    ensures
        passes(list, dirs, holes, rules, n).len() == list.len(),
        no_wider(passes(list, dirs, holes, rules, n)[i], list[i]),
    decreases n,
{
    if n > 0 {
        let before = passes(list, dirs, holes, rules, (n - 1) as nat);
        lemma_passes_no_wider(list, dirs, holes, rules, (n - 1) as nat, i);
        lemma_pass_shrinks(before, dirs, holes, rules, i);
        let now = pass(before, dirs, holes, rules)[i];
        assert forall|k: int| 0 <= k < now.len() implies #[trigger] now[k] <= list[i][k] by {
            assert(now[k] <= before[i][k]);
        }
    }
}

/// No mouth reaches further than wanted; and where it reaches beyond its bore, what is to be
/// kept from the edge of the board is left.
pub proof fn lemma_mouth_keeps_off_the_edge(
    holes: Seq<HoleModel>,
    edges: Seq<i64>,
    dirs: Seq<Seq<(int, int)>>,
    traces: Seq<Trace>,
    rules: BoreRules,
    i: int,
    k: int,
)
    requires
        0 <= i < holes.len(),
        0 <= k < dirs[i].len(),
    ensures
        ({
            let reach = planned(holes, edges, dirs, traces, rules)[i][k];
            &&& reach <= rules.offset
            &&& reach > 0 ==> radius_of(holes[i]) + reach + rules.rim <= edges[i]
        }),
{
    let list = first_rows(holes, edges, dirs, traces, rules);
    lemma_passes_no_wider(list, dirs, holes, rules, 4, i);
    let start = Seq::new(dirs[i].len(), |k: int| first_offset(holes[i], edges[i] as int, rules));
    lemma_off_traces_no_wider(start, dirs[i], holes[i], traces, rules);
    assert(list[i] == first_row(holes[i], edges[i] as int, dirs[i], traces, rules));
    let now = planned(holes, edges, dirs, traces, rules);
    assert(now == passes(list, dirs, holes, rules, 4));
    assert(now[i][k] <= list[i][k]);
    assert(list[i][k] <= start[k]);
}

/// Where a hole is alone on the board but for holes on its net, and no trace is there, its
/// mouth reaches as far as wanted, or as far as the edge lets it.
pub proof fn lemma_unhindered_mouth_is_full(
    holes: Seq<HoleModel>,
    edges: Seq<i64>,
    dirs: Seq<Seq<(int, int)>>,
    rules: BoreRules,
    i: int,
    k: int,
)
    requires
        0 <= i < holes.len(),
        0 <= k < dirs[i].len(),
        forall|j: int| 0 <= j < holes.len() && j != i ==> same_net(holes[i], #[trigger] holes[j]),
        rules.offset >= 0,
    ensures
        ({
            let reach = planned(holes, edges, dirs, Seq::empty(), rules)[i][k];
            let room = edges[i] - radius_of(holes[i]) - rules.rim;
            &&& room >= rules.offset ==> reach == rules.offset
            &&& 0 <= room <= rules.offset ==> reach == room
            &&& room < 0 ==> reach == 0
        }),
{
    let list = first_rows(holes, edges, dirs, Seq::empty(), rules);
    lemma_passes_keep(list, dirs, holes, rules, 4, i);
    assert(list[i] == first_row(holes[i], edges[i] as int, dirs[i], Seq::empty(), rules));
    assert(planned(holes, edges, dirs, Seq::empty(), rules) == passes(list, dirs, holes, rules, 4));
}

proof fn lemma_off_holes_keeps(
    row: Seq<int>,
    dirs: Seq<(int, int)>,
    holes: Seq<HoleModel>,
    i: int,
    reaches: Seq<int>,
    rules: BoreRules,
    upto: nat,
)
    requires
        upto <= holes.len(),
        forall|j: int| 0 <= j < holes.len() && j != i ==> same_net(holes[i], #[trigger] holes[j]),
    ensures
        off_holes(row, dirs, holes, i, reaches, rules, upto) == row,
    decreases upto,
{
    if upto > 0 {
        lemma_off_holes_keeps(row, dirs, holes, i, reaches, rules, (upto - 1) as nat);
        let j = upto - 1;
        assert(j != i ==> same_net(holes[i], holes[j]));
    }
}

proof fn lemma_passes_keep(
    list: Seq<Seq<int>>,
    dirs: Seq<Seq<(int, int)>>,
    holes: Seq<HoleModel>,
    rules: BoreRules,
    n: nat,
    i: int,
)
    requires
        0 <= i < list.len(),
        forall|j: int| 0 <= j < holes.len() && j != i ==> same_net(holes[i], #[trigger] holes[j]),
    ensures
        passes(list, dirs, holes, rules, n).len() == list.len(),
        passes(list, dirs, holes, rules, n)[i] == list[i],
    decreases n,
{
    if n > 0 {
        let before = passes(list, dirs, holes, rules, (n - 1) as nat);
        lemma_passes_keep(list, dirs, holes, rules, (n - 1) as nat, i);
        lemma_off_holes_keeps(
            before[i],
            dirs[i],
            holes,
            i,
            crate::bores::widest_of(before),
            rules,
            holes.len(),
        );
    }
}

/// A trace is gone along from its start to its end.
pub proof fn lemma_trace_is_gone_along(t: Trace, n: int)
    requires
        n > 0,
    ensures
        step_along(t, 0, n) == (t.start.x as int, t.start.y as int),
        step_along(t, n, n) == (t.end.x as int, t.end.y as int),
{
    let x = t.end.x - t.start.x;
    let y = t.end.y - t.start.y;
    assert(0int / n == 0) by (nonlinear_arith)
        requires
            n > 0,
    ;
    assert(x * 0 == 0 && (-x) * 0 == 0 && y * 0 == 0 && (-y) * 0 == 0);
    assert(x * n / n == x && (-x) * n / n == -x) by (nonlinear_arith)
        requires
            n > 0,
    ;
    assert(y * n / n == y && (-y) * n / n == -y) by (nonlinear_arith)
        requires
            n > 0,
    ;
}

/// A cone is no deeper than wanted, and no steeper than the slope allows.
pub proof fn lemma_cone_is_no_steeper(reach: int, rules: BoreRules)
    ensures
        depth_for(reach, rules) <= rules.depth,
        depth_for(reach, rules) * 1_000_000 <= reach * rules.slope,
        depth_for(reach, rules) == rules.depth || (depth_for(reach, rules) + 1) * 1_000_000 > reach
            * rules.slope,
{
    let n = reach * rules.slope;
    assert(n / 1_000_000 * 1_000_000 <= n < (n / 1_000_000 + 1) * 1_000_000);
}

/// Whether two holes on different nets leave no room for the collars round them and what is
/// kept between.
pub open spec fn leaves_no_room(a: HoleModel, b: HoleModel, rules: BoreRules) -> bool {
    let wide = |h: HoleModel|
        if h.w >= h.h {
            h.w
        } else {
            h.h
        };
    let least = wide(a) + wide(b) + 680_000 + 2 * rules.rim;
    &&& a.net is None || a.net != b.net
    &&& least > 0
    &&& 4 * apart2(a.center, b.center) < least * least
}

/// Pairs are counted as tight exactly if there are any that leave no room.
pub proof fn lemma_tight_pairs_are_told(holes: Seq<HoleModel>, upto: nat, rules: BoreRules)
    requires
        upto <= holes.len(),
    ensures
        (tight_pairs(holes, upto, rules) > 0) == (exists|i: int, j: int|
            0 <= i < j < upto && #[trigger] leaves_no_room(holes[i], holes[j], rules)),
    decreases upto,
{
    if upto > 0 {
        let n = (upto - 1) as nat;
        lemma_tight_pairs_are_told(holes, n, rules);
        lemma_tight_with(holes, n as int, n, rules);
        if tight_with(holes, n as int, n, rules) > 0 {
            let i = choose|i: int|
                0 <= i < n && #[trigger] leaves_no_room(holes[i], holes[n as int], rules);
            assert(leaves_no_room(holes[i], holes[n as int], rules));
        }
        if tight_pairs(holes, n, rules) > 0 {
            let (i, j) = choose|i: int, j: int|
                0 <= i < j < n && #[trigger] leaves_no_room(holes[i], holes[j], rules);
            assert(leaves_no_room(holes[i], holes[j], rules));
        }
        if exists|i: int, j: int|
            0 <= i < j < upto && #[trigger] leaves_no_room(holes[i], holes[j], rules) {
            let (i, j) = choose|i: int, j: int|
                0 <= i < j < upto && #[trigger] leaves_no_room(holes[i], holes[j], rules);
            if j < n {
                assert(tight_pairs(holes, n, rules) > 0);
            } else {
                assert(leaves_no_room(holes[i], holes[n as int], rules));
                assert(tight_with(holes, n as int, n, rules) > 0);
            }
        }
    }
}

proof fn lemma_is_tight(a: HoleModel, b: HoleModel, rules: BoreRules)
    ensures
        is_tight(a, b, rules) == leaves_no_room(a, b, rules),
{
    let wide = |h: HoleModel|
        if h.w >= h.h {
            h.w
        } else {
            h.h
        };
    let least = wide(a) + wide(b) + 680_000 + 2 * rules.rim;
    let n = 4 * apart2(a.center, b.center);
    let x = a.center.0 - b.center.0;
    let y = a.center.1 - b.center.1;
    assert(x * x >= 0 && y * y >= 0) by (nonlinear_arith);
    let r = root(n);
    lemma_has_root(n);
    assert((r < least) == (least > 0 && n < least * least)) by (nonlinear_arith)
        requires
            0 <= r,
            r * r <= n,
            n < (r + 1) * (r + 1),
    ;
}

proof fn lemma_tight_with(holes: Seq<HoleModel>, j: int, upto: nat, rules: BoreRules)
    requires
        upto <= holes.len(),
        0 <= j < holes.len(),
    ensures
        (tight_with(holes, j, upto, rules) > 0) == (exists|i: int|
            0 <= i < upto && #[trigger] leaves_no_room(holes[i], holes[j], rules)),
    decreases upto,
{
    if upto > 0 {
        let n = (upto - 1) as nat;
        lemma_tight_with(holes, j, n, rules);
        lemma_is_tight(holes[n as int], holes[j], rules);
        if tight_with(holes, j, n, rules) > 0 {
            let i = choose|i: int| 0 <= i < n && #[trigger] leaves_no_room(holes[i], holes[j], rules);
            assert(leaves_no_room(holes[i], holes[j], rules));
        }
        if is_tight(holes[n as int], holes[j], rules) {
            assert(leaves_no_room(holes[n as int], holes[j], rules));
        }
    }
}

/// The distance from the outline is that from its nearest side.
pub proof fn lemma_edge_is_the_nearest_side(p: (int, int), outline: Seq<Point2>, upto: nat)
    requires
        upto <= outline.len(),
    ensures
        forall|i: int|
            0 <= i < upto ==> twice_from_edge(p, outline, upto) <= twice_gap(
                p,
                ((#[trigger] outline[i]).x as int, outline[i].y as int),
                (
                    outline[(i + 1) % outline.len() as int].x as int,
                    outline[(i + 1) % outline.len() as int].y as int,
                ),
            ),
    decreases upto,
{
    if upto > 0 {
        lemma_edge_is_the_nearest_side(p, outline, (upto - 1) as nat);
    }
}

/// At the face a footprint reaches as far as the mouth, but at least the gap round the bore;
/// below the cone it reaches the gap, and a little more from band to band.
pub proof fn lemma_cone_opens_to_its_mouth(mouth: int, cone_depth: int, depth: int, band: int)
    requires
        cone_depth > 0,
        band >= 0,
    ensures
        mouth >= 170_000 ==> offset_at(mouth, cone_depth, 0, 0) == mouth,
        mouth < 170_000 ==> offset_at(mouth, cone_depth, 0, 0) == 170_000,
        depth >= cone_depth ==> offset_at(mouth, cone_depth, depth, 0) == 170_000,
        offset_at(mouth, cone_depth, depth, band) >= 170_000,
{
}

} // verus!
