//! What countersinks are planned from: the holes of a board, how far each is from the
//! edge, in how many directions its outline is given, and the rules that mouths keep.

use crate::bores::{
    arc_sides_for, cone_depth_wanted, edge_distance, fits_hole, hole_model, hole_models, holes_of,
    pad_holes, run_for, run_of, sides_for, twice_from_edge, upper_of, via_holes, wanted_depth,
    BoreRules, Hole, HoleModel,
};
use crate::config::Config;
use crate::distance::{in_reach, reachable, FAR};
use crate::pcb::{PcbData, Point2, Trace};
use vstd::prelude::*;

verus! {

/// The least and the greatest angle of a cone, in millionths of a degree.
pub const FLATTEST: i64 = 15_000_000;

pub const STEEPEST: i64 = 89_000_000;

/// The angle that a cone is given for one that is asked for.
pub open spec fn used_angle(asked: int) -> int {
    if asked < FLATTEST {
        FLATTEST as int
    } else if asked > STEEPEST {
        STEEPEST as int
    } else {
        asked
    }
}

/// The angle that a cone is given for one that is asked for.
pub fn cone_angle(asked: i64) -> (angle: i64)
    ensures
        angle == used_angle(asked as int),
{
    if asked < FLATTEST {
        FLATTEST
    } else if asked > STEEPEST {
        STEEPEST
    } else {
        asked
    }
}

/// What the mouths of a board are planned from.
#[derive(Debug)]
pub struct MouthTask {
    pub holes: Vec<Hole>,
    /// How far each hole is from the edge of the board.
    pub edges: Vec<i64>,
    /// In how many directions the outline of each hole is given.
    pub sides: Vec<usize>,
    pub traces: Vec<Trace>,
    pub rules: BoreRules,
}

/// The holes of a board.
pub open spec fn board_holes(pcb: PcbData, c: Config) -> Seq<HoleModel> {
    (if c.generate_pad_holes {
        pad_holes(pcb.pads@, c.pad_hole_diameter as int)
    } else {
        Seq::empty()
    }) + via_holes(pcb.vias@, c.eyelet_diameter as int)
}

/// The rules that mouths keep, for a slope of their cones in millionths.
pub open spec fn mouth_rules(c: Config, slope: int) -> (int, int) {
    let depth = wanted_depth(
        c.substrate_thickness as int,
        c.throat_height as int,
        c.channel_depth as int,
    );
    (run_of(depth, slope), depth)
}

/// Whether everything that mouths depend on is within reach.
pub open spec fn fits_task(pcb: PcbData, c: Config, outline: Seq<Point2>, slope: int) -> bool {
    &&& 0 < slope
    &&& mouth_rules(c, slope).0 <= FAR
    &&& forall|i: int|
        0 <= i < outline.len() ==> in_reach(
            ((#[trigger] outline[i]).x as int, outline[i].y as int),
        )
    &&& forall|i: int|
        0 <= i < board_holes(pcb, c).len() ==> fits_hole(#[trigger] board_holes(pcb, c)[i])
}

/// Whether a task is that of a board.
pub open spec fn is_task(t: MouthTask, pcb: PcbData, c: Config, outline: Seq<Point2>, slope: int) -> bool {
    let models = board_holes(pcb, c);
    let (offset, depth) = mouth_rules(c, slope);
    &&& hole_models(t.holes@) == models
    &&& t.traces@ == pcb.traces_fcu@ + pcb.traces_bcu@
    &&& t.rules.offset == offset
    &&& t.rules.depth == depth
    &&& t.rules.slope == slope
    &&& t.rules.rim == c.min_rim
    &&& t.rules.channel == c.channel_width
    &&& t.edges@.len() == models.len()
    &&& t.sides@.len() == models.len()
    &&& forall|i: int|
        0 <= i < models.len() ==> #[trigger] t.edges@[i] == twice_from_edge(
            models[i].center,
            outline,
            outline.len(),
        ) / 2
    &&& forall|i: int|
        0 <= i < models.len() ==> #[trigger] t.sides@[i] == sides_for(
            upper_of(models[i].w, models[i].h) / 2 + offset,
        )
}

fn outline_reachable(outline: &Vec<Point2>) -> (yes: bool)
    ensures
        yes == (forall|i: int|
            0 <= i < outline@.len() ==> in_reach(
                ((#[trigger] outline@[i]).x as int, outline@[i].y as int),
            )),
{
    let mut i: usize = 0;
    while i < outline.len()
        invariant
            i <= outline@.len(),
            forall|j: int|
                0 <= j < i ==> in_reach(((#[trigger] outline@[j]).x as int, outline@[j].y as int)),
        decreases outline@.len() - i,
    {
        if !reachable((outline[i].x, outline[i].y)) {
            proof {
                assert(!in_reach((outline@[i as int].x as int, outline@[i as int].y as int)));
            }
            return false;
        }
        i += 1;
    }
    true
}

fn hole_reachable(h: &Hole) -> (yes: bool)
    ensures
        yes == fits_hole(hole_model(*h)),
{
    reachable((h.center.x, h.center.y)) && 0 <= h.w && h.w <= FAR && 0 <= h.h && h.h <= FAR
}

fn all_traces(pcb: &PcbData) -> (out: Vec<Trace>)
    ensures
        out@ == pcb.traces_fcu@ + pcb.traces_bcu@,
{
    let mut out: Vec<Trace> = Vec::new();
    let mut i: usize = 0;
    while i < pcb.traces_fcu.len()
        invariant
            i <= pcb.traces_fcu@.len(),
            out@ == pcb.traces_fcu@.take(i as int),
        decreases pcb.traces_fcu@.len() - i,
    {
        out.push(pcb.traces_fcu[i]);
        i += 1;
        proof {
            assert(out@ =~= pcb.traces_fcu@.take(i as int));
        }
    }
    let mut k: usize = 0;
    proof {
        assert(out@ =~= pcb.traces_fcu@ + pcb.traces_bcu@.take(0));
    }
    while k < pcb.traces_bcu.len()
        invariant
            k <= pcb.traces_bcu@.len(),
            out@ == pcb.traces_fcu@ + pcb.traces_bcu@.take(k as int),
        decreases pcb.traces_bcu@.len() - k,
    {
        out.push(pcb.traces_bcu[k]);
        k += 1;
        proof {
            assert(out@ =~= pcb.traces_fcu@ + pcb.traces_bcu@.take(k as int));
        }
    }
    proof {
        assert(pcb.traces_bcu@.take(pcb.traces_bcu@.len() as int) =~= pcb.traces_bcu@);
    }
    out
}

/// Sets up the planning of mouths on a board; `slope` is that of their cones, in
/// millionths. None if something lies out of reach.
pub fn set_up_mouths(pcb: &PcbData, c: &Config, outline: &Vec<Point2>, slope: i64) -> (out: Option<
    MouthTask,
>)
    ensures
        out is Some == fits_task(*pcb, *c, outline@, slope as int),
        out matches Some(t) ==> is_task(t, *pcb, *c, outline@, slope as int),
{
    if slope <= 0 || !outline_reachable(outline) {
        return None;
    }
    let depth: i64 = cone_depth_wanted(c.substrate_thickness, c.throat_height, c.channel_depth);
    let run: i128 = run_for(depth, slope);
    if run > FAR as i128 {
        return None;
    }
    proof {
        assert(run >= 0) by (nonlinear_arith)
            requires
                run == depth * 1_000_000 / (slope as int),
                depth >= 0,
                slope > 0,
        ;
    }
    let offset: i64 = run as i64;
    let holes = holes_of(pcb, c.generate_pad_holes, c.pad_hole_diameter, c.eyelet_diameter);
    let ghost models = board_holes(*pcb, *c);
    let mut edges: Vec<i64> = Vec::new();
    let mut sides: Vec<usize> = Vec::new();
    let mut i: usize = 0;
    while i < holes.len()
        invariant
            i <= holes@.len(),
            0 <= offset <= FAR,
            models == hole_models(holes@),
            models == board_holes(*pcb, *c),
            forall|j: int|
                0 <= j < outline@.len() ==> in_reach(
                    ((#[trigger] outline@[j]).x as int, outline@[j].y as int),
                ),
            edges@.len() == i,
            sides@.len() == i,
            forall|j: int| 0 <= j < i ==> fits_hole(#[trigger] models[j]),
            forall|j: int|
                0 <= j < i ==> #[trigger] edges@[j] == twice_from_edge(
                    models[j].center,
                    outline@,
                    outline@.len(),
                ) / 2,
            forall|j: int|
                0 <= j < i ==> #[trigger] sides@[j] == sides_for(
                    upper_of(models[j].w, models[j].h) / 2 + offset,
                ),
        decreases holes@.len() - i,
    {
        let h = &holes[i];
        proof {
            assert(models[i as int] == hole_model(*h));
        }
        if !hole_reachable(h) {
            return None;
        }
        edges.push(edge_distance((h.center.x, h.center.y), outline));
        let widest: i64 = if h.w >= h.h {
            h.w
        } else {
            h.h
        };
        sides.push(arc_sides_for(widest / 2 + offset));
        i += 1;
    }
    let rules = BoreRules { offset, depth, slope, rim: c.min_rim, channel: c.channel_width };
    Some(MouthTask { holes, edges, sides, traces: all_traces(pcb), rules })
}

} // verus!
