//! Which areas a model and a stencil are made of.

use crate::areas::{merged, Figure, Plan, Purpose};
use crate::bores::{pad_bore, pad_bore_size, via_bore, via_bore_diameter};
use crate::config::Config;
use crate::distance::FAR;
use crate::pcb::{CopperLayer, CutoutShape, Pad, PadShape, PcbData, Point2, Trace, Via};
use crate::profile::{band_depth, band_width, land_size, pad_land_size, Bands, MAX_TAPER_BANDS};
use crate::solid::{
    centers_in_reach, collar_models, collars, hole_collars, traces_in_reach, Collar, CollarRules,
};
use vstd::prelude::*;

verus! {

/// The strokes along traces.
pub open spec fn strokes(traces: Seq<Trace>, width: int) -> Seq<Figure> {
    traces.map_values(
        |t: Trace| Figure::Stroke { start: t.start, end: t.end, width: width as i128 },
    )
}

pub(crate) fn draw_strokes(traces: &Vec<Trace>, width: i64) -> (out: Vec<Figure>)
    ensures
        out@ == strokes(traces@, width as int),
{
    let mut out: Vec<Figure> = Vec::new();
    let mut i: usize = 0;
    while i < traces.len()
        invariant
            i <= traces@.len(),
            out@ == strokes(traces@.take(i as int), width as int),
        decreases traces@.len() - i,
    {
        out.push(Figure::Stroke { start: traces[i].start, end: traces[i].end, width: width as i128 });
        i += 1;
        proof {
            assert(out@ =~= strokes(traces@.take(i as int), width as int));
        }
    }
    proof {
        assert(traces@.take(traces@.len() as int) =~= traces@);
    }
    out
}

/// Whether a pad is on a layer.
pub open spec fn is_on(pad: Pad, layer: CopperLayer) -> bool {
    match layer {
        CopperLayer::FCu => pad.on_fcu,
        CopperLayer::BCu => pad.on_bcu,
    }
}

/// The recess for a pad, in its shape; none if it is too small to print.
pub open spec fn land_of(pad: Pad, margin: int) -> Option<Figure> {
    match land_size(pad.width as int, pad.height as int, margin) {
        None => None,
        Some((w, h)) => Some(
            match pad.shape {
                PadShape::Rect | PadShape::RoundRect => Figure::Slab {
                    center: pad.center,
                    width: w as i128,
                    height: h as i128,
                    rotation: pad.rotation,
                },
                PadShape::Circle => Figure::Disc {
                    center: pad.center,
                    diameter: if w >= h {
                        w as i128
                    } else {
                        h as i128
                    },
                    sides: 24,
                },
                PadShape::Oval => Figure::Oval {
                    center: pad.center,
                    width: w as i128,
                    height: h as i128,
                    rotation: pad.rotation,
                    sides: 12,
                },
            },
        ),
    }
}

fn draw_land(pad: &Pad, margin: i64) -> (out: Option<Figure>)
    ensures
        out == land_of(*pad, margin as int),
{
    match pad_land_size(pad, margin) {
        None => None,
        Some((w, h)) => Some(
            match pad.shape {
                PadShape::Rect | PadShape::RoundRect => Figure::Slab {
                    center: pad.center,
                    width: w,
                    height: h,
                    rotation: pad.rotation,
                },
                PadShape::Circle => Figure::Disc {
                    center: pad.center,
                    diameter: if w >= h {
                        w
                    } else {
                        h
                    },
                    sides: 24,
                },
                PadShape::Oval => Figure::Oval {
                    center: pad.center,
                    width: w,
                    height: h,
                    rotation: pad.rotation,
                    sides: 12,
                },
            },
        ),
    }
}

/// The recesses for the pads of a layer.
pub open spec fn lands(pads: Seq<Pad>, margin: int, layer: CopperLayer) -> Seq<Figure>
    decreases pads.len(),
{
    if pads.len() == 0 {
        Seq::empty()
    } else {
        let front = lands(pads.drop_last(), margin, layer);
        if is_on(pads.last(), layer) {
            match land_of(pads.last(), margin) {
                Some(f) => front.push(f),
                None => front,
            }
        } else {
            front
        }
    }
}

pub(crate) fn draw_lands(pads: &Vec<Pad>, margin: i64, layer: CopperLayer) -> (out: Vec<Figure>)
    ensures
        out@ == lands(pads@, margin as int, layer),
{
    let mut out: Vec<Figure> = Vec::new();
    let mut i: usize = 0;
    proof {
        assert(pads@.take(0).len() == 0);
    }
    while i < pads.len()
        invariant
            i <= pads@.len(),
            out@ == lands(pads@.take(i as int), margin as int, layer),
        decreases pads@.len() - i,
    {
        proof {
            assert(pads@.take(i + 1).drop_last() =~= pads@.take(i as int));
        }
        let on = match layer {
            CopperLayer::FCu => pads[i].on_fcu,
            CopperLayer::BCu => pads[i].on_bcu,
        };
        if on {
            if let Some(f) = draw_land(&pads[i], margin) {
                out.push(f);
            }
        }
        i += 1;
    }
    proof {
        assert(pads@.take(pads@.len() as int) =~= pads@);
    }
    out
}

/// The hole for the lead of a drilled pad: round, or a slot.
pub open spec fn lead_hole(pad: Pad, least: int) -> Figure {
    let (w, h) = pad_bore(pad.drill as int, pad.drill_h as int, least);
    if w == h {
        Figure::Disc { center: pad.center, diameter: w as i128, sides: 16 }
    } else {
        Figure::Oval {
            center: pad.center,
            width: w as i128,
            height: h as i128,
            rotation: pad.rotation,
            sides: 8,
        }
    }
}

/// The holes for leads. A pad without a drill gets none.
pub open spec fn lead_holes(pads: Seq<Pad>, least: int) -> Seq<Figure>
    decreases pads.len(),
{
    if pads.len() == 0 {
        Seq::empty()
    } else {
        let front = lead_holes(pads.drop_last(), least);
        if pads.last().drill > 0 {
            front.push(lead_hole(pads.last(), least))
        } else {
            front
        }
    }
}

fn draw_lead_holes(pads: &Vec<Pad>, least: i64) -> (out: Vec<Figure>)
    ensures
        out@ == lead_holes(pads@, least as int),
{
    let mut out: Vec<Figure> = Vec::new();
    let mut i: usize = 0;
    proof {
        assert(pads@.take(0).len() == 0);
    }
    while i < pads.len()
        invariant
            i <= pads@.len(),
            out@ == lead_holes(pads@.take(i as int), least as int),
        decreases pads@.len() - i,
    {
        proof {
            assert(pads@.take(i + 1).drop_last() =~= pads@.take(i as int));
        }
        let pad = &pads[i];
        if pad.drill > 0 {
            let (w, h) = pad_bore_size(pad, least);
            out.push(
                if w == h {
                    Figure::Disc { center: pad.center, diameter: w as i128, sides: 16 }
                } else {
                    Figure::Oval {
                        center: pad.center,
                        width: w as i128,
                        height: h as i128,
                        rotation: pad.rotation,
                        sides: 8,
                    }
                },
            );
        }
        i += 1;
    }
    proof {
        assert(pads@.take(pads@.len() as int) =~= pads@);
    }
    out
}

/// The holes of vias.
pub open spec fn via_holes(vias: Seq<Via>, eyelet: int) -> Seq<Figure> {
    vias.map_values(
        |v: Via|
            Figure::Disc {
                center: v.center,
                diameter: via_bore(v.drill as int, eyelet) as i128,
                sides: 16,
            },
    )
}

fn draw_via_holes(vias: &Vec<Via>, eyelet: i64) -> (out: Vec<Figure>)
    ensures
        out@ == via_holes(vias@, eyelet as int),
{
    let mut out: Vec<Figure> = Vec::new();
    let mut i: usize = 0;
    while i < vias.len()
        invariant
            i <= vias@.len(),
            out@ == via_holes(vias@.take(i as int), eyelet as int),
        decreases vias@.len() - i,
    {
        let diameter: i64 = via_bore_diameter(&vias[i], eyelet);
        out.push(Figure::Disc { center: vias[i].center, diameter: diameter as i128, sides: 16 });
        i += 1;
        proof {
            assert(out@ =~= via_holes(vias@.take(i as int), eyelet as int));
        }
    }
    proof {
        assert(vias@.take(vias@.len() as int) =~= vias@);
    }
    out
}

/// The figure of an opening in the board.
pub open spec fn cutout_figure(c: CutoutShape) -> Figure {
    match c {
        CutoutShape::Rect { center, half_width, half_height, rotation } => Figure::Slab {
            center,
            width: (2 * half_width) as i128,
            height: (2 * half_height) as i128,
            rotation,
        },
        CutoutShape::Circle { center, radius } => Figure::Disc {
            center,
            diameter: (2 * radius) as i128,
            sides: 32,
        },
    }
}

/// The figures of the openings in a board.
pub open spec fn cutout_figures(list: Seq<CutoutShape>) -> Seq<Figure> {
    list.map_values(|c: CutoutShape| cutout_figure(c))
}

fn draw_cutouts(list: &Vec<CutoutShape>) -> (out: Vec<Figure>)
    ensures
        out@ == cutout_figures(list@),
{
    let mut out: Vec<Figure> = Vec::new();
    let mut i: usize = 0;
    while i < list.len()
        invariant
            i <= list@.len(),
            out@ == cutout_figures(list@.take(i as int)),
        decreases list@.len() - i,
    {
        let figure = match list[i] {
            CutoutShape::Rect { center, half_width, half_height, rotation } => Figure::Slab {
                center,
                width: 2 * half_width as i128,
                height: 2 * half_height as i128,
                rotation,
            },
            CutoutShape::Circle { center, radius } => Figure::Disc {
                center,
                diameter: 2 * radius as i128,
                sides: 32,
            },
        };
        out.push(figure);
        i += 1;
        proof {
            assert(out@ =~= cutout_figures(list@.take(i as int)));
        }
    }
    proof {
        assert(list@.take(list@.len() as int) =~= list@);
    }
    out
}

/// The figure of a collar.
pub open spec fn collar_figure(c: ((int, int), int)) -> Figure {
    Figure::Disc {
        center: Point2 { x: c.0.0 as i64, y: c.0.1 as i64 },
        diameter: c.1 as i128,
        sides: 16,
    }
}

/// The figures of collars.
pub open spec fn collar_figures(list: Seq<((int, int), int)>) -> Seq<Figure> {
    list.map_values(|c: ((int, int), int)| collar_figure(c))
}

fn draw_collars(list: &Vec<Collar>) -> (out: Vec<Figure>)
    ensures
        out@ == collar_figures(collar_models(list@)),
{
    let mut out: Vec<Figure> = Vec::new();
    let mut i: usize = 0;
    while i < list.len()
        invariant
            i <= list@.len(),
            out@ == collar_figures(collar_models(list@.take(i as int))),
        decreases list@.len() - i,
    {
        out.push(Figure::Disc { center: list[i].center, diameter: list[i].diameter, sides: 16 });
        i += 1;
        proof {
            assert(out@ =~= collar_figures(collar_models(list@.take(i as int))));
        }
    }
    proof {
        assert(list@.take(list@.len() as int) =~= list@);
    }
    out
}

/// What so many countersinks cover at a depth, in a band.
pub open spec fn mouths(count: int, depth: int, band: int) -> Seq<Figure> {
    Seq::new(
        count as nat,
        |k: int| Figure::Mouth { bore: k as usize, depth: depth as i64, band: band as usize },
    )
}

fn draw_mouths(count: usize, depth: i64, band: usize) -> (out: Vec<Figure>)
    ensures
        out@ == mouths(count as int, depth as int, band as int),
{
    let mut out: Vec<Figure> = Vec::new();
    let mut k: usize = 0;
    while k < count
        invariant
            k <= count,
            out@ == mouths(k as int, depth as int, band as int),
        decreases count - k,
    {
        out.push(Figure::Mouth { bore: k, depth, band });
        k += 1;
        proof {
            assert(out@ =~= mouths(k as int, depth as int, band as int));
        }
    }
    out
}

/// What each figure covers.
pub type Cover = spec_fn(Figure) -> Set<(int, int)>;

/// What is drilled: the holes of vias, and those for leads if they are asked for.
pub open spec fn drilled(pcb: PcbData, c: Config, of: Cover) -> Set<(int, int)> {
    let vias = merged(via_holes(pcb.vias@, c.eyelet_diameter as int), of);
    if c.generate_pad_holes {
        merged(lead_holes(pcb.pads@, c.pad_hole_diameter as int), of).union(vias)
    } else {
        vias
    }
}

/// What goes through the board: what is drilled, and the openings of its edge.
pub open spec fn holes(pcb: PcbData, c: Config, of: Cover) -> Set<(int, int)> {
    drilled(pcb, c, of).union(merged(cutout_figures(pcb.cutouts@), of))
}

/// The straight traces of a layer.
pub open spec fn traces_of(pcb: PcbData, layer: CopperLayer) -> Seq<Trace> {
    match layer {
        CopperLayer::FCu => pcb.traces_fcu@,
        CopperLayer::BCu => pcb.traces_bcu@,
    }
}

/// What decides on the collars of a layer in a band.
pub open spec fn collar_rules(c: Config, b: Bands, layer: CopperLayer, i: int) -> CollarRules {
    let wide = band_width(b.count as int, b.floor as int, b.opening as int, i);
    let narrow = band_width(b.count as int, b.floor as int, b.opening as int, 0);
    CollarRules {
        layer,
        lands: c.generate_pad_lands,
        channel_width: c.channel_width,
        pad_hole_diameter: c.pad_hole_diameter,
        eyelet_diameter: c.eyelet_diameter,
        extra: ((wide - narrow) / 2) as i64,
    }
}

/// The pockets round holes in a band: collars, or the countersinks if there are any.
pub open spec fn pockets(
    pcb: PcbData,
    c: Config,
    b: Bands,
    sinks: int,
    layer: CopperLayer,
    i: int,
) -> Seq<Figure> {
    if sinks == 0 {
        collar_figures(
            collars(pcb.pads@, pcb.vias@, traces_of(pcb, layer), collar_rules(c, b, layer, i)),
        )
    } else {
        let depth = if c.channel_depth < 0 {
            0
        } else {
            c.channel_depth as int
        };
        mouths(sinks, band_depth(b.count as int, depth, i), i)
    }
}

/// What is cut in a band of a layer, before it is clipped: the traces, the recesses for
/// pads if they are asked for, and the pockets.
pub open spec fn copper(
    pcb: PcbData,
    c: Config,
    b: Bands,
    sinks: int,
    layer: CopperLayer,
    i: int,
    of: Cover,
) -> Set<(int, int)> {
    let width = band_width(b.count as int, b.floor as int, b.opening as int, i);
    let along = merged(strokes(traces_of(pcb, layer), width), of);
    let recessed = if c.generate_pad_lands {
        along.union(merged(lands(pcb.pads@, width - b.opening, layer), of))
    } else {
        along
    };
    recessed.union(merged(pockets(pcb, c, b, sinks, layer, i), of))
}

/// What is cut in a band of a layer: what lies on the board and in no hole.
pub open spec fn network(
    pcb: PcbData,
    c: Config,
    b: Bands,
    sinks: int,
    layer: CopperLayer,
    i: int,
    of: Cover,
) -> Set<(int, int)> {
    copper(pcb, c, b, sinks, layer, i, of).intersect(of(Figure::Board)).difference(
        holes(pcb, c, of),
    )
}

/// The face of the board on a layer: the board without its holes and without what is
/// cut in the widest band.
pub open spec fn face(
    pcb: PcbData,
    c: Config,
    b: Bands,
    sinks: int,
    layer: CopperLayer,
    of: Cover,
) -> Set<(int, int)> {
    of(Figure::Board).difference(holes(pcb, c, of)).difference(
        network(pcb, c, b, sinks, layer, b.count - 1, of),
    )
}

/// What is cut lies on the board and in no hole.
pub proof fn lemma_network_on_board(
    pcb: PcbData,
    c: Config,
    b: Bands,
    sinks: int,
    layer: CopperLayer,
    i: int,
    of: Cover,
)
    ensures
        network(pcb, c, b, sinks, layer, i, of).subset_of(of(Figure::Board)),
        network(pcb, c, b, sinks, layer, i, of).disjoint(holes(pcb, c, of)),
{
}

/// The face of a layer, what is cut into it and the holes make up the board, and no
/// two of them overlap.
pub proof fn lemma_board_divided(
    pcb: PcbData,
    c: Config,
    b: Bands,
    sinks: int,
    layer: CopperLayer,
    of: Cover,
)
    ensures
        ({
            let cut = network(pcb, c, b, sinks, layer, b.count - 1, of);
            let left = face(pcb, c, b, sinks, layer, of);
            let through = of(Figure::Board).intersect(holes(pcb, c, of));
            &&& left.union(cut).union(through) == of(Figure::Board)
            &&& left.disjoint(cut)
            &&& left.disjoint(through)
            &&& cut.disjoint(through)
        }),
{
    let cut = network(pcb, c, b, sinks, layer, b.count - 1, of);
    let left = face(pcb, c, b, sinks, layer, of);
    let through = of(Figure::Board).intersect(holes(pcb, c, of));
    assert(left.union(cut).union(through) =~= of(Figure::Board));
}

pub(crate) fn lay_drilled(plan: &mut Plan, pcb: &PcbData, c: &Config, purpose: Purpose) -> (at: usize)
    requires
        old(plan).well_formed(),
    ensures
        final(plan).well_formed(),
        final(plan).goes_on(*old(plan)),
        at < final(plan).steps@.len(),
        forall|of: Cover| #[trigger] final(plan).area(at, of) == drilled(*pcb, *c, of),
{
    let vias = plan.merge(draw_via_holes(&pcb.vias, c.eyelet_diameter));
    if c.generate_pad_holes {
        let leads = plan.merge(draw_lead_holes(&pcb.pads, c.pad_hole_diameter));
        plan.union(leads, vias, purpose)
    } else {
        vias
    }
}

fn lay_holes(plan: &mut Plan, pcb: &PcbData, c: &Config) -> (at: usize)
    requires
        old(plan).well_formed(),
    ensures
        final(plan).well_formed(),
        final(plan).goes_on(*old(plan)),
        at < final(plan).steps@.len(),
        forall|of: Cover| #[trigger] final(plan).area(at, of) == holes(*pcb, *c, of),
{
    let drills = lay_drilled(plan, pcb, c, Purpose::PadAndViaHoles);
    if pcb.cutouts.len() > 0 {
        let cutouts = plan.merge(draw_cutouts(&pcb.cutouts));
        plan.union(drills, cutouts, Purpose::HolesAndCutouts)
    } else {
        proof {
            assert forall|of: Cover| #[trigger] plan.area(drills, of) == holes(*pcb, *c, of) by {
                let none = merged(cutout_figures(pcb.cutouts@), of);
                assert(none =~= Set::<(int, int)>::empty());
                assert(drilled(*pcb, *c, of).union(none) =~= drilled(*pcb, *c, of));
            }
        }
        drills
    }
}

/// Whether the bands of grooves are of a size that can be built.
pub open spec fn fits_bands(b: Bands) -> bool {
    &&& 1 <= b.count <= MAX_TAPER_BANDS
    &&& -FAR <= b.floor <= b.opening <= FAR
}

/// Whether the pockets of a layer can be measured: those of countersinks are given.
pub open spec fn fits_layer(pcb: PcbData, sinks: int, layer: CopperLayer) -> bool {
    sinks == 0 ==> centers_in_reach(pcb.pads@, pcb.vias@) && traces_in_reach(traces_of(pcb, layer))
}

fn draw_pockets(pcb: &PcbData, c: &Config, b: &Bands, sinks: usize, layer: CopperLayer, i: usize) -> (
out: Option<Vec<Figure>>)
    requires
        fits_bands(*b),
        i < b.count,
    ensures
        out is Some == fits_layer(*pcb, sinks as int, layer),
        out matches Some(list) ==> list@ == pockets(*pcb, *c, *b, sinks as int, layer, i as int),
{
    if sinks == 0 {
        let rules = CollarRules {
            layer,
            lands: c.generate_pad_lands,
            channel_width: c.channel_width,
            pad_hole_diameter: c.pad_hole_diameter,
            eyelet_diameter: c.eyelet_diameter,
            extra: (b.width(i) - b.width(0)) / 2,
        };
        let found = match layer {
            CopperLayer::FCu => hole_collars(&pcb.pads, &pcb.vias, &pcb.traces_fcu, &rules),
            CopperLayer::BCu => hole_collars(&pcb.pads, &pcb.vias, &pcb.traces_bcu, &rules),
        };
        match found {
            Some(list) => Some(draw_collars(&list)),
            None => None,
        }
    } else {
        let depth: i64 = if c.channel_depth < 0 {
            0
        } else {
            c.channel_depth
        };
        Some(draw_mouths(sinks, b.depth(depth, i), i))
    }
}

fn lay_network(
    plan: &mut Plan,
    pcb: &PcbData,
    c: &Config,
    b: &Bands,
    sinks: usize,
    layer: CopperLayer,
    i: usize,
    board: usize,
    through: usize,
) -> (out: Option<usize>)
    requires
        old(plan).well_formed(),
        fits_bands(*b),
        i < b.count,
        board < old(plan).steps@.len(),
        through < old(plan).steps@.len(),
        forall|of: Cover| #[trigger] old(plan).area(board, of) == of(Figure::Board),
        forall|of: Cover| #[trigger] old(plan).area(through, of) == holes(*pcb, *c, of),
    ensures
        final(plan).well_formed(),
        final(plan).goes_on(*old(plan)),
        out is Some == fits_layer(*pcb, sinks as int, layer),
        out matches Some(at) ==> at < final(plan).steps@.len() && forall|of: Cover|
            #[trigger] final(plan).area(at, of) == network(
                *pcb,
                *c,
                *b,
                sinks as int,
                layer,
                i as int,
                of,
            ),
{
    let round = match draw_pockets(pcb, c, b, sinks, layer, i) {
        Some(list) => list,
        None => {
            return None;
        },
    };
    let width: i64 = b.width(i);
    let along = match layer {
        CopperLayer::FCu => draw_strokes(&pcb.traces_fcu, width),
        CopperLayer::BCu => draw_strokes(&pcb.traces_bcu, width),
    };
    let ghost p0 = *plan;
    let mut level = plan.merge(along);
    let ghost p1 = *plan;
    if c.generate_pad_lands {
        let recesses = plan.merge(draw_lands(&pcb.pads, width - b.opening, layer));
        let ghost p2 = *plan;
        level = plan.union(level, recesses, Purpose::Network(layer));
        proof {
            assert(plan.goes_on(p0));
        }
    }
    let ghost p3 = *plan;
    let pocket = plan.merge(round);
    let ghost p4 = *plan;
    level = plan.union(level, pocket, Purpose::Network(layer));
    let ghost p5 = *plan;
    let clipped = plan.intersection(level, board, Purpose::NetworkClip(layer));
    let ghost p6 = *plan;
    let cut = plan.difference(clipped, through, Purpose::NetworkClip(layer));
    proof {
        assert(plan.goes_on(p0));
        assert forall|of: Cover| #[trigger] plan.area(cut, of) == network(
            *pcb,
            *c,
            *b,
            sinks as int,
            layer,
            i as int,
            of,
        ) by {
            assert(p6.area(through, of) == p0.area(through, of));
            assert(p5.area(board, of) == p0.area(board, of));
            assert(p5.area(level, of) == copper(*pcb, *c, *b, sinks as int, layer, i as int, of));
        }
    }
    Some(cut)
}

/// Whether areas of a plan are what is cut in the bands of a layer, from the floor up.
pub open spec fn are_networks(
    plan: Plan,
    list: Seq<usize>,
    pcb: PcbData,
    c: Config,
    b: Bands,
    sinks: int,
    layer: CopperLayer,
) -> bool {
    &&& forall|i: int| 0 <= i < list.len() ==> #[trigger] list[i] < plan.steps@.len()
    &&& forall|i: int, of: Cover|
        0 <= i < list.len() ==> #[trigger] plan.area(list[i], of) == network(
            pcb,
            c,
            b,
            sinks,
            layer,
            i,
            of,
        )
}

fn lay_layer(
    plan: &mut Plan,
    pcb: &PcbData,
    c: &Config,
    b: &Bands,
    sinks: usize,
    layer: CopperLayer,
    board: usize,
    through: usize,
) -> (out: Option<Vec<usize>>)
    requires
        old(plan).well_formed(),
        fits_bands(*b),
        board < old(plan).steps@.len(),
        through < old(plan).steps@.len(),
        forall|of: Cover| #[trigger] old(plan).area(board, of) == of(Figure::Board),
        forall|of: Cover| #[trigger] old(plan).area(through, of) == holes(*pcb, *c, of),
    ensures
        final(plan).well_formed(),
        final(plan).goes_on(*old(plan)),
        out is Some == fits_layer(*pcb, sinks as int, layer),
        out matches Some(list) ==> list@.len() == b.count && are_networks(
            *final(plan),
            list@,
            *pcb,
            *c,
            *b,
            sinks as int,
            layer,
        ),
{
    let ghost first = *plan;
    let mut list: Vec<usize> = Vec::new();
    let mut i: usize = 0;
    while i < b.count
        invariant
            fits_bands(*b),
            i <= b.count,
            list@.len() == i,
            i > 0 ==> fits_layer(*pcb, sinks as int, layer),
            first == *old(plan),
            plan.well_formed(),
            plan.goes_on(first),
            board < first.steps@.len(),
            through < first.steps@.len(),
            forall|of: Cover| #[trigger] first.area(board, of) == of(Figure::Board),
            forall|of: Cover| #[trigger] first.area(through, of) == holes(*pcb, *c, of),
            are_networks(*plan, list@, *pcb, *c, *b, sinks as int, layer),
        decreases b.count - i,
    {
        let ghost before = *plan;
        let ghost done = list@;
        proof {
            assert forall|of: Cover| #[trigger] plan.area(board, of) == of(Figure::Board) by {
                assert(plan.area(board, of) == first.area(board, of));
            }
            assert forall|of: Cover| #[trigger] plan.area(through, of) == holes(*pcb, *c, of) by {
                assert(plan.area(through, of) == first.area(through, of));
            }
        }
        match lay_network(plan, pcb, c, b, sinks, layer, i, board, through) {
            Some(at) => {
                list.push(at);
                proof {
                    assert forall|j: int, of: Cover|
                        0 <= j < list@.len() implies #[trigger] plan.area(list@[j], of) == network(
                        *pcb,
                        *c,
                        *b,
                        sinks as int,
                        layer,
                        j,
                        of,
                    ) by {
                        if j < i {
                            assert(list@[j] == done[j]);
                            assert(before.area(done[j], of) == network(
                                *pcb,
                                *c,
                                *b,
                                sinks as int,
                                layer,
                                j,
                                of,
                            ));
                        }
                    }
                }
            },
            None => {
                proof {
                    assert forall|k: usize, of: Cover|
                        k < first.steps@.len() implies #[trigger] plan.area(k, of) == first.area(
                        k,
                        of,
                    ) by {
                        assert(before.area(k, of) == first.area(k, of));
                    }
                }
                return None;
            },
        }
        i += 1;
    }
    Some(list)
}

/// Whether areas of a plan are the rims between each band and the next wider one.
pub open spec fn are_ledges(plan: Plan, ledges: Seq<usize>, list: Seq<usize>) -> bool {
    &&& ledges.len() == list.len() - 1
    &&& forall|i: int| 0 <= i < ledges.len() ==> #[trigger] ledges[i] < plan.steps@.len()
    &&& forall|i: int, of: Cover|
        0 <= i < ledges.len() ==> #[trigger] plan.area(ledges[i], of) == plan.area(
            list[i + 1],
            of,
        ).difference(plan.area(list[i], of))
}

fn lay_ledges(plan: &mut Plan, list: &Vec<usize>) -> (out: Vec<usize>)
    requires
        old(plan).well_formed(),
        list@.len() > 0,
        forall|i: int| 0 <= i < list@.len() ==> #[trigger] list@[i] < old(plan).steps@.len(),
    ensures
        final(plan).well_formed(),
        final(plan).goes_on(*old(plan)),
        are_ledges(*final(plan), out@, list@),
{
    let ghost first = *plan;
    let mut out: Vec<usize> = Vec::new();
    let mut i: usize = 1;
    while i < list.len()
        invariant
            1 <= i <= list@.len(),
            out@.len() == i - 1,
            plan.well_formed(),
            plan.goes_on(first),
            forall|j: int| 0 <= j < list@.len() ==> #[trigger] list@[j] < first.steps@.len(),
            forall|j: int| 0 <= j < out@.len() ==> #[trigger] out@[j] < plan.steps@.len(),
            forall|j: int, of: Cover|
                0 <= j < out@.len() ==> #[trigger] plan.area(out@[j], of) == first.area(
                    list@[j + 1],
                    of,
                ).difference(first.area(list@[j], of)),
        decreases list@.len() - i,
    {
        let ghost before = *plan;
        let ghost done = out@;
        let at = plan.difference(list[i], list[i - 1], Purpose::TaperLedge);
        out.push(at);
        proof {
            assert forall|j: int, of: Cover|
                0 <= j < out@.len() implies #[trigger] plan.area(out@[j], of) == first.area(
                list@[j + 1],
                of,
            ).difference(first.area(list@[j], of)) by {
                if j < done.len() {
                    assert(out@[j] == done[j]);
                    assert(before.area(done[j], of) == first.area(list@[j + 1], of).difference(
                        first.area(list@[j], of),
                    ));
                } else {
                    assert(before.area(list@[j + 1], of) == first.area(list@[j + 1], of));
                    assert(before.area(list@[j], of) == first.area(list@[j], of));
                }
            }
        }
        i += 1;
    }
    proof {
        assert forall|j: int, of: Cover|
            0 <= j < out@.len() implies #[trigger] plan.area(out@[j], of) == plan.area(
            list@[j + 1],
            of,
        ).difference(
            plan.area(list@[j], of),
        ) by {
            assert(plan.area(list@[j + 1], of) == first.area(list@[j + 1], of));
            assert(plan.area(list@[j], of) == first.area(list@[j], of));
        }
    }
    out
}

/// The areas that the model of a board is made of, by their places in a plan.
#[derive(Debug)]
pub struct ModelPlan {
    pub plan: Plan,
    /// What goes through the board.
    pub holes: usize,
    pub top: usize,
    pub bottom: usize,
    /// What is cut into the top, band by band from the floor up, and the rims between.
    pub upper: Vec<usize>,
    pub upper_ledges: Vec<usize>,
    /// The same of the bottom.
    pub lower: Vec<usize>,
    pub lower_ledges: Vec<usize>,
}

/// Whether a plan makes the areas of a board: what goes through it, what is cut into
/// each side, and what is left of each face. A bottom with nothing cut into it is the
/// board without its holes.
pub open spec fn makes_model(
    m: ModelPlan,
    pcb: PcbData,
    c: Config,
    b: Bands,
    sinks: int,
    recessed: bool,
) -> bool {
    &&& m.plan.well_formed()
    &&& m.upper@.len() == b.count
    &&& m.lower@.len() == b.count
    &&& are_networks(m.plan, m.upper@, pcb, c, b, sinks, CopperLayer::FCu)
    &&& are_networks(m.plan, m.lower@, pcb, c, b, sinks, CopperLayer::BCu)
    &&& are_ledges(m.plan, m.upper_ledges@, m.upper@)
    &&& are_ledges(m.plan, m.lower_ledges@, m.lower@)
    &&& m.holes < m.plan.steps@.len()
    &&& m.top < m.plan.steps@.len()
    &&& m.bottom < m.plan.steps@.len()
    &&& forall|of: Cover| #[trigger] m.plan.area(m.holes, of) == holes(pcb, c, of)
    &&& forall|of: Cover|
        #[trigger] m.plan.area(m.top, of) == face(pcb, c, b, sinks, CopperLayer::FCu, of)
    &&& forall|of: Cover|
        #[trigger] m.plan.area(m.bottom, of) == (if recessed {
            face(pcb, c, b, sinks, CopperLayer::BCu, of)
        } else {
            of(Figure::Board).difference(holes(pcb, c, of))
        })
}

/// Plans the areas of a board with so many countersinks. `recessed` says whether
/// anything is cut into the bottom. None if bands or parts are out of reach.
pub fn plan_model(pcb: &PcbData, c: &Config, b: &Bands, sinks: usize, recessed: bool) -> (out: Option<
    ModelPlan,
>)
    ensures
        out is Some == (fits_bands(*b) && fits_layer(*pcb, sinks as int, CopperLayer::FCu)
            && fits_layer(*pcb, sinks as int, CopperLayer::BCu)),
        out matches Some(m) ==> makes_model(m, *pcb, *c, *b, sinks as int, recessed),
{
    if !(1 <= b.count && b.count <= MAX_TAPER_BANDS && -FAR <= b.floor && b.floor <= b.opening
        && b.opening <= FAR) {
        return None;
    }
    let mut plan = Plan::new();
    let board = plan.single(Figure::Board);
    let ghost p0 = plan;
    let through = lay_holes(&mut plan, pcb, c);
    let ghost p1 = plan;
    proof {
        assert forall|of: Cover| #[trigger] p1.area(board, of) == of(Figure::Board) by {
            assert(p1.area(board, of) == p0.area(board, of));
        }
    }
    let upper = match lay_layer(&mut plan, pcb, c, b, sinks, CopperLayer::FCu, board, through) {
        Some(list) => list,
        None => {
            return None;
        },
    };
    let ghost p2 = plan;
    proof {
        assert forall|of: Cover| #[trigger] p2.area(board, of) == of(Figure::Board) by {
            assert(p2.area(board, of) == p1.area(board, of));
        }
        assert forall|of: Cover| #[trigger] p2.area(through, of) == holes(*pcb, *c, of) by {
            assert(p2.area(through, of) == p1.area(through, of));
        }
    }
    let lower = match lay_layer(&mut plan, pcb, c, b, sinks, CopperLayer::BCu, board, through) {
        Some(list) => list,
        None => {
            return None;
        },
    };
    let ghost p3 = plan;
    let slab = plan.difference(board, through, Purpose::BoardLessHoles);
    let ghost p4 = plan;
    let top = plan.difference(slab, upper[upper.len() - 1], Purpose::Face(CopperLayer::FCu));
    let ghost p5 = plan;
    let bottom = if recessed {
        plan.difference(slab, lower[lower.len() - 1], Purpose::Face(CopperLayer::BCu))
    } else {
        slab
    };
    let ghost p6 = plan;
    let upper_ledges = lay_ledges(&mut plan, &upper);
    let ghost p7 = plan;
    let lower_ledges = lay_ledges(&mut plan, &lower);
    let ghost p8 = plan;
    let m = ModelPlan {
        plan,
        holes: through,
        top,
        bottom,
        upper,
        upper_ledges,
        lower,
        lower_ledges,
    };
    proof {
        let last = upper@[upper@.len() - 1];
        let lowest = lower@[lower@.len() - 1];
        assert forall|of: Cover| #[trigger] p4.area(slab, of) == of(Figure::Board).difference(
            holes(*pcb, *c, of),
        ) by {
            assert(p3.area(board, of) == p2.area(board, of));
            assert(p3.area(through, of) == p2.area(through, of));
        }
        assert forall|of: Cover| #[trigger] m.plan.area(m.holes, of) == holes(*pcb, *c, of) by {
            assert(p8.area(through, of) == p7.area(through, of));
            assert(p7.area(through, of) == p6.area(through, of));
            assert(p6.area(through, of) == p5.area(through, of));
            assert(p5.area(through, of) == p4.area(through, of));
            assert(p4.area(through, of) == p3.area(through, of));
            assert(p3.area(through, of) == p2.area(through, of));
        }
        assert forall|of: Cover|
            #[trigger] m.plan.area(m.top, of) == face(
                *pcb,
                *c,
                *b,
                sinks as int,
                CopperLayer::FCu,
                of,
            ) by {
            assert(p8.area(top, of) == p7.area(top, of));
            assert(p7.area(top, of) == p6.area(top, of));
            assert(p6.area(top, of) == p5.area(top, of));
            assert(p4.area(last, of) == p3.area(last, of));
            assert(p3.area(last, of) == p2.area(last, of));
        }
        assert forall|of: Cover|
            #[trigger] m.plan.area(m.bottom, of) == (if recessed {
                face(*pcb, *c, *b, sinks as int, CopperLayer::BCu, of)
            } else {
                of(Figure::Board).difference(holes(*pcb, *c, of))
            }) by {
            assert(p8.area(bottom, of) == p7.area(bottom, of));
            assert(p7.area(bottom, of) == p6.area(bottom, of));
            if recessed {
                assert(p5.area(slab, of) == p4.area(slab, of));
                assert(p5.area(lowest, of) == p4.area(lowest, of));
                assert(p4.area(lowest, of) == p3.area(lowest, of));
            } else {
                assert(p6.area(slab, of) == p5.area(slab, of));
                assert(p5.area(slab, of) == p4.area(slab, of));
            }
        }
        lemma_networks_kept(p2, p8, upper@, *pcb, *c, *b, sinks as int, CopperLayer::FCu);
        lemma_networks_kept(p3, p8, lower@, *pcb, *c, *b, sinks as int, CopperLayer::BCu);
        lemma_ledges_kept(p7, p8, upper_ledges@, upper@);
    }
    Some(m)
}

proof fn lemma_networks_kept(
    plan: Plan,
    more: Plan,
    list: Seq<usize>,
    pcb: PcbData,
    c: Config,
    b: Bands,
    sinks: int,
    layer: CopperLayer,
)
    requires
        more.goes_on(plan),
        are_networks(plan, list, pcb, c, b, sinks, layer),
    ensures
        are_networks(more, list, pcb, c, b, sinks, layer),
{
    assert forall|i: int, of: Cover|
        0 <= i < list.len() implies #[trigger] more.area(list[i], of) == network(
        pcb,
        c,
        b,
        sinks,
        layer,
        i,
        of,
    ) by {
        assert(plan.area(list[i], of) == network(pcb, c, b, sinks, layer, i, of));
    }
}

proof fn lemma_ledges_kept(plan: Plan, more: Plan, ledges: Seq<usize>, list: Seq<usize>)
    requires
        more.goes_on(plan),
        are_ledges(plan, ledges, list),
        forall|i: int| 0 <= i < list.len() ==> #[trigger] list[i] < plan.steps@.len(),
    ensures
        are_ledges(more, ledges, list),
{
    assert forall|i: int, of: Cover|
        0 <= i < ledges.len() implies #[trigger] more.area(ledges[i], of) == more.area(
        list[i + 1],
        of,
    ).difference(more.area(list[i], of)) by {
        assert(plan.area(ledges[i], of) == plan.area(list[i + 1], of).difference(
            plan.area(list[i], of),
        ));
        assert(more.area(list[i + 1], of) == plan.area(list[i + 1], of));
        assert(more.area(list[i], of) == plan.area(list[i], of));
    }
}

} // verus!
