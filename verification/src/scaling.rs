//! Boards at another size.

use crate::pcb::{ArcTrace, CutoutShape, Footprint, Pad, PcbData, Point2, Trace, Via};
use crate::reading::{
    footprint_model, footprint_models, name_view, pad_model, pad_models, via_model, via_models,
    FootprintModel, PadModel, ViaModel,
};
use vstd::prelude::*;

verus! {

/// The nearest whole number to a number of millionths, a half away from zero.
pub open spec fn from_millionths(n: int) -> int {
    if n >= 0 {
        (n + 500_000) / 1_000_000
    } else {
        -((-n + 500_000) / 1_000_000)
    }
}

/// A length times a factor in millionths. One that gets too long stays at the limit.
pub open spec fn scaled(n: int, factor: int) -> int {
    let v = from_millionths(n * factor);
    if v > i64::MAX {
        i64::MAX as int
    } else if v < i64::MIN {
        i64::MIN as int
    } else {
        v
    }
}

/// Scales a length by a factor in millionths.
pub fn scale_length(n: i64, factor: i64) -> (v: i64)
    ensures
        v == scaled(n as int, factor as int),
{
    proof {
        assert(-0x4000_0000_0000_0000_0000_0000_0000_0000 <= n * factor
            <= 0x4000_0000_0000_0000_0000_0000_0000_0000) by (nonlinear_arith)
            requires
                -0x8000_0000_0000_0000 <= n <= 0x8000_0000_0000_0000,
                -0x8000_0000_0000_0000 <= factor <= 0x8000_0000_0000_0000,
        ;
    }
    let product: i128 = n as i128 * factor as i128;
    let v: i128 = if product >= 0 {
        (product + 500_000) / 1_000_000
    } else {
        -((-product + 500_000) / 1_000_000)
    };
    if v > 0x7fff_ffff_ffff_ffff {
        i64::MAX
    } else if v < -0x8000_0000_0000_0000 {
        i64::MIN
    } else {
        v as i64
    }
}

/// At true size nothing changes.
pub proof fn lemma_true_size(n: i64)
    ensures
        scaled(n as int, 1_000_000) == n,
{
}

/// A larger length stays the larger one, or as large, for a factor above zero.
pub proof fn lemma_scaled_in_order(a: i64, b: i64, factor: i64)
    requires
        a <= b,
        0 <= factor,
    ensures
        scaled(a as int, factor as int) <= scaled(b as int, factor as int),
{
    assert(a * factor <= b * factor) by (nonlinear_arith)
        requires
            a <= b,
            0 <= factor,
    ;
}

pub open spec fn scaled_point(p: Point2, f: int) -> Point2 {
    Point2 { x: scaled(p.x as int, f) as i64, y: scaled(p.y as int, f) as i64 }
}

fn scale_point(p: Point2, f: i64) -> (q: Point2)
    ensures
        q == scaled_point(p, f as int),
{
    Point2 { x: scale_length(p.x, f), y: scale_length(p.y, f) }
}

pub open spec fn scaled_trace(t: Trace, f: int) -> Trace {
    Trace {
        layer: t.layer,
        start: scaled_point(t.start, f),
        end: scaled_point(t.end, f),
        width: scaled(t.width as int, f) as i64,
    }
}

pub open spec fn scaled_arc(t: ArcTrace, f: int) -> ArcTrace {
    ArcTrace {
        layer: t.layer,
        start: scaled_point(t.start, f),
        mid: scaled_point(t.mid, f),
        end: scaled_point(t.end, f),
        width: scaled(t.width as int, f) as i64,
    }
}

pub open spec fn scaled_via(v: ViaModel, f: int) -> ViaModel {
    ViaModel { center: scaled_point(v.center, f), drill: scaled(v.drill, f), net_name: v.net_name }
}

/// A pad at another size; it is turned as before.
pub open spec fn scaled_pad(p: PadModel, f: int) -> PadModel {
    PadModel {
        center: scaled_point(p.center, f),
        width: scaled(p.width, f),
        height: scaled(p.height, f),
        drill: scaled(p.drill, f),
        drill_h: scaled(p.drill_h, f),
        ..p
    }
}

pub open spec fn scaled_pads(list: Seq<PadModel>, f: int) -> Seq<PadModel> {
    list.map_values(|p: PadModel| scaled_pad(p, f))
}

pub open spec fn scaled_footprint(p: FootprintModel, f: int) -> FootprintModel {
    FootprintModel { position: scaled_point(p.position, f), pads: scaled_pads(p.pads, f), ..p }
}

pub open spec fn scaled_cutout(c: CutoutShape, f: int) -> CutoutShape {
    match c {
        CutoutShape::Rect { center, half_width, half_height, rotation } => CutoutShape::Rect {
            center: scaled_point(center, f),
            half_width: scaled(half_width as int, f) as i64,
            half_height: scaled(half_height as int, f) as i64,
            rotation,
        },
        CutoutShape::Circle { center, radius } => CutoutShape::Circle {
            center: scaled_point(center, f),
            radius: scaled(radius as int, f) as i64,
        },
    }
}

fn scale_traces(list: &Vec<Trace>, f: i64) -> (out: Vec<Trace>)
    ensures
        out@ == list@.map_values(|t: Trace| scaled_trace(t, f as int)),
{
    let mut out: Vec<Trace> = Vec::new();
    let mut i: usize = 0;
    while i < list.len()
        invariant
            i <= list@.len(),
            out@ == list@.take(i as int).map_values(|t: Trace| scaled_trace(t, f as int)),
        decreases list@.len() - i,
    {
        let t = list[i];
        out.push(
            Trace {
                layer: t.layer,
                start: scale_point(t.start, f),
                end: scale_point(t.end, f),
                width: scale_length(t.width, f),
            },
        );
        i += 1;
        proof {
            assert(out@ =~= list@.take(i as int).map_values(|t: Trace| scaled_trace(t, f as int)));
        }
    }
    proof {
        assert(list@.take(list@.len() as int) =~= list@);
    }
    out
}

fn scale_arcs(list: &Vec<ArcTrace>, f: i64) -> (out: Vec<ArcTrace>)
    ensures
        out@ == list@.map_values(|t: ArcTrace| scaled_arc(t, f as int)),
{
    let mut out: Vec<ArcTrace> = Vec::new();
    let mut i: usize = 0;
    while i < list.len()
        invariant
            i <= list@.len(),
            out@ == list@.take(i as int).map_values(|t: ArcTrace| scaled_arc(t, f as int)),
        decreases list@.len() - i,
    {
        let t = list[i];
        out.push(
            ArcTrace {
                layer: t.layer,
                start: scale_point(t.start, f),
                mid: scale_point(t.mid, f),
                end: scale_point(t.end, f),
                width: scale_length(t.width, f),
            },
        );
        i += 1;
        proof {
            assert(out@ =~= list@.take(i as int).map_values(|t: ArcTrace| scaled_arc(t, f as int)));
        }
    }
    proof {
        assert(list@.take(list@.len() as int) =~= list@);
    }
    out
}

fn copy_name(name: &Option<String>) -> (out: Option<String>)
    ensures
        name_view(out) == name_view(*name),
{
    match name {
        Some(t) => Some(t.clone()),
        None => None,
    }
}

fn scale_vias(list: &Vec<Via>, f: i64) -> (out: Vec<Via>)
    ensures
        via_models(out@) == via_models(list@).map_values(|v: ViaModel| scaled_via(v, f as int)),
{
    let mut out: Vec<Via> = Vec::new();
    let mut i: usize = 0;
    proof {
        assert(via_models(out@) =~= via_models(list@.take(0)).map_values(
            |v: ViaModel| scaled_via(v, f as int),
        ));
    }
    while i < list.len()
        invariant
            i <= list@.len(),
            via_models(out@) == via_models(list@.take(i as int)).map_values(
                |v: ViaModel| scaled_via(v, f as int),
            ),
        decreases list@.len() - i,
    {
        let ghost done = out@;
        let v = Via {
            center: scale_point(list[i].center, f),
            drill: scale_length(list[i].drill, f),
            net_name: copy_name(&list[i].net_name),
        };
        out.push(v);
        proof {
            assert(via_model(v) =~= scaled_via(via_model(list@[i as int]), f as int));
            assert(via_models(out@) =~= via_models(done).push(via_model(v)));
            assert(via_models(out@) =~= via_models(list@.take(i + 1)).map_values(
                |v: ViaModel| scaled_via(v, f as int),
            ));
        }
        i += 1;
    }
    proof {
        assert(list@.take(list@.len() as int) =~= list@);
    }
    out
}

fn scale_pads(list: &Vec<Pad>, f: i64) -> (out: Vec<Pad>)
    ensures
        pad_models(out@) == scaled_pads(pad_models(list@), f as int),
{
    let mut out: Vec<Pad> = Vec::new();
    let mut i: usize = 0;
    proof {
        assert(pad_models(out@) =~= scaled_pads(pad_models(list@.take(0)), f as int));
    }
    while i < list.len()
        invariant
            i <= list@.len(),
            pad_models(out@) == scaled_pads(pad_models(list@.take(i as int)), f as int),
        decreases list@.len() - i,
    {
        let ghost done = out@;
        let p = &list[i];
        let q = Pad {
            number: p.number.clone(),
            shape: p.shape,
            center: scale_point(p.center, f),
            width: scale_length(p.width, f),
            height: scale_length(p.height, f),
            rotation: p.rotation,
            drill: scale_length(p.drill, f),
            drill_h: scale_length(p.drill_h, f),
            on_fcu: p.on_fcu,
            on_bcu: p.on_bcu,
            net_name: copy_name(&p.net_name),
        };
        out.push(q);
        proof {
            assert(pad_model(q) =~= scaled_pad(pad_model(list@[i as int]), f as int));
            assert(pad_models(out@) =~= pad_models(done).push(pad_model(q)));
            assert(pad_models(out@) =~= scaled_pads(pad_models(list@.take(i + 1)), f as int));
        }
        i += 1;
    }
    proof {
        assert(list@.take(list@.len() as int) =~= list@);
    }
    out
}

fn scale_footprints(list: &Vec<Footprint>, f: i64) -> (out: Vec<Footprint>)
    ensures
        footprint_models(out@) == footprint_models(list@).map_values(
            |p: FootprintModel| scaled_footprint(p, f as int),
        ),
{
    let mut out: Vec<Footprint> = Vec::new();
    let mut i: usize = 0;
    proof {
        assert(footprint_models(out@) =~= footprint_models(list@.take(0)).map_values(
            |p: FootprintModel| scaled_footprint(p, f as int),
        ));
    }
    while i < list.len()
        invariant
            i <= list@.len(),
            footprint_models(out@) == footprint_models(list@.take(i as int)).map_values(
                |p: FootprintModel| scaled_footprint(p, f as int),
            ),
        decreases list@.len() - i,
    {
        let ghost done = out@;
        let p = &list[i];
        let q = Footprint {
            reference: p.reference.clone(),
            value: p.value.clone(),
            position: scale_point(p.position, f),
            pads: scale_pads(&p.pads, f),
        };
        out.push(q);
        proof {
            assert(footprint_model(q) =~= scaled_footprint(
                footprint_model(list@[i as int]),
                f as int,
            ));
            assert(footprint_models(out@) =~= footprint_models(done).push(footprint_model(q)));
            assert(footprint_models(out@) =~= footprint_models(list@.take(i + 1)).map_values(
                |p: FootprintModel| scaled_footprint(p, f as int),
            ));
        }
        i += 1;
    }
    proof {
        assert(list@.take(list@.len() as int) =~= list@);
    }
    out
}

fn scale_ring(list: &Vec<Point2>, f: i64) -> (out: Vec<Point2>)
    ensures
        out@ == list@.map_values(|p: Point2| scaled_point(p, f as int)),
{
    let mut out: Vec<Point2> = Vec::new();
    let mut i: usize = 0;
    while i < list.len()
        invariant
            i <= list@.len(),
            out@ == list@.take(i as int).map_values(|p: Point2| scaled_point(p, f as int)),
        decreases list@.len() - i,
    {
        out.push(scale_point(list[i], f));
        i += 1;
        proof {
            assert(out@ =~= list@.take(i as int).map_values(|p: Point2| scaled_point(p, f as int)));
        }
    }
    proof {
        assert(list@.take(list@.len() as int) =~= list@);
    }
    out
}

fn scale_cutouts(list: &Vec<CutoutShape>, f: i64) -> (out: Vec<CutoutShape>)
    ensures
        out@ == list@.map_values(|c: CutoutShape| scaled_cutout(c, f as int)),
{
    let mut out: Vec<CutoutShape> = Vec::new();
    let mut i: usize = 0;
    while i < list.len()
        invariant
            i <= list@.len(),
            out@ == list@.take(i as int).map_values(|c: CutoutShape| scaled_cutout(c, f as int)),
        decreases list@.len() - i,
    {
        let shape = match list[i] {
            CutoutShape::Rect { center, half_width, half_height, rotation } => CutoutShape::Rect {
                center: scale_point(center, f),
                half_width: scale_length(half_width, f),
                half_height: scale_length(half_height, f),
                rotation,
            },
            CutoutShape::Circle { center, radius } => CutoutShape::Circle {
                center: scale_point(center, f),
                radius: scale_length(radius, f),
            },
        };
        out.push(shape);
        i += 1;
        proof {
            assert(out@ =~= list@.take(i as int).map_values(
                |c: CutoutShape| scaled_cutout(c, f as int),
            ));
        }
    }
    proof {
        assert(list@.take(list@.len() as int) =~= list@);
    }
    out
}

/// Gives a board at another size, by a factor in millionths: every length is scaled,
/// and nothing is turned or renamed.
pub fn scale_board(pcb: &PcbData, f: i64) -> (out: PcbData)
    ensures
        (match out.outline {
            Some(ring) => Some(ring@),
            None => None,
        }) == (match pcb.outline {
            Some(ring) => Some(ring@.map_values(|p: Point2| scaled_point(p, f as int))),
            None => None,
        }),
        out.traces_fcu@ == pcb.traces_fcu@.map_values(|t: Trace| scaled_trace(t, f as int)),
        out.traces_bcu@ == pcb.traces_bcu@.map_values(|t: Trace| scaled_trace(t, f as int)),
        out.arc_traces@ == pcb.arc_traces@.map_values(|t: ArcTrace| scaled_arc(t, f as int)),
        via_models(out.vias@) == via_models(pcb.vias@).map_values(
            |v: ViaModel| scaled_via(v, f as int),
        ),
        pad_models(out.pads@) == scaled_pads(pad_models(pcb.pads@), f as int),
        footprint_models(out.footprints@) == footprint_models(pcb.footprints@).map_values(
            |p: FootprintModel| scaled_footprint(p, f as int),
        ),
        out.cutouts@ == pcb.cutouts@.map_values(|c: CutoutShape| scaled_cutout(c, f as int)),
{
    let outline = match &pcb.outline {
        Some(ring) => Some(scale_ring(ring, f)),
        None => None,
    };
    PcbData {
        outline,
        traces_fcu: scale_traces(&pcb.traces_fcu, f),
        traces_bcu: scale_traces(&pcb.traces_bcu, f),
        arc_traces: scale_arcs(&pcb.arc_traces, f),
        vias: scale_vias(&pcb.vias, f),
        pads: scale_pads(&pcb.pads, f),
        footprints: scale_footprints(&pcb.footprints, f),
        cutouts: scale_cutouts(&pcb.cutouts, f),
    }
}

} // verus!
