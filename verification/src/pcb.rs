//! A board as the model is made from it. Lengths are in nanometres, angles in
//! millionths of a degree.

use vstd::prelude::*;

verus! {

/// A place on the board.
#[derive(Clone, Copy, Debug, PartialEq, Eq, Structural)]
pub struct Point2 {
    pub x: i64,
    pub y: i64,
}

/// An outer copper layer.
#[derive(Clone, Copy, Debug, PartialEq, Eq, Structural)]
pub enum CopperLayer {
    FCu,
    BCu,
}

/// A straight trace.
#[derive(Clone, Copy, Debug, PartialEq, Eq, Structural)]
pub struct Trace {
    pub layer: CopperLayer,
    pub start: Point2,
    pub end: Point2,
    pub width: i64,
}

/// A trace along an arc through three points.
#[derive(Clone, Copy, Debug, PartialEq, Eq, Structural)]
pub struct ArcTrace {
    pub layer: CopperLayer,
    pub start: Point2,
    pub mid: Point2,
    pub end: Point2,
    pub width: i64,
}

/// A via.
#[derive(Debug)]
pub struct Via {
    pub center: Point2,
    pub drill: i64,
    pub net_name: Option<String>,
}

/// The shape of a pad.
#[derive(Clone, Copy, Debug, PartialEq, Eq, Structural)]
pub enum PadShape {
    Rect,
    RoundRect,
    Circle,
    Oval,
}

/// A pad. Without a drill it lies on the surface.
#[derive(Debug)]
pub struct Pad {
    pub number: String,
    pub shape: PadShape,
    pub center: Point2,
    pub width: i64,
    pub height: i64,
    pub rotation: i64,
    pub drill: i64,
    pub drill_h: i64,
    pub on_fcu: bool,
    pub on_bcu: bool,
    pub net_name: Option<String>,
}

/// A part on the board.
#[derive(Debug)]
pub struct Footprint {
    pub reference: String,
    pub value: String,
    pub position: Point2,
    pub pads: Vec<Pad>,
}

/// An opening in the board.
#[derive(Clone, Copy, Debug, PartialEq, Eq, Structural)]
pub enum CutoutShape {
    /// A rectangle about its middle, with half its sides, turned.
    Rect { center: Point2, half_width: i64, half_height: i64, rotation: i64 },
    /// A circle.
    Circle { center: Point2, radius: i64 },
}

/// Everything that the model is made from.
#[derive(Debug)]
pub struct PcbData {
    pub outline: Option<Vec<Point2>>,
    pub traces_fcu: Vec<Trace>,
    pub traces_bcu: Vec<Trace>,
    pub arc_traces: Vec<ArcTrace>,
    pub vias: Vec<Via>,
    pub pads: Vec<Pad>,
    pub footprints: Vec<Footprint>,
    pub cutouts: Vec<CutoutShape>,
}

impl Default for PcbData {
    fn default() -> (pcb: Self)
        ensures
            pcb.outline is None,
            pcb.traces_fcu@.len() == 0,
            pcb.traces_bcu@.len() == 0,
            pcb.arc_traces@.len() == 0,
            pcb.vias@.len() == 0,
            pcb.pads@.len() == 0,
            pcb.footprints@.len() == 0,
            pcb.cutouts@.len() == 0,
    {
        PcbData {
            outline: None,
            traces_fcu: Vec::new(),
            traces_bcu: Vec::new(),
            arc_traces: Vec::new(),
            vias: Vec::new(),
            pads: Vec::new(),
            footprints: Vec::new(),
            cutouts: Vec::new(),
        }
    }
}

/// A rectangle along the axes.
#[derive(Clone, Copy, Debug, PartialEq, Eq, Structural)]
pub struct BoundingBox {
    pub min_x: i64,
    pub min_y: i64,
    pub max_x: i64,
    pub max_y: i64,
}

pub open spec fn lower(a: i64, b: i64) -> i64 {
    if b < a {
        b
    } else {
        a
    }
}

pub open spec fn upper(a: i64, b: i64) -> i64 {
    if b > a {
        b
    } else {
        a
    }
}

/// The smallest rectangle that holds a rectangle, if there is one, and a point.
pub open spec fn grown(b: Option<BoundingBox>, p: Point2) -> BoundingBox {
    match b {
        None => BoundingBox { min_x: p.x, min_y: p.y, max_x: p.x, max_y: p.y },
        Some(b) => BoundingBox {
            min_x: lower(b.min_x, p.x),
            min_y: lower(b.min_y, p.y),
            max_x: upper(b.max_x, p.x),
            max_y: upper(b.max_y, p.y),
        },
    }
}

/// The smallest rectangle that holds points, and the rectangle before them.
pub open spec fn box_over(b: Option<BoundingBox>, points: Seq<Point2>) -> Option<BoundingBox>
    decreases points.len(),
{
    if points.len() == 0 {
        b
    } else {
        Some(grown(box_over(b, points.drop_last()), points.last()))
    }
}

/// The rectangle round points holds each of them.
pub proof fn lemma_box_holds(b: Option<BoundingBox>, points: Seq<Point2>, i: int)
    requires
        0 <= i < points.len(),
    ensures
        box_over(b, points) is Some,
        ({
            let r = box_over(b, points)->0;
            r.min_x <= points[i].x <= r.max_x && r.min_y <= points[i].y <= r.max_y
        }),
    decreases points.len(),
{
    if i < points.len() - 1 {
        assert(points.drop_last()[i] == points[i]);
        lemma_box_holds(b, points.drop_last(), i);
    }
}

fn smaller(a: i64, b: i64) -> (m: i64)
    ensures
        m == lower(a, b),
{
    if b < a {
        b
    } else {
        a
    }
}

fn larger(a: i64, b: i64) -> (m: i64)
    ensures
        m == upper(a, b),
{
    if b > a {
        b
    } else {
        a
    }
}

/// Widens a rectangle so that it holds a point.
pub fn expand_to_hold(b: &mut Option<BoundingBox>, p: Point2)
    ensures
        *final(b) == Some(grown(*old(b), p)),
{
    *b = match *b {
        None => Some(BoundingBox { min_x: p.x, min_y: p.y, max_x: p.x, max_y: p.y }),
        Some(b) => Some(
            BoundingBox {
                min_x: smaller(b.min_x, p.x),
                min_y: smaller(b.min_y, p.y),
                max_x: larger(b.max_x, p.x),
                max_y: larger(b.max_y, p.y),
            },
        ),
    };
}

/// The smallest rectangle that holds points; none without points.
pub fn bounds_of(points: &Vec<Point2>) -> (b: Option<BoundingBox>)
    ensures
        b == box_over(None, points@),
{
    let mut b: Option<BoundingBox> = None;
    let mut i: usize = 0;
    proof {
        assert(points@.take(0).len() == 0);
    }
    while i < points.len()
        invariant
            i <= points@.len(),
            b == box_over(None, points@.take(i as int)),
        decreases points@.len() - i,
    {
        proof {
            assert(points@.take(i + 1).drop_last() =~= points@.take(i as int));
        }
        expand_to_hold(&mut b, points[i]);
        i += 1;
    }
    proof {
        assert(points@.take(points@.len() as int) =~= points@);
    }
    b
}

/// One side of the board, if only one is wanted.
#[derive(Clone, Copy, Debug, PartialEq, Eq, Structural)]
pub enum Side {
    Top,
    Bottom,
}

/// Leaves the straight traces of one side only.
pub fn keep_side(pcb: PcbData, side: Side) -> (out: PcbData)
    ensures
        out.traces_fcu@ == (if side == Side::Top {
            pcb.traces_fcu@
        } else {
            Seq::empty()
        }),
        out.traces_bcu@ == (if side == Side::Bottom {
            pcb.traces_bcu@
        } else {
            Seq::empty()
        }),
        out.outline == pcb.outline,
        out.arc_traces == pcb.arc_traces,
        out.vias == pcb.vias,
        out.pads == pcb.pads,
        out.footprints == pcb.footprints,
        out.cutouts == pcb.cutouts,
{
    let (traces_fcu, traces_bcu) = match side {
        Side::Top => (pcb.traces_fcu, Vec::new()),
        Side::Bottom => (Vec::new(), pcb.traces_bcu),
    };
    PcbData {
        outline: pcb.outline,
        traces_fcu,
        traces_bcu,
        arc_traces: pcb.arc_traces,
        vias: pcb.vias,
        pads: pcb.pads,
        footprints: pcb.footprints,
        cutouts: pcb.cutouts,
    }
}

/// What is made from the outline of a board.
#[derive(Clone, Copy, Debug, PartialEq, Eq, Structural)]
pub enum Product {
    Model,
    Stencil,
    ClampRing,
}

/// Why something cannot be made of a board without an outline.
pub open spec fn no_outline(product: Product) -> Seq<char> {
    match product {
        Product::Model => "No board outline found — cannot generate 3D model"@,
        Product::Stencil => "No board outline found — cannot generate stencil"@,
        Product::ClampRing => "No board outline found — cannot generate clamp ring"@,
    }
}

/// The outline that something is made from; why not if the board has none.
pub fn outline_of(pcb: &PcbData, product: Product) -> (out: Result<&Vec<Point2>, String>)
    ensures
        out is Err == pcb.outline is None,
        out matches Ok(outline) ==> pcb.outline == Some(*outline),
        out matches Err(reason) ==> reason@ == no_outline(product),
{
    match &pcb.outline {
        Some(outline) => Ok(outline),
        None => Err(
            match product {
                Product::Model => "No board outline found — cannot generate 3D model".to_string(),
                Product::Stencil => "No board outline found — cannot generate stencil".to_string(),
                Product::ClampRing =>
                    "No board outline found — cannot generate clamp ring".to_string(),
            },
        ),
    }
}

} // verus!
