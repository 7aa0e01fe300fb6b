//! The drawing of a board that goes with each step of the guide.

use crate::choices::{lowercase, lowered};
use crate::config::{step_model, step_models, AssemblyStep, StepModel};
use crate::pcb::{
    box_over, expand_to_hold, Footprint, Pad, PcbData, Point2, Trace, Via, BoundingBox,
};
use crate::pads::has_text;
use crate::strings::{decimal, digit, replace, replaced, strings};
use crate::text::{contains, extend_str, has_str, same_str, to_chars, to_text};
use crate::units::{extend_decimal, extend_sign, magnitude, sign, size_of};
use vstd::prelude::*;

verus! {

/// A text as it stands in a page, with what would be taken for markup spelt out.
pub open spec fn escaped(text: Seq<char>) -> Seq<char> {
    replaced(
        replaced(replaced(replaced(text, "&"@, "&amp;"@), "<"@, "&lt;"@), ">"@, "&gt;"@),
        "\""@,
        "&quot;"@,
    )
}

/// A text as it stands in a page.
pub fn html_escape(text: &str) -> (out: String)
    ensures
        out@ == escaped(text@),
{
    let start = to_chars(text);
    let one = replace(start.as_slice(), to_chars("&").as_slice(), to_chars("&amp;").as_slice());
    let two = replace(one.as_slice(), to_chars("<").as_slice(), to_chars("&lt;").as_slice());
    let three = replace(two.as_slice(), to_chars(">").as_slice(), to_chars("&gt;").as_slice());
    let four = replace(three.as_slice(), to_chars("\"").as_slice(), to_chars("&quot;").as_slice());
    to_text(four.as_slice())
}

/// A fraction to one place, a half rounded away from zero.
pub open spec fn tenths_of(num: int, den: int) -> Seq<char> {
    let units = ((20 * magnitude(num) + den) / (2 * den)) as nat;
    sign(num) + decimal(units / 10) + seq!['.', digit(units % 10)]
}

/// The largest number that is drawn with.
pub const HUGE: i128 = 0x100_0000_0000_0000_0000_0000;

fn extend_tenths(out: &mut Vec<char>, num: i128, den: i128)
    requires
        -HUGE <= num <= HUGE,
        0 < den <= HUGE,
    ensures
        final(out)@ == old(out)@ + tenths_of(num as int, den as int),
{
    let units: u128 = (20 * size_of(num) + den as u128) / (2 * den as u128);
    extend_sign(out, num);
    extend_decimal(out, units / 10);
    out.push('.');
    let d: u8 = 48 + (units % 10) as u8;
    out.push(d as char);
    proof {
        assert(out@ =~= old(out)@ + tenths_of(num as int, den as int));
    }
}

/// How the board is laid on the drawing: from where, and by how many hundredths of a
/// pixel to so many nanometres.
#[derive(Clone, Copy, Debug, PartialEq, Eq, Structural)]
pub struct Frame {
    pub min_x: i64,
    pub max_y: i64,
    pub pixels: i128,
    pub per: i128,
}

/// How a board is laid on a drawing of 700 by 500 pixels with a margin of 20: as large
/// as it fits.
pub open spec fn view_of(b: BoundingBox) -> Frame {
    let w = if b.max_x - b.min_x < 1000 {
        1000
    } else {
        b.max_x - b.min_x
    };
    let h = if b.max_y - b.min_y < 1000 {
        1000
    } else {
        b.max_y - b.min_y
    };
    if 660 * h <= 460 * w {
        Frame { min_x: b.min_x, max_y: b.max_y, pixels: 660, per: w as i128 }
    } else {
        Frame { min_x: b.min_x, max_y: b.max_y, pixels: 460, per: h as i128 }
    }
}

/// Where a place is across the drawing.
pub open spec fn across_view(v: Frame, x: int) -> Seq<char> {
    tenths_of(20 * v.per + (x - v.min_x) * v.pixels, v.per as int)
}

/// Where a place is down the drawing.
pub open spec fn down_view(v: Frame, y: int) -> Seq<char> {
    tenths_of(20 * v.per + (v.max_y - y) * v.pixels, v.per as int)
}

/// The radius of a drill on the drawing, three pixels at least.
pub open spec fn radius_in_view(v: Frame, drill: int) -> Seq<char> {
    if drill * v.pixels <= 6 * v.per {
        "3.0"@
    } else {
        tenths_of(drill * v.pixels, 2 * v.per)
    }
}

/// Whether a view is one of a board.
pub open spec fn fits_view(v: Frame) -> bool {
    (v.pixels == 660 || v.pixels == 460) && 1000 <= v.per <= 0x1_0000_0000_0000_0000
}

fn look_at(b: &BoundingBox) -> (v: Frame)
    requires
        b.min_x <= b.max_x,
        b.min_y <= b.max_y,
    ensures
        v == view_of(*b),
        fits_view(v),
{
    let w: i128 = b.max_x as i128 - b.min_x as i128;
    let h: i128 = b.max_y as i128 - b.min_y as i128;
    let w: i128 = if w < 1000 {
        1000
    } else {
        w
    };
    let h: i128 = if h < 1000 {
        1000
    } else {
        h
    };
    if 660 * h <= 460 * w {
        Frame { min_x: b.min_x, max_y: b.max_y, pixels: 660, per: w }
    } else {
        Frame { min_x: b.min_x, max_y: b.max_y, pixels: 460, per: h }
    }
}

impl Frame {
    fn x(&self, out: &mut Vec<char>, x: i64)
        requires
            fits_view(*self),
        ensures
            final(out)@ == old(out)@ + across_view(*self, x as int),
    {
        let d: i128 = x as i128 - self.min_x as i128;
        proof {
            lemma_pixels(d as int, self.pixels as int);
        }
        extend_tenths(out, 20 * self.per + d * self.pixels, self.per);
    }

    fn y(&self, out: &mut Vec<char>, y: i64)
        requires
            fits_view(*self),
        ensures
            final(out)@ == old(out)@ + down_view(*self, y as int),
    {
        let d: i128 = self.max_y as i128 - y as i128;
        proof {
            lemma_pixels(d as int, self.pixels as int);
        }
        extend_tenths(out, 20 * self.per + d * self.pixels, self.per);
    }

    fn radius(&self, out: &mut Vec<char>, drill: i64)
        requires
            fits_view(*self),
        ensures
            final(out)@ == old(out)@ + radius_in_view(*self, drill as int),
    {
        proof {
            lemma_pixels(drill as int, self.pixels as int);
        }
        let r: i128 = drill as i128 * self.pixels;
        if r <= 6 * self.per {
            extend_str(out, "3.0");
        } else {
            extend_tenths(out, r, 2 * self.per);
        }
    }
}

proof fn lemma_pixels(d: int, pixels: int)
    requires
        -0x1_0000_0000_0000_0000 <= d <= 0x1_0000_0000_0000_0000,
        0 <= pixels <= 660,
    ensures
        -0x400_0000_0000_0000_0000 <= d * pixels <= 0x400_0000_0000_0000_0000,
{
    assert(-0x400_0000_0000_0000_0000 <= d * pixels <= 0x400_0000_0000_0000_0000)
        by (nonlinear_arith)
        requires
            -0x1_0000_0000_0000_0000 <= d <= 0x1_0000_0000_0000_0000,
            0 <= pixels <= 660,
    ;
}

/// The places of straight traces, both ends of each.
pub open spec fn trace_places(traces: Seq<Trace>) -> Seq<Point2>
    decreases traces.len(),
{
    if traces.len() == 0 {
        Seq::empty()
    } else {
        trace_places(traces.drop_last()).push(traces.last().start).push(traces.last().end)
    }
}

/// What a board takes up: its outline, else everything on it, else nothing.
pub open spec fn board_box(pcb: PcbData) -> BoundingBox {
    let found = match pcb.outline {
        Some(o) => box_over(None, o@),
        None => box_over(
            box_over(
                box_over(
                    box_over(None, trace_places(pcb.traces_fcu@)),
                    trace_places(pcb.traces_bcu@),
                ),
                pcb.vias@.map_values(|v: Via| v.center),
            ),
            pcb.pads@.map_values(|p: Pad| p.center),
        ),
    };
    match found {
        Some(b) => b,
        None => BoundingBox { min_x: 0, min_y: 0, max_x: 0, max_y: 0 },
    }
}

pub open spec fn in_order(b: Option<BoundingBox>) -> bool {
    b matches Some(r) ==> r.min_x <= r.max_x && r.min_y <= r.max_y
}

pub(crate) fn widen_over(b: &mut Option<BoundingBox>, points: &Vec<Point2>)
    requires
        in_order(*old(b)),
    ensures
        *final(b) == box_over(*old(b), points@),
        in_order(*final(b)),
{
    let mut i: usize = 0;
    proof {
        assert(points@.take(0).len() == 0);
    }
    while i < points.len()
        invariant
            i <= points@.len(),
            *b == box_over(*old(b), points@.take(i as int)),
            in_order(*b),
        decreases points@.len() - i,
    {
        proof {
            assert(points@.take(i + 1).drop_last() =~= points@.take(i as int));
        }
        expand_to_hold(b, points[i]);
        i += 1;
    }
    proof {
        assert(points@.take(points@.len() as int) =~= points@);
    }
}

fn read_trace_places(traces: &Vec<Trace>) -> (out: Vec<Point2>)
    ensures
        out@ == trace_places(traces@),
{
    let mut out: Vec<Point2> = Vec::new();
    let mut i: usize = 0;
    proof {
        assert(traces@.take(0).len() == 0);
    }
    while i < traces.len()
        invariant
            i <= traces@.len(),
            out@ == trace_places(traces@.take(i as int)),
        decreases traces@.len() - i,
    {
        proof {
            assert(traces@.take(i + 1).drop_last() =~= traces@.take(i as int));
        }
        out.push(traces[i].start);
        out.push(traces[i].end);
        i += 1;
    }
    proof {
        assert(traces@.take(traces@.len() as int) =~= traces@);
    }
    out
}

/// What a board takes up.
pub fn find_board_box(pcb: &PcbData) -> (b: BoundingBox)
    ensures
        b == board_box(*pcb),
        b.min_x <= b.max_x,
        b.min_y <= b.max_y,
{
    let mut b: Option<BoundingBox> = None;
    match &pcb.outline {
        Some(o) => widen_over(&mut b, o),
        None => {
            let front = read_trace_places(&pcb.traces_fcu);
            widen_over(&mut b, &front);
            let back = read_trace_places(&pcb.traces_bcu);
            widen_over(&mut b, &back);
            let mut places: Vec<Point2> = Vec::new();
            while places.len() < pcb.vias.len()
                invariant
                    places@.len() <= pcb.vias@.len(),
                    forall|i: int|
                        0 <= i < places@.len() ==> #[trigger] places@[i] == pcb.vias@[i].center,
                decreases pcb.vias@.len() - places@.len(),
            {
                let i: usize = places.len();
                places.push(pcb.vias[i].center);
            }
            proof {
                assert(places@ =~= pcb.vias@.map_values(|v: Via| v.center));
            }
            widen_over(&mut b, &places);
            let mut places: Vec<Point2> = Vec::new();
            while places.len() < pcb.pads.len()
                invariant
                    places@.len() <= pcb.pads@.len(),
                    forall|i: int|
                        0 <= i < places@.len() ==> #[trigger] places@[i] == pcb.pads@[i].center,
                decreases pcb.pads@.len() - places@.len(),
            {
                let i: usize = places.len();
                places.push(pcb.pads[i].center);
            }
            proof {
                assert(places@ =~= pcb.pads@.map_values(|p: Pad| p.center));
            }
            widen_over(&mut b, &places);
        },
    }
    match b {
        Some(r) => r,
        None => BoundingBox { min_x: 0, min_y: 0, max_x: 0, max_y: 0 },
    }
}

/// The corners of an outline, with spaces between.
pub open spec fn corner_list(v: Frame, corners: Seq<Point2>) -> Seq<char>
    decreases corners.len(),
{
    if corners.len() == 0 {
        Seq::empty()
    } else {
        let c = corners.last();
        let shown = across_view(v, c.x as int) + ","@ + down_view(v, c.y as int);
        if corners.len() == 1 {
            shown
        } else {
            corner_list(v, corners.drop_last()) + " "@ + shown
        }
    }
}

fn extend_corners(out: &mut Vec<char>, v: &Frame, corners: &Vec<Point2>)
    requires
        fits_view(*v),
    ensures
        final(out)@ == old(out)@ + corner_list(*v, corners@),
{
    let mut i: usize = 0;
    proof {
        assert(corners@.take(0).len() == 0);
        assert(out@ =~= old(out)@ + corner_list(*v, corners@.take(0)));
    }
    while i < corners.len()
        invariant
            i <= corners@.len(),
            fits_view(*v),
            out@ == old(out)@ + corner_list(*v, corners@.take(i as int)),
        decreases corners@.len() - i,
    {
        proof {
            assert(corners@.take(i + 1).drop_last() =~= corners@.take(i as int));
        }
        if i > 0 {
            extend_str(out, " ");
        }
        v.x(out, corners[i].x);
        extend_str(out, ",");
        v.y(out, corners[i].y);
        proof {
            assert(out@ =~= old(out)@ + corner_list(*v, corners@.take(i + 1)));
        }
        i += 1;
    }
    proof {
        assert(corners@.take(corners@.len() as int) =~= corners@);
    }
}

/// The board under everything else.
pub open spec fn ground(v: Frame, outline: Option<Vec<Point2>>) -> Seq<char> {
    match outline {
        Some(o) => "<polygon points=\""@ + corner_list(v, o@)
            + "\" fill=\"#111820\" stroke=\"#f0c040\" stroke-width=\"1.2\"/>"@,
        None => "<rect width=\"700\" height=\"500\" fill=\"#111820\"/>"@,
    }
}

/// Whether a part is placed in one of the steps before.
pub open spec fn was_placed(steps: Seq<StepModel>, upto: int, reference: Seq<char>) -> bool {
    exists|j: int|
        0 <= j < upto && 0 <= j < steps.len() && (#[trigger] steps[j]).components.contains(reference)
}

/// Whether the traces of a layer are dealt with in one of the steps before.
pub open spec fn was_laid(steps: Seq<StepModel>, upto: int, layer: Seq<char>) -> bool {
    exists|j: int|
        0 <= j < upto && 0 <= j < steps.len() && (#[trigger] steps[j]).wire_layer == Some(layer)
}

/// Whether a step is about vias: it shows nothing else and its name says so.
pub open spec fn is_via_step(s: StepModel) -> bool {
    s.wire_layer is None && s.components.len() == 0 && contains(lowercase(s.name), "via"@)
}

/// Whether vias are dealt with in one of the steps before.
pub open spec fn vias_were_set(steps: Seq<StepModel>, upto: int) -> bool {
    exists|j: int| 0 <= j < upto && 0 <= j < steps.len() && is_via_step(#[trigger] steps[j])
}

/// The colours of a part's pads and of its name, and how strong they are.
pub open spec fn part_look(now: bool, placed: bool) -> (Seq<char>, Seq<char>, Seq<char>) {
    if now {
        ("#00ff88"@, "#ffffff"@, "1.0"@)
    } else if placed {
        ("#336633"@, "#668866"@, "0.5"@)
    } else {
        ("#223322"@, "#334433"@, "0.35"@)
    }
}

fn look_of_part(now: bool, placed: bool) -> (look: (&'static str, &'static str, &'static str))
    ensures
        (look.0@, look.1@, look.2@) == part_look(now, placed),
{
    if now {
        ("#00ff88", "#ffffff", "1.0")
    } else if placed {
        ("#336633", "#668866", "0.5")
    } else {
        ("#223322", "#334433", "0.35")
    }
}

/// The pads of a part.
pub open spec fn pad_marks(v: Frame, pads: Seq<Pad>, colour: Seq<char>, strength: Seq<char>) -> Seq<
    char,
>
    decreases pads.len(),
{
    if pads.len() == 0 {
        Seq::empty()
    } else {
        let p = pads.last();
        pad_marks(v, pads.drop_last(), colour, strength) + "<circle cx=\""@ + across_view(
            v,
            p.center.x as int,
        ) + "\" cy=\""@ + down_view(v, p.center.y as int) + "\" r=\""@ + radius_in_view(
            v,
            p.drill as int,
        ) + "\" fill=\""@ + colour + "\" opacity=\""@ + strength + "\"/>"@
    }
}

fn extend_pads(out: &mut Vec<char>, v: &Frame, pads: &Vec<Pad>, colour: &str, strength: &str)
    requires
        fits_view(*v),
    ensures
        final(out)@ == old(out)@ + pad_marks(*v, pads@, colour@, strength@),
{
    let mut i: usize = 0;
    proof {
        assert(pads@.take(0).len() == 0);
        assert(out@ =~= old(out)@ + pad_marks(*v, pads@.take(0), colour@, strength@));
    }
    while i < pads.len()
        invariant
            i <= pads@.len(),
            fits_view(*v),
            out@ == old(out)@ + pad_marks(*v, pads@.take(i as int), colour@, strength@),
        decreases pads@.len() - i,
    {
        proof {
            assert(pads@.take(i + 1).drop_last() =~= pads@.take(i as int));
        }
        let p = &pads[i];
        extend_str(out, "<circle cx=\"");
        v.x(out, p.center.x);
        extend_str(out, "\" cy=\"");
        v.y(out, p.center.y);
        extend_str(out, "\" r=\"");
        v.radius(out, p.drill);
        extend_str(out, "\" fill=\"");
        extend_str(out, colour);
        extend_str(out, "\" opacity=\"");
        extend_str(out, strength);
        extend_str(out, "\"/>");
        proof {
            assert(out@ =~= old(out)@ + pad_marks(*v, pads@.take(i + 1), colour@, strength@));
        }
        i += 1;
    }
    proof {
        assert(pads@.take(pads@.len() as int) =~= pads@);
    }
}

/// A part: its pads and its name.
pub open spec fn part_mark(v: Frame, f: Footprint, steps: Seq<StepModel>, at: int) -> Seq<char> {
    let look = part_look(
        steps[at].components.contains(f.reference@),
        was_placed(steps, at, f.reference@),
    );
    pad_marks(v, f.pads@, look.0, look.2) + "<text x=\""@ + across_view(v, f.position.x as int)
        + "\" y=\""@ + down_view(v, f.position.y as int) + "\" fill=\""@ + look.1
        + "\" font-size=\"9\" font-family=\"monospace\" text-anchor=\"middle\" opacity=\""@ + look.2
        + "\">"@ + escaped(f.reference@) + "</text>"@
}

pub open spec fn part_marks(v: Frame, parts: Seq<Footprint>, steps: Seq<StepModel>, at: int) -> Seq<
    char,
>
    decreases parts.len(),
{
    if parts.len() == 0 {
        Seq::empty()
    } else {
        part_marks(v, parts.drop_last(), steps, at) + part_mark(v, parts.last(), steps, at)
    }
}

fn placed_before(steps: &Vec<AssemblyStep>, upto: usize, reference: &String) -> (yes: bool)
    requires
        upto <= steps@.len(),
    ensures
        yes == was_placed(step_models(steps@), upto as int, reference@),
{
    let ghost models = step_models(steps@);
    let mut j: usize = 0;
    while j < upto
        invariant
            j <= upto <= steps@.len(),
            models == step_models(steps@),
            forall|k: int| 0 <= k < j ==> !(#[trigger] models[k]).components.contains(reference@),
        decreases upto - j,
    {
        assert(models[j as int] == step_model(steps@[j as int]));
        if has_text(&steps[j].components, reference) {
            return true;
        }
        j += 1;
    }
    false
}

fn extend_part(
    out: &mut Vec<char>,
    v: &Frame,
    f: &Footprint,
    steps: &Vec<AssemblyStep>,
    at: usize,
)
    requires
        fits_view(*v),
        at < steps@.len(),
    ensures
        final(out)@ == old(out)@ + part_mark(*v, *f, step_models(steps@), at as int),
{
    let ghost models = step_models(steps@);
    assert(models[at as int] == step_model(steps@[at as int]));
    let now: bool = has_text(&steps[at].components, &f.reference);
    let placed: bool = placed_before(steps, at, &f.reference);
    let look = look_of_part(now, placed);
    extend_pads(out, v, &f.pads, look.0, look.2);
    extend_str(out, "<text x=\"");
    v.x(out, f.position.x);
    extend_str(out, "\" y=\"");
    v.y(out, f.position.y);
    extend_str(out, "\" fill=\"");
    extend_str(out, look.1);
    extend_str(
        out,
        "\" font-size=\"9\" font-family=\"monospace\" text-anchor=\"middle\" opacity=\"",
    );
    extend_str(out, look.2);
    extend_str(out, "\">");
    let name = html_escape(f.reference.as_str());
    extend_str(out, name.as_str());
    extend_str(out, "</text>");
    proof {
        assert(out@ =~= old(out)@ + part_mark(*v, *f, models, at as int));
    }
}

fn extend_parts(
    out: &mut Vec<char>,
    v: &Frame,
    parts: &Vec<Footprint>,
    steps: &Vec<AssemblyStep>,
    at: usize,
)
    requires
        fits_view(*v),
        at < steps@.len(),
    ensures
        final(out)@ == old(out)@ + part_marks(*v, parts@, step_models(steps@), at as int),
{
    let ghost models = step_models(steps@);
    let mut i: usize = 0;
    proof {
        assert(parts@.take(0).len() == 0);
        assert(out@ =~= old(out)@ + part_marks(*v, parts@.take(0), models, at as int));
    }
    while i < parts.len()
        invariant
            i <= parts@.len(),
            fits_view(*v),
            at < steps@.len(),
            models == step_models(steps@),
            out@ == old(out)@ + part_marks(*v, parts@.take(i as int), models, at as int),
        decreases parts@.len() - i,
    {
        proof {
            assert(parts@.take(i + 1).drop_last() =~= parts@.take(i as int));
            assert(models[at as int] == step_model(steps@[at as int]));
        }
        extend_part(out, v, &parts[i], steps, at);
        proof {
            assert(out@ =~= old(out)@ + part_marks(*v, parts@.take(i + 1), models, at as int));
        }
        i += 1;
    }
    proof {
        assert(parts@.take(parts@.len() as int) =~= parts@);
    }
}

/// The colour of traces, how wide they are drawn and how strong.
pub open spec fn trace_look(front: bool, now: bool, laid: bool) -> (
    Seq<char>,
    Seq<char>,
    Seq<char>,
) {
    if now {
        (if front {
            "#e94560"@
        } else {
            "#4488ff"@
        }, "2.5"@, "1.0"@)
    } else if laid {
        (if front {
            "#7a2233"@
        } else {
            "#1a3366"@
        }, "1.5"@, "0.5"@)
    } else {
        (if front {
            "#3a1118"@
        } else {
            "#0a1133"@
        }, "1.0"@, "0.3"@)
    }
}

fn look_of_trace(front: bool, now: bool, laid: bool) -> (look: (
    &'static str,
    &'static str,
    &'static str,
))
    ensures
        (look.0@, look.1@, look.2@) == trace_look(front, now, laid),
{
    if now {
        (if front {
            "#e94560"
        } else {
            "#4488ff"
        }, "2.5", "1.0")
    } else if laid {
        (if front {
            "#7a2233"
        } else {
            "#1a3366"
        }, "1.5", "0.5")
    } else {
        (if front {
            "#3a1118"
        } else {
            "#0a1133"
        }, "1.0", "0.3")
    }
}

/// A straight trace.
pub open spec fn trace_mark(v: Frame, t: Trace, look: (Seq<char>, Seq<char>, Seq<char>)) -> Seq<char> {
    "<line x1=\""@ + across_view(v, t.start.x as int) + "\" y1=\""@ + down_view(
        v,
        t.start.y as int,
    ) + "\" x2=\""@ + across_view(v, t.end.x as int) + "\" y2=\""@ + down_view(v, t.end.y as int)
        + "\" stroke=\""@ + look.0 + "\" stroke-width=\""@ + look.1 + "\" opacity=\""@ + look.2
        + "\" stroke-linecap=\"round\"/>"@
}

fn extend_trace(out: &mut Vec<char>, v: &Frame, t: &Trace, look: (&str, &str, &str))
    requires
        fits_view(*v),
    ensures
        final(out)@ == old(out)@ + trace_mark(*v, *t, (look.0@, look.1@, look.2@)),
{
    extend_str(out, "<line x1=\"");
    v.x(out, t.start.x);
    extend_str(out, "\" y1=\"");
    v.y(out, t.start.y);
    extend_str(out, "\" x2=\"");
    v.x(out, t.end.x);
    extend_str(out, "\" y2=\"");
    v.y(out, t.end.y);
    extend_str(out, "\" stroke=\"");
    extend_str(out, look.0);
    extend_str(out, "\" stroke-width=\"");
    extend_str(out, look.1);
    extend_str(out, "\" opacity=\"");
    extend_str(out, look.2);
    extend_str(out, "\" stroke-linecap=\"round\"/>");
    proof {
        assert(out@ =~= old(out)@ + trace_mark(*v, *t, (look.0@, look.1@, look.2@)));
    }
}

/// Straight traces.
pub open spec fn trace_marks(v: Frame, traces: Seq<Trace>, look: (Seq<char>, Seq<char>, Seq<char>)) -> Seq<
    char,
>
    decreases traces.len(),
{
    if traces.len() == 0 {
        Seq::empty()
    } else {
        trace_marks(v, traces.drop_last(), look) + trace_mark(v, traces.last(), look)
    }
}

fn extend_traces(out: &mut Vec<char>, v: &Frame, traces: &Vec<Trace>, look: (&str, &str, &str))
    requires
        fits_view(*v),
    ensures
        final(out)@ == old(out)@ + trace_marks(*v, traces@, (look.0@, look.1@, look.2@)),
{
    let ghost shown = (look.0@, look.1@, look.2@);
    let mut i: usize = 0;
    proof {
        assert(traces@.take(0).len() == 0);
        assert(out@ =~= old(out)@ + trace_marks(*v, traces@.take(0), shown));
    }
    while i < traces.len()
        invariant
            i <= traces@.len(),
            fits_view(*v),
            shown == (look.0@, look.1@, look.2@),
            out@ == old(out)@ + trace_marks(*v, traces@.take(i as int), shown),
        decreases traces@.len() - i,
    {
        proof {
            assert(traces@.take(i + 1).drop_last() =~= traces@.take(i as int));
        }
        extend_trace(out, v, &traces[i], look);
        proof {
            let next = traces@.take(i + 1);
            assert(next.last() == traces@[i as int]);
            assert(out@ =~= old(out)@ + (trace_marks(*v, next.drop_last(), shown) + trace_mark(
                *v,
                next.last(),
                shown,
            )));
        }
        i += 1;
    }
    proof {
        assert(traces@.take(traces@.len() as int) =~= traces@);
    }
}

/// The colour of vias and how strong they are drawn.
pub open spec fn via_look(now: bool, done: bool) -> (Seq<char>, Seq<char>) {
    if now {
        ("#f5a623"@, "1.0"@)
    } else if done {
        ("#7a5100"@, "0.6"@)
    } else {
        ("#333300"@, "0.3"@)
    }
}

fn look_of_via(now: bool, done: bool) -> (look: (&'static str, &'static str))
    ensures
        (look.0@, look.1@) == via_look(now, done),
{
    if now {
        ("#f5a623", "1.0")
    } else if done {
        ("#7a5100", "0.6")
    } else {
        ("#333300", "0.3")
    }
}

/// A via.
pub open spec fn via_mark(v: Frame, w: Via, look: (Seq<char>, Seq<char>)) -> Seq<char> {
    "<circle cx=\""@ + across_view(v, w.center.x as int) + "\" cy=\""@ + down_view(
        v,
        w.center.y as int,
    ) + "\" r=\""@ + radius_in_view(v, w.drill as int) + "\" fill=\"none\" stroke=\""@ + look.0
        + "\" stroke-width=\"1.5\" opacity=\""@ + look.1 + "\"/>"@
}

fn extend_via(out: &mut Vec<char>, v: &Frame, w: &Via, look: (&str, &str))
    requires
        fits_view(*v),
    ensures
        final(out)@ == old(out)@ + via_mark(*v, *w, (look.0@, look.1@)),
{
    extend_str(out, "<circle cx=\"");
    v.x(out, w.center.x);
    extend_str(out, "\" cy=\"");
    v.y(out, w.center.y);
    extend_str(out, "\" r=\"");
    v.radius(out, w.drill);
    extend_str(out, "\" fill=\"none\" stroke=\"");
    extend_str(out, look.0);
    extend_str(out, "\" stroke-width=\"1.5\" opacity=\"");
    extend_str(out, look.1);
    extend_str(out, "\"/>");
    proof {
        assert(out@ =~= old(out)@ + via_mark(*v, *w, (look.0@, look.1@)));
    }
}

/// Vias.
pub open spec fn via_marks(v: Frame, vias: Seq<Via>, look: (Seq<char>, Seq<char>)) -> Seq<char>
    decreases vias.len(),
{
    if vias.len() == 0 {
        Seq::empty()
    } else {
        via_marks(v, vias.drop_last(), look) + via_mark(v, vias.last(), look)
    }
}

fn extend_vias(out: &mut Vec<char>, v: &Frame, vias: &Vec<Via>, look: (&str, &str))
    requires
        fits_view(*v),
    ensures
        final(out)@ == old(out)@ + via_marks(*v, vias@, (look.0@, look.1@)),
{
    let ghost shown = (look.0@, look.1@);
    let mut i: usize = 0;
    proof {
        assert(vias@.take(0).len() == 0);
        assert(out@ =~= old(out)@ + via_marks(*v, vias@.take(0), shown));
    }
    while i < vias.len()
        invariant
            i <= vias@.len(),
            fits_view(*v),
            shown == (look.0@, look.1@),
            out@ == old(out)@ + via_marks(*v, vias@.take(i as int), shown),
        decreases vias@.len() - i,
    {
        proof {
            assert(vias@.take(i + 1).drop_last() =~= vias@.take(i as int));
        }
        extend_via(out, v, &vias[i], look);
        proof {
            let next = vias@.take(i + 1);
            assert(next.last() == vias@[i as int]);
            assert(out@ =~= old(out)@ + (via_marks(*v, next.drop_last(), shown) + via_mark(
                *v,
                next.last(),
                shown,
            )));
        }
        i += 1;
    }
    proof {
        assert(vias@.take(vias@.len() as int) =~= vias@);
    }
}

/// The drawing that goes with a step.
pub open spec fn step_drawing(pcb: PcbData, steps: Seq<StepModel>, at: int) -> Seq<char> {
    let v = view_of(board_box(pcb));
    let step = steps[at];
    "<svg xmlns=\"http://www.w3.org/2000/svg\" viewBox=\"0 0 700 500\" style=\"width:100%;height:100%;display:block\">"@
        + ground(v, pcb.outline) + part_marks(v, pcb.footprints@, steps, at) + trace_marks(
        v,
        pcb.traces_fcu@,
        trace_look(true, step.wire_layer == Some("F.Cu"@), was_laid(steps, at, "F.Cu"@)),
    ) + trace_marks(
        v,
        pcb.traces_bcu@,
        trace_look(false, step.wire_layer == Some("B.Cu"@), was_laid(steps, at, "B.Cu"@)),
    ) + via_marks(v, pcb.vias@, via_look(is_via_step(step), vias_were_set(steps, at))) + "</svg>"@
}

fn shows_layer(step: &AssemblyStep, layer: &str) -> (yes: bool)
    ensures
        yes == (step_model(*step).wire_layer == Some(layer@)),
{
    match &step.wire_layer {
        Some(l) => same_str(l.as_str(), layer),
        None => false,
    }
}

fn laid_before(steps: &Vec<AssemblyStep>, upto: usize, layer: &str) -> (yes: bool)
    requires
        upto <= steps@.len(),
    ensures
        yes == was_laid(step_models(steps@), upto as int, layer@),
{
    let ghost models = step_models(steps@);
    let mut j: usize = 0;
    while j < upto
        invariant
            j <= upto <= steps@.len(),
            models == step_models(steps@),
            forall|k: int| 0 <= k < j ==> (#[trigger] models[k]).wire_layer != Some(layer@),
        decreases upto - j,
    {
        assert(models[j as int] == step_model(steps@[j as int]));
        if shows_layer(&steps[j], layer) {
            return true;
        }
        j += 1;
    }
    false
}

fn about_vias(step: &AssemblyStep) -> (yes: bool)
    ensures
        yes == is_via_step(step_model(*step)),
{
    let name = lowered(step.name.as_str());
    let chars = to_chars(name.as_str());
    let none: bool = match &step.wire_layer {
        Some(_) => false,
        None => true,
    };
    proof {
        assert(strings(step.components@).len() == step.components@.len());
    }
    none && step.components.len() == 0 && has_str(chars.as_slice(), "via")
}

fn vias_before(steps: &Vec<AssemblyStep>, upto: usize) -> (yes: bool)
    requires
        upto <= steps@.len(),
    ensures
        yes == vias_were_set(step_models(steps@), upto as int),
{
    let ghost models = step_models(steps@);
    let mut j: usize = 0;
    while j < upto
        invariant
            j <= upto <= steps@.len(),
            models == step_models(steps@),
            forall|k: int| 0 <= k < j ==> !is_via_step(#[trigger] models[k]),
        decreases upto - j,
    {
        assert(models[j as int] == step_model(steps@[j as int]));
        if about_vias(&steps[j]) {
            return true;
        }
        j += 1;
    }
    false
}

/// The drawing that goes with a step.
pub fn render_assembly_svg(pcb: &PcbData, at: usize, steps: &Vec<AssemblyStep>) -> (out: String)
    requires
        at < steps@.len(),
    ensures
        out@ == step_drawing(*pcb, step_models(steps@), at as int),
{
    let ghost models = step_models(steps@);
    assert(models[at as int] == step_model(steps@[at as int]));
    let b = find_board_box(pcb);
    let v = look_at(&b);
    let mut out = to_chars(
        "<svg xmlns=\"http://www.w3.org/2000/svg\" viewBox=\"0 0 700 500\" style=\"width:100%;height:100%;display:block\">",
    );
    let ghost head = out@;
    match &pcb.outline {
        Some(o) => {
            extend_str(&mut out, "<polygon points=\"");
            extend_corners(&mut out, &v, o);
            extend_str(
                &mut out,
                "\" fill=\"#111820\" stroke=\"#f0c040\" stroke-width=\"1.2\"/>",
            );
        },
        None => {
            extend_str(&mut out, "<rect width=\"700\" height=\"500\" fill=\"#111820\"/>");
        },
    }
    proof {
        assert(out@ =~= head + ground(v, pcb.outline));
    }
    extend_parts(&mut out, &v, &pcb.footprints, steps, at);
    let front_now: bool = shows_layer(&steps[at], "F.Cu");
    let front_done: bool = laid_before(steps, at, "F.Cu");
    let back_now: bool = shows_layer(&steps[at], "B.Cu");
    let back_done: bool = laid_before(steps, at, "B.Cu");
    extend_traces(&mut out, &v, &pcb.traces_fcu, look_of_trace(true, front_now, front_done));
    extend_traces(&mut out, &v, &pcb.traces_bcu, look_of_trace(false, back_now, back_done));
    let vias_now: bool = about_vias(&steps[at]);
    let vias_done: bool = vias_before(steps, at);
    extend_vias(&mut out, &v, &pcb.vias, look_of_via(vias_now, vias_done));
    extend_str(&mut out, "</svg>");
    to_text(out.as_slice())
}

/// The first part of a reference.
pub open spec fn part_value(parts: Seq<Footprint>, reference: Seq<char>) -> Seq<char>
    decreases parts.len(),
{
    if parts.len() == 0 {
        "—"@
    } else if parts.first().reference@ == reference {
        parts.first().value@
    } else {
        part_value(parts.drop_first(), reference)
    }
}

fn extend_value(out: &mut Vec<char>, parts: &Vec<Footprint>, reference: &String)
    ensures
        final(out)@ == old(out)@ + escaped(part_value(parts@, reference@)),
{
    let mut i: usize = 0;
    proof {
        assert(parts@.skip(0) =~= parts@);
    }
    while i < parts.len()
        invariant
            i <= parts@.len(),
            part_value(parts@, reference@) == part_value(parts@.skip(i as int), reference@),
            out@ == old(out)@,
        decreases parts@.len() - i,
    {
        proof {
            assert(parts@.skip(i as int).first() == parts@[i as int]);
            assert(parts@.skip(i as int).drop_first() =~= parts@.skip(i + 1));
        }
        if same_str(parts[i].reference.as_str(), reference.as_str()) {
            let shown = html_escape(parts[i].value.as_str());
            extend_str(out, shown.as_str());
            return;
        }
        i += 1;
    }
    let shown = html_escape("—");
    extend_str(out, shown.as_str());
}

/// The rows of a table of parts.
pub open spec fn part_rows(parts: Seq<Footprint>, list: Seq<Seq<char>>) -> Seq<char>
    decreases list.len(),
{
    if list.len() == 0 {
        Seq::empty()
    } else {
        part_rows(parts, list.drop_last())
            + "<tr><td style=\"padding:4px 10px;color:#00ff88;font-family:monospace\">"@ + escaped(
            list.last(),
        ) + "</td><td style=\"padding:4px 10px;color:#cccccc\">"@ + escaped(
            part_value(parts, list.last()),
        ) + "</td></tr>"@
    }
}

/// The table of the parts that a step shows; nothing if it shows none.
pub open spec fn parts_table(parts: Seq<Footprint>, step: StepModel) -> Seq<char> {
    if step.components.len() == 0 {
        Seq::empty()
    } else {
        "<table style=\"border-collapse:collapse;font-size:13px;margin-top:10px\"><tr><th style=\"padding:4px 10px;color:#8899aa;text-align:left\">Ref</th><th style=\"padding:4px 10px;color:#8899aa;text-align:left\">Value</th></tr>"@
            + part_rows(parts, step.components) + "</table>"@
    }
}

/// The table of the parts that a step shows.
pub fn build_parts_table(pcb: &PcbData, step: &AssemblyStep) -> (out: String)
    ensures
        out@ == parts_table(pcb.footprints@, step_model(*step)),
{
    let ghost all = strings(step.components@);
    proof {
        assert(all.len() == step.components@.len());
    }
    if step.components.len() == 0 {
        let out = String::new();
        proof {
            assert(out@ =~= Seq::empty());
        }
        return out;
    }
    let mut out = to_chars(
        "<table style=\"border-collapse:collapse;font-size:13px;margin-top:10px\"><tr><th style=\"padding:4px 10px;color:#8899aa;text-align:left\">Ref</th><th style=\"padding:4px 10px;color:#8899aa;text-align:left\">Value</th></tr>",
    );
    let ghost head = out@;
    let mut i: usize = 0;
    proof {
        assert(all.take(0).len() == 0);
        assert(out@ =~= head + part_rows(pcb.footprints@, all.take(0)));
    }
    while i < step.components.len()
        invariant
            i <= step.components@.len(),
            all == strings(step.components@),
            out@ == head + part_rows(pcb.footprints@, all.take(i as int)),
        decreases step.components@.len() - i,
    {
        proof {
            assert(all.take(i + 1).drop_last() =~= all.take(i as int));
            assert(all.take(i + 1).last() == step.components@[i as int]@);
        }
        let name = &step.components[i];
        extend_str(
            &mut out,
            "<tr><td style=\"padding:4px 10px;color:#00ff88;font-family:monospace\">",
        );
        let shown = html_escape(name.as_str());
        extend_str(&mut out, shown.as_str());
        extend_str(&mut out, "</td><td style=\"padding:4px 10px;color:#cccccc\">");
        extend_value(&mut out, &pcb.footprints, name);
        extend_str(&mut out, "</td></tr>");
        proof {
            assert(out@ =~= head + part_rows(pcb.footprints@, all.take(i + 1)));
        }
        i += 1;
    }
    proof {
        assert(all.take(all.len() as int) =~= all);
    }
    extend_str(&mut out, "</table>");
    to_text(out.as_slice())
}

} // verus!
