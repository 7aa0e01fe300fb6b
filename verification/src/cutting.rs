//! What is cut into a board, told by what is on it: the traces of each layer into the
//! matching face, recesses for its pads, pockets round its holes, and the holes.

use crate::areas::{merged, Figure};
use crate::config::Config;
use crate::distance::twice_gap;
use crate::layout::{
    collar_figures, collar_rules, copper, cutout_figure, cutout_figures, drilled, holes, land_of,
    lands, lead_hole, lead_holes, makes_model, mouths, network, pockets, strokes, traces_of, via_holes,
    Cover, ModelPlan,
};
use crate::pcb::{BoundingBox, CopperLayer, CutoutShape, Pad, PcbData, Point2, Trace, Via};
use crate::profile::{band_depth, band_width, Bands};
use crate::slots::{first_slots, frames, grooves, stub_strokes};
use crate::solid::{collars, is_reached, pad_collars, place_of, via_collars};
use crate::stencil::{is_stencil, Stencil};
use vstd::prelude::*;

verus! {

/// The greater of two lengths.
pub open spec fn at_least(a: int, b: int) -> int {
    if a >= b {
        a
    } else {
        b
    }
}

/// Whether a width is that of a band: the opening if there is one band, else what lies
/// evenly between the floor and the opening.
pub open spec fn is_band_width(b: Bands, i: int, w: int) -> bool {
    if b.count <= 1 {
        w == b.opening
    } else {
        w == b.floor + (b.opening - b.floor) * i / (b.count - 1)
    }
}

/// Whether a figure is the recess of a pad that grows by a margin: in its place and
/// shape, turned as it is. Below 0.4 mm it could not be printed.
pub open spec fn is_recess(f: Figure, pad: Pad, margin: int) -> bool {
    let w = pad.width + margin;
    let h = pad.height + margin;
    &&& pad.width > 0
    &&& pad.height > 0
    &&& w >= 400_000
    &&& h >= 400_000
    &&& match f {
        Figure::Slab { center, width, height, rotation } => {
            &&& pad.shape is Rect || pad.shape is RoundRect
            &&& center == pad.center
            &&& width == w
            &&& height == h
            &&& rotation == pad.rotation
        },
        Figure::Disc { center, diameter, sides } => {
            &&& pad.shape is Circle
            &&& center == pad.center
            &&& diameter == at_least(w, h)
            &&& sides == 24
        },
        Figure::Oval { center, width, height, rotation, sides } => {
            &&& pad.shape is Oval
            &&& center == pad.center
            &&& width == w
            &&& height == h
            &&& rotation == pad.rotation
            &&& sides == 12
        },
        _ => false,
    }
}

/// Whether a figure is a circle of so many sides.
pub open spec fn is_disc(f: Figure, at: Point2, across: int, n: int) -> bool {
    f matches Figure::Disc { center, diameter, sides } && center == at && diameter == across && sides
        == n
}

/// Whether a figure is the hole for the lead of a pad: as large as its drill, and no
/// smaller than holes for leads are to be.
pub open spec fn is_lead_hole(f: Figure, pad: Pad, least: int) -> bool {
    let w = at_least(pad.drill as int, least);
    let h = if pad.drill_h > 0 {
        at_least(pad.drill_h as int, least)
    } else {
        w
    };
    &&& pad.drill > 0
    &&& if w == h {
        is_disc(f, pad.center, w, 16)
    } else {
        f matches Figure::Oval { center, width, height, rotation, sides } && center == pad.center
            && width == w && height == h && rotation == pad.rotation && sides == 8
    }
}

/// Whether a figure is an opening of the board.
pub open spec fn is_opening(f: Figure, c: CutoutShape) -> bool {
    match c {
        CutoutShape::Rect { center, half_width, half_height, rotation } => f matches Figure::Slab {
            center: at,
            width,
            height,
            rotation: turn,
        } && at == center && width == 2 * half_width && height == 2 * half_height && turn
            == rotation,
        CutoutShape::Circle { center, radius } => is_disc(f, center, 2 * radius, 32),
    }
}

/// Whether a trace runs into a hole.
pub open spec fn runs_into(t: Trace, center: Point2, bore: int, channel: int) -> bool {
    twice_gap(
        (center.x as int, center.y as int),
        (t.start.x as int, t.start.y as int),
        (t.end.x as int, t.end.y as int),
    ) < bore + channel
}

/// The bore of a pad, across its longer side.
pub open spec fn lead_bore(pad: Pad, least: int) -> int {
    at_least(at_least(pad.drill as int, pad.drill_h as int), least)
}

proof fn lemma_merged(list: Seq<Figure>, of: Cover, p: (int, int))
    ensures
        merged(list, of).contains(p) == exists|f: Figure| #[trigger] list.contains(f) && of(
            f,
        ).contains(p),
{
    if merged(list, of).contains(p) {
        let k = choose|k: int| 0 <= k < list.len() && of(#[trigger] list[k]).contains(p);
        assert(list.contains(list[k]));
    }
    if exists|f: Figure| #[trigger] list.contains(f) && of(f).contains(p) {
        let f = choose|f: Figure| #[trigger] list.contains(f) && of(f).contains(p);
        let k = choose|k: int| 0 <= k < list.len() && list[k] == f;
        assert(of(list[k]).contains(p));
    }
}

proof fn lemma_strokes(traces: Seq<Trace>, w: int, f: Figure)
    requires
        i128::MIN <= w <= i128::MAX,
    ensures
        strokes(traces, w).contains(f) == exists|k: int|
            0 <= k < traces.len() && f == (Figure::Stroke {
                start: (#[trigger] traces[k]).start,
                end: traces[k].end,
                width: w as i128,
            }),
{
    let list = strokes(traces, w);
    if list.contains(f) {
        let k = choose|k: int| 0 <= k < list.len() && list[k] == f;
        assert(traces[k] == traces[k]);
    }
    if exists|k: int|
        0 <= k < traces.len() && f == (Figure::Stroke {
            start: (#[trigger] traces[k]).start,
            end: traces[k].end,
            width: w as i128,
        }) {
        let k = choose|k: int|
            0 <= k < traces.len() && f == (Figure::Stroke {
                start: (#[trigger] traces[k]).start,
                end: traces[k].end,
                width: w as i128,
            });
        assert(list[k] == f);
    }
}

proof fn lemma_land(pad: Pad, margin: int, f: Figure)
    requires
        i64::MIN as int * 8 <= margin <= i64::MAX as int * 8,
    ensures
        is_recess(f, pad, margin) == (land_of(pad, margin) == Some(f)),
{
}

proof fn lemma_lands(pads: Seq<Pad>, margin: int, layer: CopperLayer, f: Figure)
    requires
        i64::MIN as int * 8 <= margin <= i64::MAX as int * 8,
    ensures
        lands(pads, margin, layer).contains(f) == exists|k: int|
            0 <= k < pads.len() && (match layer {
                CopperLayer::FCu => (#[trigger] pads[k]).on_fcu,
                CopperLayer::BCu => pads[k].on_bcu,
            }) && is_recess(f, pads[k], margin),
    decreases pads.len(),
{
    if pads.len() > 0 {
        let front = pads.drop_last();
        let last = pads[pads.len() - 1];
        lemma_lands(front, margin, layer, f);
        lemma_land(last, margin, f);
        let before = lands(front, margin, layer);
        let now = lands(pads, margin, layer);
        if now.contains(f) {
            let j = choose|j: int| 0 <= j < now.len() && now[j] == f;
            if j < before.len() {
                assert(before[j] == f);
                let k = choose|k: int|
                    0 <= k < front.len() && (match layer {
                        CopperLayer::FCu => (#[trigger] front[k]).on_fcu,
                        CopperLayer::BCu => front[k].on_bcu,
                    }) && is_recess(f, front[k], margin);
                assert(pads[k] == front[k]);
            } else {
                assert(pads[pads.len() - 1] == last);
            }
        }
        if exists|k: int|
            0 <= k < pads.len() && (match layer {
                CopperLayer::FCu => (#[trigger] pads[k]).on_fcu,
                CopperLayer::BCu => pads[k].on_bcu,
            }) && is_recess(f, pads[k], margin) {
            let k = choose|k: int|
                0 <= k < pads.len() && (match layer {
                    CopperLayer::FCu => (#[trigger] pads[k]).on_fcu,
                    CopperLayer::BCu => pads[k].on_bcu,
                }) && is_recess(f, pads[k], margin);
            if k < front.len() {
                assert(front[k] == pads[k]);
                assert(before.contains(f));
                let j = choose|j: int| 0 <= j < before.len() && before[j] == f;
                assert(now[j] == f);
            } else {
                assert(now[now.len() - 1] == f);
            }
        }
    }
}

proof fn lemma_lead_holes(pads: Seq<Pad>, least: int, f: Figure)
    requires
        i64::MIN <= least <= i64::MAX,
    ensures
        lead_holes(pads, least).contains(f) == exists|k: int|
            0 <= k < pads.len() && is_lead_hole(f, #[trigger] pads[k], least),
    decreases pads.len(),
{
    if pads.len() > 0 {
        let front = pads.drop_last();
        let last = pads[pads.len() - 1];
        lemma_lead_holes(front, least, f);
        assert(is_lead_hole(f, last, least) == (last.drill > 0 && f == lead_hole(last, least)));
        let before = lead_holes(front, least);
        let now = lead_holes(pads, least);
        if now.contains(f) {
            let j = choose|j: int| 0 <= j < now.len() && now[j] == f;
            if j < before.len() {
                assert(before[j] == f);
                let k = choose|k: int|
                    0 <= k < front.len() && is_lead_hole(f, #[trigger] front[k], least);
                assert(pads[k] == front[k]);
            } else {
                assert(pads[pads.len() - 1] == last);
            }
        }
        if exists|k: int| 0 <= k < pads.len() && is_lead_hole(f, #[trigger] pads[k], least) {
            let k = choose|k: int| 0 <= k < pads.len() && is_lead_hole(f, #[trigger] pads[k], least);
            if k < front.len() {
                assert(front[k] == pads[k]);
                assert(before.contains(f));
                let j = choose|j: int| 0 <= j < before.len() && before[j] == f;
                assert(now[j] == f);
            } else {
                assert(now[now.len() - 1] == f);
            }
        }
    }
}

proof fn lemma_via_holes(vias: Seq<Via>, eyelet: int, f: Figure)
    requires
        i64::MIN <= eyelet <= i64::MAX,
    ensures
        via_holes(vias, eyelet).contains(f) == exists|k: int|
            0 <= k < vias.len() && is_disc(
                f,
                (#[trigger] vias[k]).center,
                at_least(vias[k].drill as int, eyelet),
                16,
            ),
{
    let list = via_holes(vias, eyelet);
    if list.contains(f) {
        let k = choose|k: int| 0 <= k < list.len() && list[k] == f;
        assert(vias[k] == vias[k]);
    }
    if exists|k: int|
        0 <= k < vias.len() && is_disc(
            f,
            (#[trigger] vias[k]).center,
            at_least(vias[k].drill as int, eyelet),
            16,
        ) {
        let k = choose|k: int|
            0 <= k < vias.len() && is_disc(
                f,
                (#[trigger] vias[k]).center,
                at_least(vias[k].drill as int, eyelet),
                16,
            );
        assert(list[k] == f);
    }
}

proof fn lemma_openings(cutouts: Seq<CutoutShape>, f: Figure)
    ensures
        cutout_figures(cutouts).contains(f) == exists|k: int|
            0 <= k < cutouts.len() && is_opening(f, #[trigger] cutouts[k]),
{
    let list = cutout_figures(cutouts);
    assert forall|k: int| 0 <= k < cutouts.len() implies is_opening(f, #[trigger] cutouts[k]) == (f
        == cutout_figure(cutouts[k])) by {}
    if list.contains(f) {
        let k = choose|k: int| 0 <= k < list.len() && list[k] == f;
        assert(is_opening(f, cutouts[k]));
    }
    if exists|k: int| 0 <= k < cutouts.len() && is_opening(f, #[trigger] cutouts[k]) {
        let k = choose|k: int| 0 <= k < cutouts.len() && is_opening(f, #[trigger] cutouts[k]);
        assert(list[k] == f);
    }
}

/// Whether a figure goes through the board: the hole of a via, of a lead if holes for
/// leads are made, or an opening of the board.
pub open spec fn goes_through(f: Figure, pcb: PcbData, c: Config) -> bool {
    ||| exists|k: int|
        0 <= k < pcb.vias@.len() && is_disc(
            f,
            (#[trigger] pcb.vias@[k]).center,
            at_least(pcb.vias@[k].drill as int, c.eyelet_diameter as int),
            16,
        )
    ||| c.generate_pad_holes && exists|k: int|
        0 <= k < pcb.pads@.len() && is_lead_hole(
            f,
            #[trigger] pcb.pads@[k],
            c.pad_hole_diameter as int,
        )
    ||| exists|k: int| 0 <= k < pcb.cutouts@.len() && is_opening(f, #[trigger] pcb.cutouts@[k])
}

/// What goes through a board is what the holes of its vias, of its leads if they are
/// made, and its openings cover, and nothing else.
pub proof fn lemma_every_hole_is_made(
    m: ModelPlan,
    pcb: PcbData,
    c: Config,
    b: Bands,
    sinks: int,
    recessed: bool,
    of: Cover,
    p: (int, int),
)
    requires
        makes_model(m, pcb, c, b, sinks, recessed),
    ensures
        m.plan.area(m.holes, of).contains(p) == exists|f: Figure| #[trigger]
            goes_through(f, pcb, c) && of(f).contains(p),
{
    let v = via_holes(pcb.vias@, c.eyelet_diameter as int);
    let l = lead_holes(pcb.pads@, c.pad_hole_diameter as int);
    let o = cutout_figures(pcb.cutouts@);
    lemma_merged(v, of, p);
    lemma_merged(l, of, p);
    lemma_merged(o, of, p);
    assert(m.plan.area(m.holes, of) == holes(pcb, c, of));
    if holes(pcb, c, of).contains(p) {
        let f = if merged(v, of).contains(p) {
            choose|f: Figure| #[trigger] v.contains(f) && of(f).contains(p)
        } else if c.generate_pad_holes && merged(l, of).contains(p) {
            choose|f: Figure| #[trigger] l.contains(f) && of(f).contains(p)
        } else {
            choose|f: Figure| #[trigger] o.contains(f) && of(f).contains(p)
        };
        lemma_via_holes(pcb.vias@, c.eyelet_diameter as int, f);
        lemma_lead_holes(pcb.pads@, c.pad_hole_diameter as int, f);
        lemma_openings(pcb.cutouts@, f);
        assert(goes_through(f, pcb, c));
    }
    if exists|f: Figure| #[trigger] goes_through(f, pcb, c) && of(f).contains(p) {
        let f = choose|f: Figure| #[trigger] goes_through(f, pcb, c) && of(f).contains(p);
        lemma_via_holes(pcb.vias@, c.eyelet_diameter as int, f);
        lemma_lead_holes(pcb.pads@, c.pad_hole_diameter as int, f);
        lemma_openings(pcb.cutouts@, f);
        assert(v.contains(f) || (c.generate_pad_holes && l.contains(f)) || o.contains(f));
    }
}

/// The faces of a board are what is left of it: the board without its holes and without
/// what is cut into the widest band of the face. A bottom with nothing cut into it is
/// the board without its holes. A rim between two bands is what the wider one has more.
pub proof fn lemma_faces_are_left(
    m: ModelPlan,
    pcb: PcbData,
    c: Config,
    b: Bands,
    sinks: int,
    recessed: bool,
    of: Cover,
    p: (int, int),
    i: int,
)
    requires
        makes_model(m, pcb, c, b, sinks, recessed),
        b.count >= 1,
    ensures
        m.plan.area(m.top, of).contains(p) == (of(Figure::Board).contains(p) && !m.plan.area(
            m.holes,
            of,
        ).contains(p) && !m.plan.area(m.upper@[b.count - 1], of).contains(p)),
        m.plan.area(m.bottom, of).contains(p) == (of(Figure::Board).contains(p) && !m.plan.area(
            m.holes,
            of,
        ).contains(p) && !(recessed && m.plan.area(m.lower@[b.count - 1], of).contains(p))),
        0 <= i < b.count - 1 ==> m.plan.area(m.upper_ledges@[i], of).contains(p) == (m.plan.area(
            m.upper@[i + 1],
            of,
        ).contains(p) && !m.plan.area(m.upper@[i], of).contains(p)),
        0 <= i < b.count - 1 ==> m.plan.area(m.lower_ledges@[i], of).contains(p) == (m.plan.area(
            m.lower@[i + 1],
            of,
        ).contains(p) && !m.plan.area(m.lower@[i], of).contains(p)),
{
    assert(m.plan.area(m.upper@[b.count - 1], of) == network(
        pcb,
        c,
        b,
        sinks,
        CopperLayer::FCu,
        b.count - 1,
        of,
    ));
    assert(m.plan.area(m.lower@[b.count - 1], of) == network(
        pcb,
        c,
        b,
        sinks,
        CopperLayer::BCu,
        b.count - 1,
        of,
    ));
    assert(m.plan.area(m.holes, of) == holes(pcb, c, of));
    if 0 <= i < b.count - 1 {
        assert(m.plan.area(m.upper_ledges@[i], of) == m.plan.area(m.upper@[i + 1], of).difference(
            m.plan.area(m.upper@[i], of),
        ));
        assert(m.plan.area(m.lower_ledges@[i], of) == m.plan.area(m.lower@[i + 1], of).difference(
            m.plan.area(m.lower@[i], of),
        ));
    }
}

/// Whether a figure is the pocket round a hole that a trace of a layer runs into, in a
/// band that is wider than the lowest by `more`: round, with 0.17 mm and half of that
/// more all round the bore. A drilled pad with a recess on the layer gets one in any
/// case.
pub open spec fn is_pocket(
    f: Figure,
    pcb: PcbData,
    c: Config,
    traces: Seq<Trace>,
    recessed: spec_fn(Pad) -> bool,
    more: int,
) -> bool {
    ||| exists|k: int|
        0 <= k < pcb.vias@.len() && ({
            let v = #[trigger] pcb.vias@[k];
            let bore = at_least(v.drill as int, c.eyelet_diameter as int);
            &&& is_disc(f, v.center, bore + 340_000 + 2 * (more / 2), 16)
            &&& exists|j: int|
                0 <= j < traces.len() && runs_into(
                    #[trigger] traces[j],
                    v.center,
                    bore,
                    c.channel_width as int,
                )
        })
    ||| exists|k: int|
        0 <= k < pcb.pads@.len() && ({
            let pad = #[trigger] pcb.pads@[k];
            let bore = lead_bore(pad, c.pad_hole_diameter as int);
            &&& pad.drill > 0
            &&& is_disc(f, pad.center, bore + 340_000 + 2 * (more / 2), 16)
            &&& (c.generate_pad_lands && recessed(pad)) || exists|j: int|
                0 <= j < traces.len() && runs_into(
                    #[trigger] traces[j],
                    pad.center,
                    bore,
                    c.channel_width as int,
                )
        })
}

/// The pads on the front layer.
pub open spec fn on_front() -> spec_fn(Pad) -> bool {
    |pad: Pad| pad.on_fcu
}

/// The pads on the back layer.
pub open spec fn on_back() -> spec_fn(Pad) -> bool {
    |pad: Pad| pad.on_bcu
}

spec fn on_layer(layer: CopperLayer) -> spec_fn(Pad) -> bool {
    match layer {
        CopperLayer::FCu => on_front(),
        CopperLayer::BCu => on_back(),
    }
}

proof fn lemma_via_collars(
    vias: Seq<Via>,
    traces: Seq<Trace>,
    channel: int,
    eyelet: int,
    extra: int,
    x: ((int, int), int),
)
    ensures
        via_collars(vias, traces, channel, eyelet, extra).contains(x) == exists|k: int|
            0 <= k < vias.len() && ({
                let v = #[trigger] vias[k];
                let bore = at_least(v.drill as int, eyelet);
                &&& x == (place_of(v.center), bore + 340_000 + 2 * extra)
                &&& exists|j: int|
                    0 <= j < traces.len() && runs_into(#[trigger] traces[j], v.center, bore, channel)
            }),
    decreases vias.len(),
{
    if vias.len() > 0 {
        let front = vias.drop_last();
        let last = vias[vias.len() - 1];
        lemma_via_collars(front, traces, channel, eyelet, extra, x);
        let bore = at_least(last.drill as int, eyelet);
        lemma_reached(traces, last.center, bore, channel);
        let before = via_collars(front, traces, channel, eyelet, extra);
        let now = via_collars(vias, traces, channel, eyelet, extra);
        if now.contains(x) {
            let j = choose|j: int| 0 <= j < now.len() && now[j] == x;
            if j < before.len() {
                assert(before[j] == x);
                let k = choose|k: int|
                    0 <= k < front.len() && ({
                        let v = #[trigger] front[k];
                        let bore = at_least(v.drill as int, eyelet);
                        &&& x == (place_of(v.center), bore + 340_000 + 2 * extra)
                        &&& exists|j: int|
                            0 <= j < traces.len() && runs_into(
                                #[trigger] traces[j],
                                v.center,
                                bore,
                                channel,
                            )
                    });
                assert(vias[k] == front[k]);
            } else {
                assert(vias[vias.len() - 1] == last);
            }
        }
        if exists|k: int|
            0 <= k < vias.len() && ({
                let v = #[trigger] vias[k];
                let bore = at_least(v.drill as int, eyelet);
                &&& x == (place_of(v.center), bore + 340_000 + 2 * extra)
                &&& exists|j: int|
                    0 <= j < traces.len() && runs_into(#[trigger] traces[j], v.center, bore, channel)
            }) {
            let k = choose|k: int|
                0 <= k < vias.len() && ({
                    let v = #[trigger] vias[k];
                    let bore = at_least(v.drill as int, eyelet);
                    &&& x == (place_of(v.center), bore + 340_000 + 2 * extra)
                    &&& exists|j: int|
                        0 <= j < traces.len() && runs_into(
                            #[trigger] traces[j],
                            v.center,
                            bore,
                            channel,
                        )
                });
            if k < front.len() {
                assert(front[k] == vias[k]);
                assert(before.contains(x));
                let j = choose|j: int| 0 <= j < before.len() && before[j] == x;
                assert(now[j] == x);
            } else {
                assert(now[now.len() - 1] == x);
            }
        }
    }
}

proof fn lemma_reached(traces: Seq<Trace>, center: Point2, bore: int, channel: int)
    ensures
        is_reached(place_of(center), bore, traces, channel) == exists|j: int|
            0 <= j < traces.len() && runs_into(#[trigger] traces[j], center, bore, channel),
{
    if is_reached(place_of(center), bore, traces, channel) {
        let j = choose|j: int|
            0 <= j < traces.len() && crate::solid::reaches(
                place_of(center),
                bore,
                #[trigger] traces[j],
                channel,
            );
        assert(runs_into(traces[j], center, bore, channel));
    }
    if exists|j: int| 0 <= j < traces.len() && runs_into(#[trigger] traces[j], center, bore, channel) {
        let j = choose|j: int|
            0 <= j < traces.len() && runs_into(#[trigger] traces[j], center, bore, channel);
        assert(crate::solid::reaches(place_of(center), bore, traces[j], channel));
    }
}

proof fn lemma_pad_collars(
    pads: Seq<Pad>,
    traces: Seq<Trace>,
    layer: CopperLayer,
    lands: bool,
    channel: int,
    least: int,
    extra: int,
    x: ((int, int), int),
)
    ensures
        pad_collars(pads, traces, layer, lands, channel, least, extra).contains(x) == exists|k: int|
            0 <= k < pads.len() && ({
                let pad = #[trigger] pads[k];
                let bore = lead_bore(pad, least);
                &&& pad.drill > 0
                &&& x == (place_of(pad.center), bore + 340_000 + 2 * extra)
                &&& (lands && on_layer(layer)(pad)) || exists|j: int|
                    0 <= j < traces.len() && runs_into(
                        #[trigger] traces[j],
                        pad.center,
                        bore,
                        channel,
                    )
            }),
    decreases pads.len(),
{
    if pads.len() > 0 {
        let front = pads.drop_last();
        let last = pads[pads.len() - 1];
        lemma_pad_collars(front, traces, layer, lands, channel, least, extra, x);
        lemma_reached(traces, last.center, lead_bore(last, least), channel);
        let before = pad_collars(front, traces, layer, lands, channel, least, extra);
        let now = pad_collars(pads, traces, layer, lands, channel, least, extra);
        if now.contains(x) {
            let j = choose|j: int| 0 <= j < now.len() && now[j] == x;
            if j < before.len() {
                assert(before[j] == x);
                let k = choose|k: int|
                    0 <= k < front.len() && ({
                        let pad = #[trigger] front[k];
                        let bore = lead_bore(pad, least);
                        &&& pad.drill > 0
                        &&& x == (place_of(pad.center), bore + 340_000 + 2 * extra)
                        &&& (lands && on_layer(layer)(pad)) || exists|j: int|
                            0 <= j < traces.len() && runs_into(
                                #[trigger] traces[j],
                                pad.center,
                                bore,
                                channel,
                            )
                    });
                assert(pads[k] == front[k]);
            } else {
                assert(pads[pads.len() - 1] == last);
            }
        }
        if exists|k: int|
            0 <= k < pads.len() && ({
                let pad = #[trigger] pads[k];
                let bore = lead_bore(pad, least);
                &&& pad.drill > 0
                &&& x == (place_of(pad.center), bore + 340_000 + 2 * extra)
                &&& (lands && on_layer(layer)(pad)) || exists|j: int|
                    0 <= j < traces.len() && runs_into(
                        #[trigger] traces[j],
                        pad.center,
                        bore,
                        channel,
                    )
            }) {
            let k = choose|k: int|
                0 <= k < pads.len() && ({
                    let pad = #[trigger] pads[k];
                    let bore = lead_bore(pad, least);
                    &&& pad.drill > 0
                    &&& x == (place_of(pad.center), bore + 340_000 + 2 * extra)
                    &&& (lands && on_layer(layer)(pad)) || exists|j: int|
                        0 <= j < traces.len() && runs_into(
                            #[trigger] traces[j],
                            pad.center,
                            bore,
                            channel,
                        )
                });
            if k < front.len() {
                assert(front[k] == pads[k]);
                assert(before.contains(x));
                let j = choose|j: int| 0 <= j < before.len() && before[j] == x;
                assert(now[j] == x);
            } else {
                assert(now[now.len() - 1] == x);
            }
        }
    }
}

proof fn lemma_collar_figures(list: Seq<((int, int), int)>, at: Point2, across: int, f: Figure)
    requires
        is_disc(f, at, across, 16),
        list.contains((place_of(at), across)),
    ensures
        collar_figures(list).contains(f),
{
    let j = choose|j: int| 0 <= j < list.len() && list[j] == (place_of(at), across);
    assert(collar_figures(list)[j] == f);
}

proof fn lemma_pockets(
    pcb: PcbData,
    c: Config,
    b: Bands,
    layer: CopperLayer,
    i: int,
    more: int,
    f: Figure,
)
    requires
        0 <= i < b.count,
        b.floor <= b.opening,
        b.opening - b.floor <= i64::MAX,
        more == band_width(b.count as int, b.floor as int, b.opening as int, i) - band_width(
            b.count as int,
            b.floor as int,
            b.opening as int,
            0,
        ),
    ensures
        pockets(pcb, c, b, 0, layer, i).contains(f) == is_pocket(
            f,
            pcb,
            c,
            traces_of(pcb, layer),
            on_layer(layer),
            more,
        ),
{
    let r = collar_rules(c, b, layer, i);
    lemma_more(b, i);
    assert(r.extra == more / 2);
    let traces = traces_of(pcb, layer);
    let list = collars(pcb.pads@, pcb.vias@, traces, r);
    let pads = pad_collars(
        pcb.pads@,
        traces,
        layer,
        c.generate_pad_lands,
        c.channel_width as int,
        c.pad_hole_diameter as int,
        more / 2,
    );
    let vias = via_collars(
        pcb.vias@,
        traces,
        c.channel_width as int,
        c.eyelet_diameter as int,
        more / 2,
    );
    assert(list == pads + vias);
    if pockets(pcb, c, b, 0, layer, i).contains(f) {
        let all = collar_figures(list);
        let j = choose|j: int| 0 <= j < all.len() && all[j] == f;
        let x = list[j];
        lemma_pad_collars(
            pcb.pads@,
            traces,
            layer,
            c.generate_pad_lands,
            c.channel_width as int,
            c.pad_hole_diameter as int,
            more / 2,
            x,
        );
        lemma_via_collars(
            pcb.vias@,
            traces,
            c.channel_width as int,
            c.eyelet_diameter as int,
            more / 2,
            x,
        );
        if j < pads.len() {
            assert(pads[j] == x);
            assert(pads.contains(x));
            let k = choose|k: int|
                0 <= k < pcb.pads@.len() && ({
                    let pad = #[trigger] pcb.pads@[k];
                    let bore = lead_bore(pad, c.pad_hole_diameter as int);
                    &&& pad.drill > 0
                    &&& x == (place_of(pad.center), bore + 340_000 + 2 * (more / 2))
                    &&& (c.generate_pad_lands && on_layer(layer)(pad)) || exists|j: int|
                        0 <= j < traces.len() && runs_into(
                            #[trigger] traces[j],
                            pad.center,
                            bore,
                            c.channel_width as int,
                        )
                });
            assert(is_disc(f, pcb.pads@[k].center, x.1, 16));
        } else {
            assert(vias[j - pads.len()] == x);
            assert(vias.contains(x));
            let k = choose|k: int|
                0 <= k < pcb.vias@.len() && ({
                    let v = #[trigger] pcb.vias@[k];
                    let bore = at_least(v.drill as int, c.eyelet_diameter as int);
                    &&& x == (place_of(v.center), bore + 340_000 + 2 * (more / 2))
                    &&& exists|j: int|
                        0 <= j < traces.len() && runs_into(
                            #[trigger] traces[j],
                            v.center,
                            bore,
                            c.channel_width as int,
                        )
                });
            assert(is_disc(f, pcb.vias@[k].center, x.1, 16));
        }
    }
    if is_pocket(f, pcb, c, traces, on_layer(layer), more) {
        assert(f is Disc);
        let at = f->Disc_center;
        let across = f->Disc_diameter as int;
        let x = (place_of(at), across);
        lemma_pad_collars(
            pcb.pads@,
            traces,
            layer,
            c.generate_pad_lands,
            c.channel_width as int,
            c.pad_hole_diameter as int,
            more / 2,
            x,
        );
        lemma_via_collars(
            pcb.vias@,
            traces,
            c.channel_width as int,
            c.eyelet_diameter as int,
            more / 2,
            x,
        );
        if pads.contains(x) {
            let j = choose|j: int| 0 <= j < pads.len() && pads[j] == x;
            assert(list[j] == x);
        } else {
            let j = choose|j: int| 0 <= j < vias.len() && vias[j] == x;
            assert(list[pads.len() + j] == x);
        }
        assert(list.contains(x));
        lemma_collar_figures(list, at, across, f);
    }
}

proof fn lemma_more(b: Bands, i: int)
    requires
        0 <= i < b.count,
        b.floor <= b.opening,
    ensures
        ({
            let w = band_width(b.count as int, b.floor as int, b.opening as int, i);
            let n = band_width(b.count as int, b.floor as int, b.opening as int, 0);
            0 <= w - n <= b.opening - b.floor && b.floor <= w <= b.opening
        }),
{
    if b.count > 1 {
        let x = b.opening - b.floor;
        let n = b.count - 1;
        assert(x * 0 / n == 0) by (nonlinear_arith)
            requires
                n > 0,
        ;
        assert(0 <= x * i <= x * n) by (nonlinear_arith)
            requires
                0 <= x,
                0 <= i <= n,
        ;
        assert(0 <= x * i / n <= x) by (nonlinear_arith)
            requires
                0 <= x * i <= x * n,
                0 < n,
        ;
    }
}

/// Whether a figure is cut in a band of a face: along a trace of its layer, as the recess
/// of a pad on it, or as a pocket round a hole. Where holes are countersunk, that is what
/// the countersinks cover.
pub open spec fn is_cut(
    f: Figure,
    pcb: PcbData,
    c: Config,
    b: Bands,
    sinks: int,
    traces: Seq<Trace>,
    on: spec_fn(Pad) -> bool,
    i: int,
    w: int,
    narrowest: int,
) -> bool {
    ||| exists|k: int|
        0 <= k < traces.len() && f == (Figure::Stroke {
            start: (#[trigger] traces[k]).start,
            end: traces[k].end,
            width: w as i128,
        })
    ||| c.generate_pad_lands && exists|k: int|
        0 <= k < pcb.pads@.len() && on(#[trigger] pcb.pads@[k]) && is_recess(
            f,
            pcb.pads@[k],
            w - b.opening,
        )
    ||| sinks == 0 && is_pocket(f, pcb, c, traces, on, w - narrowest)
    ||| sinks > 0 && (f matches Figure::Mouth { bore, depth, band } && bore < sinks && band == i
        && depth == (if b.count <= 1 {
        0
    } else {
        at_least(c.channel_depth as int, 0) * (b.count - 1 - i) / (b.count - 1)
    }))
}

proof fn lemma_mouths(c: Config, b: Bands, sinks: int, i: int, f: Figure)
    requires
        0 < sinks <= usize::MAX,
        0 <= i < b.count,
    ensures
        mouths(
            sinks,
            band_depth(b.count as int, at_least(c.channel_depth as int, 0), i),
            i,
        ).contains(f) == (f matches Figure::Mouth { bore, depth, band } && bore < sinks && band == i
            && depth == (if b.count <= 1 {
            0
        } else {
            at_least(c.channel_depth as int, 0) * (b.count - 1 - i) / (b.count - 1)
        })),
{
    let d = at_least(c.channel_depth as int, 0);
    let deep = band_depth(b.count as int, d, i);
    if b.count > 1 {
        let n = b.count - 1;
        let k = b.count - 1 - i;
        assert(0 <= d * k <= d * n) by (nonlinear_arith)
            requires
                0 <= d,
                0 <= k <= n,
        ;
        assert(0 <= d * k / n <= d) by (nonlinear_arith)
            requires
                0 <= d * k <= d * n,
                0 < n,
        ;
    }
    let list = mouths(sinks, deep, i);
    if list.contains(f) {
        let k = choose|k: int| 0 <= k < list.len() && list[k] == f;
        assert(f == Figure::Mouth { bore: k as usize, depth: deep as i64, band: i as usize });
    }
    if f matches Figure::Mouth { bore, depth, band } && bore < sinks && band == i && depth == deep {
        assert(list[f->bore as int] == f);
    }
}

proof fn lemma_network(
    pcb: PcbData,
    c: Config,
    b: Bands,
    sinks: int,
    layer: CopperLayer,
    i: int,
    w: int,
    narrowest: int,
    of: Cover,
    p: (int, int),
)
    requires
        0 <= i < b.count,
        b.floor <= b.opening,
        b.opening - b.floor <= i64::MAX,
        0 <= sinks <= usize::MAX,
        is_band_width(b, i, w),
        is_band_width(b, 0, narrowest),
    ensures
        network(pcb, c, b, sinks, layer, i, of).contains(p) == (of(Figure::Board).contains(p)
            && !holes(pcb, c, of).contains(p) && exists|f: Figure| #[trigger]
            is_cut(f, pcb, c, b, sinks, traces_of(pcb, layer), on_layer(layer), i, w, narrowest)
                && of(f).contains(p)),
{
    lemma_more(b, i);
    assert(w == band_width(b.count as int, b.floor as int, b.opening as int, i));
    assert(narrowest == band_width(b.count as int, b.floor as int, b.opening as int, 0));
    let traces = traces_of(pcb, layer);
    let along = strokes(traces, w);
    let flat = lands(pcb.pads@, w - b.opening, layer);
    let round = pockets(pcb, c, b, sinks, layer, i);
    let on = on_layer(layer);
    lemma_merged(along, of, p);
    lemma_merged(flat, of, p);
    lemma_merged(round, of, p);
    assert forall|f: Figure| (along.contains(f) || (c.generate_pad_lands && flat.contains(f))
        || round.contains(f)) == #[trigger] is_cut(
        f,
        pcb,
        c,
        b,
        sinks,
        traces,
        on,
        i,
        w,
        narrowest,
    ) by {
        lemma_strokes(traces, w, f);
        lemma_lands(pcb.pads@, w - b.opening, layer, f);
        lemma_same_pads(pcb.pads@, layer, f, w - b.opening);
        if sinks == 0 {
            lemma_pockets(pcb, c, b, layer, i, w - narrowest, f);
        } else {
            lemma_mouths(c, b, sinks, i, f);
        }
    }
    if copper(pcb, c, b, sinks, layer, i, of).contains(p) {
        let f = if merged(along, of).contains(p) {
            choose|f: Figure| #[trigger] along.contains(f) && of(f).contains(p)
        } else if c.generate_pad_lands && merged(flat, of).contains(p) {
            choose|f: Figure| #[trigger] flat.contains(f) && of(f).contains(p)
        } else {
            choose|f: Figure| #[trigger] round.contains(f) && of(f).contains(p)
        };
        assert(is_cut(f, pcb, c, b, sinks, traces, on, i, w, narrowest));
    }
    if exists|f: Figure| #[trigger]
        is_cut(f, pcb, c, b, sinks, traces, on, i, w, narrowest) && of(f).contains(p) {
        let f = choose|f: Figure| #[trigger]
            is_cut(f, pcb, c, b, sinks, traces, on, i, w, narrowest) && of(f).contains(p);
        assert(along.contains(f) || (c.generate_pad_lands && flat.contains(f)) || round.contains(f));
    }
}

proof fn lemma_same_pads(pads: Seq<Pad>, layer: CopperLayer, f: Figure, margin: int)
    ensures
        (exists|k: int|
            0 <= k < pads.len() && (match layer {
                CopperLayer::FCu => (#[trigger] pads[k]).on_fcu,
                CopperLayer::BCu => pads[k].on_bcu,
            }) && is_recess(f, pads[k], margin)) == (exists|k: int|
            0 <= k < pads.len() && on_layer(layer)(#[trigger] pads[k]) && is_recess(
                f,
                pads[k],
                margin,
            )),
{
    if exists|k: int|
        0 <= k < pads.len() && (match layer {
            CopperLayer::FCu => (#[trigger] pads[k]).on_fcu,
            CopperLayer::BCu => pads[k].on_bcu,
        }) && is_recess(f, pads[k], margin) {
        let k = choose|k: int|
            0 <= k < pads.len() && (match layer {
                CopperLayer::FCu => (#[trigger] pads[k]).on_fcu,
                CopperLayer::BCu => pads[k].on_bcu,
            }) && is_recess(f, pads[k], margin);
        assert(on_layer(layer)(pads[k]));
    }
    if exists|k: int|
        0 <= k < pads.len() && on_layer(layer)(#[trigger] pads[k]) && is_recess(f, pads[k], margin) {
        let k = choose|k: int|
            0 <= k < pads.len() && on_layer(layer)(#[trigger] pads[k]) && is_recess(
                f,
                pads[k],
                margin,
            );
        assert(pads[k] == pads[k]);
    }
}

/// What is cut into the top, band by band, is what lies on the board and in no hole along
/// the traces of the front layer, in the recesses of the pads on it, and in the pockets
/// round the holes that its traces run into; the same holds of the bottom and the back
/// layer. `w` is the width of the band and `narrowest` that of the lowest.
pub proof fn lemma_traces_are_cut_into_their_face(
    m: ModelPlan,
    pcb: PcbData,
    c: Config,
    b: Bands,
    sinks: int,
    recessed: bool,
    of: Cover,
    p: (int, int),
    i: int,
    w: int,
    narrowest: int,
)
    requires
        makes_model(m, pcb, c, b, sinks, recessed),
        0 <= i < b.count,
        b.floor <= b.opening,
        b.opening - b.floor <= i64::MAX,
        0 <= sinks <= usize::MAX,
        is_band_width(b, i, w),
        is_band_width(b, 0, narrowest),
    ensures
        m.plan.area(m.upper@[i], of).contains(p) == (of(Figure::Board).contains(p) && !m.plan.area(
            m.holes,
            of,
        ).contains(p) && exists|f: Figure| #[trigger]
            is_cut(
                f,
                pcb,
                c,
                b,
                sinks,
                pcb.traces_fcu@,
                on_front(),
                i,
                w,
                narrowest,
            ) && of(f).contains(p)),
        m.plan.area(m.lower@[i], of).contains(p) == (of(Figure::Board).contains(p) && !m.plan.area(
            m.holes,
            of,
        ).contains(p) && exists|f: Figure| #[trigger]
            is_cut(
                f,
                pcb,
                c,
                b,
                sinks,
                pcb.traces_bcu@,
                on_back(),
                i,
                w,
                narrowest,
            ) && of(f).contains(p)),
{
    lemma_network(pcb, c, b, sinks, CopperLayer::FCu, i, w, narrowest, of, p);
    lemma_network(pcb, c, b, sinks, CopperLayer::BCu, i, w, narrowest, of, p);
    assert(traces_of(pcb, CopperLayer::FCu) == pcb.traces_fcu@);
    assert(traces_of(pcb, CopperLayer::BCu) == pcb.traces_bcu@);
    assert(on_layer(CopperLayer::FCu) == on_front());
    assert(on_layer(CopperLayer::BCu) == on_back());
    assert(m.plan.area(m.holes, of) == holes(pcb, c, of));
    assert(m.plan.area(m.upper@[i], of) == network(
        pcb,
        c,
        b,
        sinks,
        CopperLayer::FCu,
        i,
        of,
    ));
    assert(m.plan.area(m.lower@[i], of) == network(
        pcb,
        c,
        b,
        sinks,
        CopperLayer::BCu,
        i,
        of,
    ));
}

/// Along every trace there is a groove in the face of its layer, as wide as the band,
/// wherever there is board and no hole; and the face is gone there.
pub proof fn lemma_every_trace_has_its_groove(
    m: ModelPlan,
    pcb: PcbData,
    c: Config,
    b: Bands,
    sinks: int,
    recessed: bool,
    of: Cover,
    p: (int, int),
    i: int,
    w: i128,
    k: int,
)
    requires
        makes_model(m, pcb, c, b, sinks, recessed),
        0 <= i < b.count,
        b.floor <= b.opening,
        b.opening - b.floor <= i64::MAX,
        0 <= sinks <= usize::MAX,
        is_band_width(b, i, w as int),
        of(Figure::Board).contains(p),
        !m.plan.area(m.holes, of).contains(p),
    ensures
        0 <= k < pcb.traces_fcu@.len() && of(
            Figure::Stroke {
                start: pcb.traces_fcu@[k].start,
                end: pcb.traces_fcu@[k].end,
                width: w,
            },
        ).contains(p) ==> m.plan.area(m.upper@[i], of).contains(p) && (i == b.count - 1
            ==> !m.plan.area(m.top, of).contains(p)),
        0 <= k < pcb.traces_bcu@.len() && of(
            Figure::Stroke {
                start: pcb.traces_bcu@[k].start,
                end: pcb.traces_bcu@[k].end,
                width: w,
            },
        ).contains(p) ==> m.plan.area(m.lower@[i], of).contains(p) && (i == b.count - 1 && recessed
            ==> !m.plan.area(m.bottom, of).contains(p)),
{
    let n = band_width(b.count as int, b.floor as int, b.opening as int, 0);
    lemma_traces_are_cut_into_their_face(m, pcb, c, b, sinks, recessed, of, p, i, w as int, n);
    lemma_faces_are_left(m, pcb, c, b, sinks, recessed, of, p, 0);
    if 0 <= k < pcb.traces_fcu@.len() {
        let f = Figure::Stroke {
            start: pcb.traces_fcu@[k].start,
            end: pcb.traces_fcu@[k].end,
            width: w,
        };
        assert(pcb.traces_fcu@[k] == pcb.traces_fcu@[k]);
        assert(is_cut(
            f,
            pcb,
            c,
            b,
            sinks,
            pcb.traces_fcu@,
            on_front(),
            i,
            w as int,
            n,
        ));
    }
    if 0 <= k < pcb.traces_bcu@.len() {
        let f = Figure::Stroke {
            start: pcb.traces_bcu@[k].start,
            end: pcb.traces_bcu@[k].end,
            width: w,
        };
        assert(pcb.traces_bcu@[k] == pcb.traces_bcu@[k]);
        assert(is_cut(
            f,
            pcb,
            c,
            b,
            sinks,
            pcb.traces_bcu@,
            on_back(),
            i,
            w as int,
            n,
        ));
    }
}

/// Whether a figure is open in a stencil for copper: over a trace, as wide as a groove
/// with the clearance on both sides, or over a pad with the clearance all round.
pub open spec fn is_open_for_copper(
    f: Figure,
    pcb: PcbData,
    c: Config,
    traces: Seq<Trace>,
    on: spec_fn(Pad) -> bool,
) -> bool {
    ||| exists|k: int|
        0 <= k < traces.len() && f == (Figure::Stroke {
            start: (#[trigger] traces[k]).start,
            end: traces[k].end,
            width: (c.channel_width + 2 * c.stencil_slot_clearance) as i128,
        })
    ||| c.generate_pad_lands && exists|k: int|
        0 <= k < pcb.pads@.len() && on(#[trigger] pcb.pads@[k]) && is_recess(
            f,
            pcb.pads@[k],
            2 * c.stencil_slot_clearance,
        )
}

/// A stencil is open over the traces and the pads of the layer that it is for, and over
/// nothing else that gets copper.
pub proof fn lemma_stencil_opens_its_layer(
    pcb: PcbData,
    c: Config,
    s: Stencil,
    b: BoundingBox,
    of: Cover,
    p: (int, int),
)
    requires
        is_stencil(s, b, c),
    ensures
        grooves(pcb, c, CopperLayer::FCu, s, of).contains(p) == exists|f: Figure| #[trigger]
            is_open_for_copper(f, pcb, c, pcb.traces_fcu@, on_front()) && of(f).contains(p),
        grooves(pcb, c, CopperLayer::BCu, s, of).contains(p) == exists|f: Figure| #[trigger]
            is_open_for_copper(f, pcb, c, pcb.traces_bcu@, on_back()) && of(f).contains(p),
{
    lemma_grooves(pcb, c, CopperLayer::FCu, s, b, of, p);
    lemma_grooves(pcb, c, CopperLayer::BCu, s, b, of, p);
    assert(traces_of(pcb, CopperLayer::FCu) == pcb.traces_fcu@);
    assert(traces_of(pcb, CopperLayer::BCu) == pcb.traces_bcu@);
    assert(on_layer(CopperLayer::FCu) == on_front());
    assert(on_layer(CopperLayer::BCu) == on_back());
}

proof fn lemma_grooves(
    pcb: PcbData,
    c: Config,
    layer: CopperLayer,
    s: Stencil,
    b: BoundingBox,
    of: Cover,
    p: (int, int),
)
    requires
        is_stencil(s, b, c),
    ensures
        grooves(pcb, c, layer, s, of).contains(p) == exists|f: Figure| #[trigger]
            is_open_for_copper(f, pcb, c, traces_of(pcb, layer), on_layer(layer)) && of(f).contains(
                p,
            ),
{
    let w = c.channel_width + 2 * c.stencil_slot_clearance;
    let traces = traces_of(pcb, layer);
    let on = on_layer(layer);
    let along = strokes(traces, w);
    let flat = lands(pcb.pads@, 2 * c.stencil_slot_clearance, layer);
    lemma_merged(along, of, p);
    lemma_merged(flat, of, p);
    assert forall|f: Figure| (along.contains(f) || (c.generate_pad_lands && flat.contains(f)))
        == #[trigger] is_open_for_copper(f, pcb, c, traces, on) by {
        lemma_strokes(traces, w, f);
        lemma_lands(pcb.pads@, 2 * c.stencil_slot_clearance, layer, f);
        lemma_same_pads(pcb.pads@, layer, f, 2 * c.stencil_slot_clearance);
    }
    if grooves(pcb, c, layer, s, of).contains(p) {
        let f = if merged(along, of).contains(p) {
            choose|f: Figure| #[trigger] along.contains(f) && of(f).contains(p)
        } else {
            choose|f: Figure| #[trigger] flat.contains(f) && of(f).contains(p)
        };
        assert(is_open_for_copper(f, pcb, c, traces, on));
    }
    if exists|f: Figure| #[trigger]
        is_open_for_copper(f, pcb, c, traces, on) && of(f).contains(p) {
        let f = choose|f: Figure| #[trigger]
            is_open_for_copper(f, pcb, c, traces, on) && of(f).contains(p);
        assert(along.contains(f) || (c.generate_pad_lands && flat.contains(f)));
    }
}

/// What is drilled, through the board or a stencil, is the holes of vias and, if they are
/// made, those of leads.
pub proof fn lemma_drills_are_vias_and_leads(pcb: PcbData, c: Config, of: Cover, p: (int, int))
    ensures
        drilled(pcb, c, of).contains(p) == exists|f: Figure| #[trigger] of(f).contains(p) && ((exists|
            k: int,
        |
            0 <= k < pcb.vias@.len() && is_disc(
                f,
                (#[trigger] pcb.vias@[k]).center,
                at_least(pcb.vias@[k].drill as int, c.eyelet_diameter as int),
                16,
            )) || (c.generate_pad_holes && exists|k: int|
            0 <= k < pcb.pads@.len() && is_lead_hole(
                f,
                #[trigger] pcb.pads@[k],
                c.pad_hole_diameter as int,
            ))),
{
    let v = via_holes(pcb.vias@, c.eyelet_diameter as int);
    let l = lead_holes(pcb.pads@, c.pad_hole_diameter as int);
    lemma_merged(v, of, p);
    lemma_merged(l, of, p);
    assert forall|f: Figure| #[trigger] of(f).contains(p) implies v.contains(f) == (exists|k: int|
        0 <= k < pcb.vias@.len() && is_disc(
            f,
            (#[trigger] pcb.vias@[k]).center,
            at_least(pcb.vias@[k].drill as int, c.eyelet_diameter as int),
            16,
        )) && l.contains(f) == (exists|k: int|
        0 <= k < pcb.pads@.len() && is_lead_hole(
            f,
            #[trigger] pcb.pads@[k],
            c.pad_hole_diameter as int,
        )) by {
        lemma_via_holes(pcb.vias@, c.eyelet_diameter as int, f);
        lemma_lead_holes(pcb.pads@, c.pad_hole_diameter as int, f);
    }
    if drilled(pcb, c, of).contains(p) {
        let f = if merged(v, of).contains(p) {
            choose|f: Figure| #[trigger] v.contains(f) && of(f).contains(p)
        } else {
            choose|f: Figure| #[trigger] l.contains(f) && of(f).contains(p)
        };
        assert(of(f).contains(p));
    }
}

/// The slots of a stencil are what is to be open within its opening. A plating bus adds
/// its rail, as far as it lies on the board, and its stubs, and takes away its ties.
pub proof fn lemma_slots_are_open(
    open: Set<(int, int)>,
    s: Stencil,
    stubs: Seq<((i64, i64), (i64, i64))>,
    width: i128,
    of: Cover,
    p: (int, int),
)
    ensures
        first_slots(open, s, stubs, width as int, of).contains(p) == ({
            let inside = of(Figure::Frame(s.opening)).contains(p);
            match s.bus {
                None => inside && open.contains(p),
                Some(bus) => {
                    let on_rail = of(Figure::Board).contains(p) && of(
                        Figure::Frame(bus.outer),
                    ).contains(p) && !(bus.inner is Some && of(
                        Figure::Frame(bus.inner->0),
                    ).contains(p));
                    let on_stub = exists|k: int|
                        0 <= k < stubs.len() && of(
                            Figure::Stroke {
                                start: Point2 { x: (#[trigger] stubs[k]).0.0, y: stubs[k].0.1 },
                                end: Point2 { x: stubs[k].1.0, y: stubs[k].1.1 },
                                width,
                            },
                        ).contains(p);
                    let on_tie = exists|k: int|
                        0 <= k < bus.ties@.len() && of(
                            Figure::Frame(#[trigger] bus.ties@[k]),
                        ).contains(p);
                    inside && (open.contains(p) || on_rail || on_stub) && !on_tie
                },
            }
        }),
{
    if let Some(bus) = s.bus {
        let ends = stub_strokes(stubs, width as int);
        let ties = frames(bus.ties@);
        if merged(ends, of).contains(p) {
            let k = choose|k: int| 0 <= k < ends.len() && of(#[trigger] ends[k]).contains(p);
            assert(stubs[k] == stubs[k]);
        }
        if exists|k: int|
            0 <= k < stubs.len() && of(
                Figure::Stroke {
                    start: Point2 { x: (#[trigger] stubs[k]).0.0, y: stubs[k].0.1 },
                    end: Point2 { x: stubs[k].1.0, y: stubs[k].1.1 },
                    width,
                },
            ).contains(p) {
            let k = choose|k: int|
                0 <= k < stubs.len() && of(
                    Figure::Stroke {
                        start: Point2 { x: (#[trigger] stubs[k]).0.0, y: stubs[k].0.1 },
                        end: Point2 { x: stubs[k].1.0, y: stubs[k].1.1 },
                        width,
                    },
                ).contains(p);
            assert(of(ends[k]).contains(p));
        }
        if merged(ties, of).contains(p) {
            let k = choose|k: int| 0 <= k < ties.len() && of(#[trigger] ties[k]).contains(p);
            assert(bus.ties@[k] == bus.ties@[k]);
        }
        if exists|k: int|
            0 <= k < bus.ties@.len() && of(Figure::Frame(#[trigger] bus.ties@[k])).contains(p) {
            let k = choose|k: int|
                0 <= k < bus.ties@.len() && of(Figure::Frame(#[trigger] bus.ties@[k])).contains(p);
            assert(of(ties[k]).contains(p));
        }
    }
}

/// A stencil lies over its board. Held by a ring it is just as large; with a lip its
/// opening is larger by the clearance on every side, and its plate by the wall as well.
/// It has a plating bus exactly if one is asked for, whose rail keeps the inset from every
/// edge of the board.
pub proof fn lemma_stencil_fits_its_board(s: Stencil, b: BoundingBox, c: Config)
    requires
        is_stencil(s, b, c),
    ensures
        c.stencil_mount is Ring ==> s.plate == b && s.opening == b,
        c.stencil_mount is Lip ==> {
            let fit = c.stencil_fit_clearance;
            let wall = c.stencil_wall_thickness;
            &&& b.min_x - s.opening.min_x == fit
            &&& b.min_y - s.opening.min_y == fit
            &&& s.opening.max_x - b.max_x == fit
            &&& s.opening.max_y - b.max_y == fit
            &&& s.opening.min_x - s.plate.min_x == wall
            &&& s.opening.min_y - s.plate.min_y == wall
            &&& s.plate.max_x - s.opening.max_x == wall
            &&& s.plate.max_y - s.opening.max_y == wall
        },
        s.bus is Some == c.stencil_plating_bus,
        s.bus matches Some(bus) ==> {
            &&& bus.outer.min_x == b.min_x + c.bus_inset
            &&& bus.outer.min_y == b.min_y + c.bus_inset
            &&& bus.outer.max_x == b.max_x - c.bus_inset
            &&& bus.inner is Some ==> {
                let i = bus.inner->0;
                &&& bus.outer.max_y == b.max_y - c.bus_inset
                &&& i.min_x - bus.outer.min_x == c.bus_width
                &&& i.min_y - bus.outer.min_y == c.bus_width
                &&& bus.outer.max_x - i.max_x == c.bus_width
                &&& bus.outer.max_y - i.max_y == c.bus_width
            }
            &&& bus.inner is None ==> bus.outer.max_y - bus.outer.min_y == c.bus_width
            &&& c.bus_tie_count > 0 ==> bus.ties@.len() == (if c.bus_tie_count < 4 {
                c.bus_tie_count as int
            } else {
                4
            })
            &&& c.bus_tie_count == 0 ==> bus.ties@.len() == (if b.max_x - b.min_x > 30_000_000
                || b.max_y - b.min_y > 30_000_000 {
                2int
            } else {
                1
            })
        },
{
}

} // verus!
