//! What is measured: where pins come to lie, how grooves narrow, how lengths grow, and what
//! a mesh is found to be.

use crate::choices::ChannelProfile;
use crate::edges::{edges_of, edges_of_kind, lemma_edges_among, uses_of, uses_on, EdgeKind};
use crate::health::{corners, degenerates, is_report, tenths, watertight, MeshReport};
use crate::listing::{lemma_picked_next, picked_next, picks};
use crate::mesh::{proper_faces, Face, Point3};
use crate::pcb::{ArcTrace, CutoutShape, Point2};
use crate::placing::{on_sheet, pin_numbered, spots_of, PinModel};
use crate::profile::{band_count, band_depth, band_width, floor_width, land_size};
use crate::reading::{PadModel, ViaModel};
use crate::scaling::{scaled, scaled_arc, scaled_cutout, scaled_pad, scaled_point, scaled_via};
use vstd::prelude::*;

verus! {

/// Whether a number is another in billionths, to the nearest whole one.
pub open spec fn is_nearest(n: int, billionths: int) -> bool {
    -500_000_000 <= 1_000_000_000 * n - billionths <= 500_000_000
}

/// A pin lies where turning it about the middle of its symbol brings it, as far from there
/// as the symbol is placed.
pub proof fn lemma_pin_turns_with_its_symbol(p: PinModel, at: (int, int, int), cos: int, sin: int)
    ensures
        is_nearest(on_sheet(p, at, cos, sin).0 - at.0, p.x * cos - p.y * sin),
        is_nearest(on_sheet(p, at, cos, sin).1 - at.1, p.x * sin + p.y * cos),
{
}

/// The pins that stay on a sheet.
pub open spec fn stays(pins: Seq<PinModel>, at: (int, int, int), cos: int, sin: int) -> spec_fn(
    int,
) -> bool {
    |i: int|
        {
            let q = on_sheet(pins[i], at, cos, sin);
            i64::MIN <= q.0 <= i64::MAX && i64::MIN <= q.1 <= i64::MAX
        }
}

/// All pins that stay on the sheet are told, in their order, with their number, their name
/// and where they lie.
pub proof fn lemma_pins_are_told(pins: Seq<PinModel>, at: (int, int, int), cos: int, sin: int) -> (on:
    Seq<int>)
    ensures
        picks(on, pins.len() as int, stays(pins, at, cos, sin)),
        spots_of(pins, at, cos, sin).len() == on.len(),
        forall|k: int|
            0 <= k < on.len() ==> {
                let s = #[trigger] spots_of(pins, at, cos, sin)[k];
                let p = pins[on[k]];
                &&& s.0 == p.number
                &&& s.1 == p.name
                &&& is_nearest(s.2 - at.0, p.x * cos - p.y * sin)
                &&& is_nearest(s.3 - at.1, p.x * sin + p.y * cos)
            },
    decreases pins.len(),
{
    if pins.len() == 0 {
        Seq::empty()
    } else {
        let front = pins.drop_last();
        let on = lemma_pins_are_told(front, at, cos, sin);
        let n = pins.len() - 1;
        let p = stays(pins, at, cos, sin);
        lemma_picked_next(on, n, stays(front, at, cos, sin), p);
        let more = picked_next(on, n, p);
        lemma_pin_turns_with_its_symbol(pins.last(), at, cos, sin);
        let old = spots_of(front, at, cos, sin);
        let new = spots_of(pins, at, cos, sin);
        assert forall|k: int| 0 <= k < more.len() implies {
            let s = #[trigger] new[k];
            let p = pins[more[k]];
            &&& s.0 == p.number
            &&& s.1 == p.name
            &&& is_nearest(s.2 - at.0, p.x * cos - p.y * sin)
            &&& is_nearest(s.3 - at.1, p.x * sin + p.y * cos)
        } by {
            if k < on.len() {
                assert(new[k] == old[k]);
                assert(front[on[k]] == pins[on[k]]);
            }
        }
        more
    }
}

/// A pin is looked up by its number; the first that has it is told, and none only if none
/// has it.
pub proof fn lemma_pin_is_found_by_number(
    list: Seq<(Seq<char>, Seq<char>, int, int)>,
    number: Seq<char>,
    from: int,
)
    requires
        0 <= from <= list.len(),
    ensures
        match pin_numbered(list, number, from) {
            Some(i) => {
                &&& from <= i < list.len()
                &&& list[i].0 == number
                &&& forall|j: int| from <= j < i ==> (#[trigger] list[j]).0 != number
            },
            None => forall|j: int| from <= j < list.len() ==> (#[trigger] list[j]).0 != number,
        },
    decreases list.len() - from,
{
    if from < list.len() && list[from].0 != number {
        lemma_pin_is_found_by_number(list, number, from + 1);
    }
}

/// The floor of a groove: as wide as the opening for straight walls; for sloped ones as
/// asked for, but never wider than the opening, and no narrower than 0.4 mm unless the
/// opening is; for a vee 0.1 mm at most.
pub proof fn lemma_floor_fits_its_opening(width: int, floor: int)
    ensures
        floor_width(ChannelProfile::Rect, width, floor) == width,
        floor_width(ChannelProfile::Trapezoid, width, floor) <= width,
        width >= 400_000 ==> floor_width(ChannelProfile::Trapezoid, width, floor) >= 400_000,
        width < 400_000 ==> floor_width(ChannelProfile::Trapezoid, width, floor) == width,
        400_000 <= floor <= width ==> floor_width(ChannelProfile::Trapezoid, width, floor) == floor,
        width >= 100_000 ==> floor_width(ChannelProfile::Vee, width, floor) == 100_000,
        width < 100_000 ==> floor_width(ChannelProfile::Vee, width, floor) == width,
{
}

/// A taper has as many bands as slices are begun in its depth, but one at least and eight at
/// most.
pub proof fn lemma_bands_cover_the_depth(depth: int, slice: int)
    requires
        depth > 0,
        slice > 0,
    ensures
        1 <= band_count(depth, slice) <= 8,
        band_count(depth, slice) < 8 ==> band_count(depth, slice) * slice >= depth,
        (band_count(depth, slice) - 1) * slice < depth,
{
    let n = (depth + slice - 1) / slice;
    assert(n * slice <= depth + slice - 1 < (n + 1) * slice) by (nonlinear_arith)
        requires
            n == (depth + slice - 1) / slice,
            slice > 0,
    ;
    assert((n + 1) * slice == n * slice + slice) by (nonlinear_arith);
    assert((n - 1) * slice == n * slice - slice) by (nonlinear_arith);
    assert(n >= 1) by (nonlinear_arith)
        requires
            (n + 1) * slice > depth + slice - 1,
            slice > 0,
            depth > 0,
    ;
    if n > 8 {
        assert(7 * slice <= (n - 1) * slice) by (nonlinear_arith)
            requires
                n > 8,
                slice > 0,
        ;
    }
}

/// The bands of a groove go evenly from the floor to the opening, and those of a cone from
/// its depth to the face.
pub proof fn lemma_bands_are_even(count: int, floor: int, opening: int, depth: int, i: int)
    requires
        count > 1,
        0 <= i < count,
    ensures
        band_width(count, floor, opening, 0) == floor,
        band_width(count, floor, opening, count - 1) == opening,
        0 <= (opening - floor) * i - (count - 1) * (band_width(count, floor, opening, i) - floor) < count
            - 1,
        band_depth(count, depth, 0) == depth,
        band_depth(count, depth, count - 1) == 0,
        0 <= depth * (count - 1 - i) - (count - 1) * band_depth(count, depth, i) < count - 1,
{
    let n = count - 1;
    let x = opening - floor;
    assert(x * 0 / n == 0 && x * n / n == x && depth * n / n == depth && depth * 0 / n == 0)
        by (nonlinear_arith)
        requires
            n > 0,
    ;
    let a = x * i;
    let b = depth * (n - i);
    assert(0 <= a - n * (a / n) < n) by (nonlinear_arith)
        requires
            n > 0,
    ;
    assert(0 <= b - n * (b / n) < n) by (nonlinear_arith)
        requires
            n > 0,
    ;
}

/// A pad has a recess if it has a size and the recess can be printed; the recess is larger
/// than the pad by the margin, both ways.
pub proof fn lemma_land_is_the_pad_and_a_margin(width: int, height: int, margin: int)
    ensures
        (land_size(width, height, margin) is Some) == (width > 0 && height > 0 && width + margin
            >= 400_000 && height + margin >= 400_000),
        land_size(width, height, margin) matches Some(s) ==> s.0 - width == margin && s.1 - height
            == margin,
{
}

/// Whether a length is another one times a factor in millionths, to the nearest whole unit.
pub open spec fn is_scaled(m: int, n: int, f: int) -> bool {
    -500_000 <= 1_000_000 * m - n * f <= 500_000
}

/// Whether a length stays in range when it is scaled.
pub open spec fn can_scale(n: int, f: int) -> bool {
    i64::MIN * 1_000_000 <= n * f <= i64::MAX * 1_000_000
}

proof fn lemma_is_scaled(n: int, f: int)
    requires
        can_scale(n, f),
    ensures
        is_scaled(scaled(n, f), n, f),
        i64::MIN <= scaled(n, f) <= i64::MAX,
{
}

proof fn lemma_point_is_scaled(p: Point2, f: int)
    requires
        can_scale(p.x as int, f),
        can_scale(p.y as int, f),
    ensures
        is_scaled(scaled_point(p, f).x as int, p.x as int, f),
        is_scaled(scaled_point(p, f).y as int, p.y as int, f),
{
    lemma_is_scaled(p.x as int, f);
    lemma_is_scaled(p.y as int, f);
}

/// A via at another size is where it was, scaled, and its drill is scaled too; it stays on
/// its net.
pub proof fn lemma_via_is_scaled(v: ViaModel, f: int)
    requires
        can_scale(v.center.x as int, f),
        can_scale(v.center.y as int, f),
        can_scale(v.drill, f),
    ensures
        ({
            let w = scaled_via(v, f);
            &&& is_scaled(w.center.x as int, v.center.x as int, f)
            &&& is_scaled(w.center.y as int, v.center.y as int, f)
            &&& is_scaled(w.drill, v.drill, f)
            &&& w.net_name == v.net_name
        }),
{
    lemma_point_is_scaled(v.center, f);
    lemma_is_scaled(v.drill, f);
}

/// A pad at another size is where it was, scaled, and so are its sides and its hole; all
/// else of it stays.
pub proof fn lemma_pad_is_scaled(p: PadModel, f: int)
    requires
        can_scale(p.center.x as int, f),
        can_scale(p.center.y as int, f),
        can_scale(p.width, f),
        can_scale(p.height, f),
        can_scale(p.drill, f),
        can_scale(p.drill_h, f),
    ensures
        ({
            let q = scaled_pad(p, f);
            &&& is_scaled(q.center.x as int, p.center.x as int, f)
            &&& is_scaled(q.center.y as int, p.center.y as int, f)
            &&& is_scaled(q.width, p.width, f)
            &&& is_scaled(q.height, p.height, f)
            &&& is_scaled(q.drill, p.drill, f)
            &&& is_scaled(q.drill_h, p.drill_h, f)
            &&& q.number == p.number
            &&& q.shape == p.shape
            &&& q.rotation == p.rotation
            &&& q.on_fcu == p.on_fcu
            &&& q.on_bcu == p.on_bcu
            &&& q.net_name == p.net_name
        }),
{
    lemma_point_is_scaled(p.center, f);
    lemma_is_scaled(p.width, f);
    lemma_is_scaled(p.height, f);
    lemma_is_scaled(p.drill, f);
    lemma_is_scaled(p.drill_h, f);
}

/// An arc at another size goes through the same points, scaled, on its layer.
pub proof fn lemma_arc_is_scaled(t: ArcTrace, f: int)
    requires
        can_scale(t.start.x as int, f),
        can_scale(t.start.y as int, f),
        can_scale(t.mid.x as int, f),
        can_scale(t.mid.y as int, f),
        can_scale(t.end.x as int, f),
        can_scale(t.end.y as int, f),
        can_scale(t.width as int, f),
    ensures
        ({
            let u = scaled_arc(t, f);
            &&& u.layer == t.layer
            &&& is_scaled(u.start.x as int, t.start.x as int, f)
            &&& is_scaled(u.start.y as int, t.start.y as int, f)
            &&& is_scaled(u.mid.x as int, t.mid.x as int, f)
            &&& is_scaled(u.mid.y as int, t.mid.y as int, f)
            &&& is_scaled(u.end.x as int, t.end.x as int, f)
            &&& is_scaled(u.end.y as int, t.end.y as int, f)
            &&& is_scaled(u.width as int, t.width as int, f)
        }),
{
    lemma_point_is_scaled(t.start, f);
    lemma_point_is_scaled(t.mid, f);
    lemma_point_is_scaled(t.end, f);
    lemma_is_scaled(t.width as int, f);
}

/// A cutout at another size keeps its form and its turn.
pub proof fn lemma_cutout_is_scaled(c: CutoutShape, f: int)
    ensures
        match c {
            CutoutShape::Rect { center, half_width, half_height, rotation } => {
                can_scale(center.x as int, f) && can_scale(center.y as int, f) && can_scale(
                    half_width as int,
                    f,
                ) && can_scale(half_height as int, f) ==> {
                    &&& scaled_cutout(c, f) matches CutoutShape::Rect {
                        center: d,
                        half_width: w,
                        half_height: h,
                        rotation: r,
                    }
                    &&& is_scaled(d.x as int, center.x as int, f)
                    &&& is_scaled(d.y as int, center.y as int, f)
                    &&& is_scaled(w as int, half_width as int, f)
                    &&& is_scaled(h as int, half_height as int, f)
                    &&& r == rotation
                }
            },
            CutoutShape::Circle { center, radius } => {
                can_scale(center.x as int, f) && can_scale(center.y as int, f) && can_scale(
                    radius as int,
                    f,
                ) ==> {
                    &&& scaled_cutout(c, f) matches CutoutShape::Circle { center: d, radius: s }
                    &&& is_scaled(d.x as int, center.x as int, f)
                    &&& is_scaled(d.y as int, center.y as int, f)
                    &&& is_scaled(s as int, radius as int, f)
                }
            },
        },
{
}

/// The triangles that have two corners in one vertex.
pub open spec fn is_flat(faces: Seq<Face>) -> spec_fn(int) -> bool {
    |i: int| faces[i].a == faces[i].b || faces[i].b == faces[i].c || faces[i].c == faces[i].a
}

/// Triangles without area are all those that have two corners in one vertex.
pub proof fn lemma_flat_triangles_are_counted(faces: Seq<Face>) -> (at: Seq<int>)
    ensures
        picks(at, faces.len() as int, is_flat(faces)),
        degenerates(faces) == at.len(),
    decreases faces.len(),
{
    if faces.len() == 0 {
        Seq::empty()
    } else {
        let front = faces.drop_last();
        let at = lemma_flat_triangles_are_counted(front);
        lemma_picked_next(at, faces.len() - 1, is_flat(front), is_flat(faces));
        picked_next(at, faces.len() - 1, is_flat(faces))
    }
}

/// The vertices that a triangle has a corner in.
pub open spec fn is_used(faces: Seq<Face>) -> spec_fn(int) -> bool {
    |v: int|
        exists|i: int|
            0 <= i < faces.len() && ((#[trigger] faces[i]).a == v || faces[i].b == v || faces[i].c == v)
}

/// The vertices that are counted are all those that a triangle has a corner in.
pub proof fn lemma_used_vertices_are_counted(faces: Seq<Face>, n: nat) -> (at: Seq<int>)
    ensures
        picks(at, n as int, is_used(faces)),
        corners(faces, n as int) == at.len(),
    decreases n,
{
    if n == 0 {
        Seq::empty()
    } else {
        let m = (n - 1) as nat;
        let p = is_used(faces);
        let at = lemma_used_vertices_are_counted(faces, m);
        lemma_picked_next(at, m as int, p, p);
        assert(p(m as int) == crate::seams::is_corner(faces, m as int)) by {
            if p(m as int) {
                let i = choose|i: int|
                    0 <= i < faces.len() && ((#[trigger] faces[i]).a == m || faces[i].b == m || faces[i].c
                        == m);
                assert(crate::seams::has_corner(faces[i], m as int));
            }
            if crate::seams::is_corner(faces, m as int) {
                let i = choose|i: int|
                    0 <= i < faces.len() && crate::seams::has_corner(#[trigger] faces[i], m as int);
                assert(faces[i].a == m || faces[i].b == m || faces[i].c == m);
            }
        }
        picked_next(at, m as int, p)
    }
}

/// A mesh in which two triangles meet at every edge and go along it opposite ways, and that
/// encloses a volume, is found to be closed.
pub proof fn lemma_paired_mesh_is_watertight(report: MeshReport, points: Seq<Point3>, faces: Seq<Face>)
    requires
        is_report(report, points, faces),
        report.six_volume > 0,
        forall|e: (int, int)| #[trigger]
            edges_of(uses_of(proper_faces(faces))).contains(e) ==> {
                let uses = uses_on(uses_of(proper_faces(faces)), e);
                &&& uses.len() == 2
                &&& uses[0].1 == uses[1].2
                &&& uses[0].2 == uses[1].1
                &&& uses[0].1 != uses[0].2
            },
    ensures
        watertight(report),
{
    let list = uses_of(proper_faces(faces));
    lemma_no_such_edge(list, EdgeKind::Open);
    lemma_no_such_edge(list, EdgeKind::Crowded);
    lemma_no_such_edge(list, EdgeKind::Flipped);
}

proof fn lemma_no_such_edge(list: Seq<(int, int, int)>, kind: EdgeKind)
    requires
        kind != EdgeKind::Paired,
        forall|e: (int, int)| #[trigger]
            edges_of(list).contains(e) ==> {
                let uses = uses_on(list, e);
                &&& uses.len() == 2
                &&& uses[0].1 == uses[1].2
                &&& uses[0].2 == uses[1].1
                &&& uses[0].1 != uses[0].2
            },
    ensures
        edges_of_kind(list, kind).len() == 0,
{
    let found = edges_of_kind(list, kind);
    if found.len() > 0 {
        let e = found[0];
        assert(found.contains(e));
        lemma_edges_among(edges_of(list), list, kind, e);
        assert(edges_of(list).contains(e));
    }
}

/// A mesh with an edge that only one triangle has is not found to be closed.
pub proof fn lemma_open_mesh_is_not_watertight(
    report: MeshReport,
    points: Seq<Point3>,
    faces: Seq<Face>,
    e: (int, int),
)
    requires
        is_report(report, points, faces),
        edges_of(uses_of(proper_faces(faces))).contains(e),
        uses_on(uses_of(proper_faces(faces)), e).len() != 2,
    ensures
        !watertight(report),
{
    let list = uses_of(proper_faces(faces));
    let kind = crate::edges::kind_of(uses_on(list, e));
    lemma_edges_among(edges_of(list), list, kind, e);
    let found = edges_of_kind(list, kind);
    assert(found.contains(e));
    assert(found.len() > 0);
}

/// A volume is told in tenths of a cubic millimetre, to the nearest; six times a cubic
/// millimetre are 6 000 000 000 000 cubes of the grid.
pub proof fn lemma_volume_is_to_the_nearest(six_volume: int)
    ensures
        six_volume >= 0 ==> -300_000_000_000 <= six_volume - 600_000_000_000 * tenths(six_volume)
            <= 300_000_000_000,
        tenths(-six_volume) == tenths(six_volume),
{
}

} // verus!
