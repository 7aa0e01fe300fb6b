//! Making a mesh a closed solid: welding, closing gaps, and turning triangles
//! outward.

use crate::caps::{fill_boundary_loops, filled, open_loops, vertices, with_caps, with_fan};
use crate::edges::{edges_of_kind, uses_of, EdgeKind};
use crate::health::{is_report, watertight, MeshReport};
use crate::mesh::{
    all_apart, all_proper, can_weld, is_proper, is_weld, keep_proper, lemma_proper_faces, points_of,
    proper_faces, stands_for, turned, weld, with_point, Face, Mesh, Point3, Triangle, MOST_FACES,
};
use crate::seams::{split_faces, split_passes, split_t_junctions};
use crate::winding::{
    across, can_settle, can_settle_all, lemma_outward, lemma_pieces_add_up, lemma_pieces_settled,
    lemma_settled, lemma_settled_stays, lemma_turned_across, lemma_turned_kinds,
    lemma_turned_proper, orient, outward, outward_turns, piece_volume, seam_pairs, seams,
    settles_piece,
};
use vstd::prelude::*;

verus! {

/// The triangles of a mesh with its gaps closed: those without area dropped, open
/// edges split at the vertices on them, and short loops capped.
pub open spec fn mended(points: Seq<Point3>, faces: Seq<Face>) -> Seq<Face> {
    filled(points, split_passes(points, proper_faces(faces), 8))
}

/// The triangles of a mesh with its gaps closed, turned outward.
pub open spec fn repaired(points: Seq<Point3>, faces: Seq<Face>) -> Seq<Face> {
    outward(points, mended(points, faces))
}

/// Closes the gaps of a mesh and turns its triangles outward. None if it gets too
/// many triangles.
pub fn make_outward_consistent(mesh: Mesh) -> (out: Option<Mesh>)
    requires
        mesh.well_formed(),
    ensures
        out is Some == (mended(mesh.points@, mesh.faces@).len() <= MOST_FACES),
        out matches Some(m) ==> {
            &&& m.well_formed()
            &&& m.points@ == mesh.points@
            &&& m.faces@ == repaired(mesh.points@, mesh.faces@)
            &&& m.faces@.len() <= MOST_FACES
        },
{
    let points = mesh.points;
    let faces = mesh.faces;
    proof {
        lemma_proper_faces(faces@, points@.len() as int);
    }
    let kept = keep_proper(&faces);
    let split = split_t_junctions(&points, kept);
    let closed = fill_boundary_loops(&points, split);
    if closed.len() > MOST_FACES {
        return None;
    }
    let turned = orient(&points, &closed);
    Some(Mesh { points, faces: turned })
}

/// Welds triangles, closes gaps and turns the triangles outward. None if there are
/// too many triangles, or one is too far from the origin.
pub fn repair(triangles: &Vec<Triangle>) -> (out: Option<Mesh>)
    ensures
        out is Some ==> can_weld(triangles@),
        out matches Some(m) ==> {
            &&& m.well_formed()
            &&& m.points@ == points_of(triangles@)
            &&& m.faces@.len() <= MOST_FACES
            &&& exists|welded: Mesh| #[trigger]
                is_weld(welded, triangles@) && m.faces@ == repaired(m.points@, welded.faces@)
        },
        out is None && can_weld(triangles@) ==> exists|welded: Mesh| #[trigger]
            is_weld(welded, triangles@) && mended(welded.points@, welded.faces@).len() > MOST_FACES,
{
    match weld(triangles) {
        None => None,
        Some(mesh) => {
            let ghost welded = mesh;
            let out = make_outward_consistent(mesh);
            proof {
                assert(is_weld(welded, triangles@));
            }
            out
        },
    }
}

proof fn lemma_passes_proper(points: Seq<Point3>, faces: Seq<Face>, passes: nat)
    requires
        all_proper(faces),
    ensures
        all_proper(split_passes(points, faces, passes)),
    decreases passes,
{
    if passes > 0 {
        let pieces = split_faces(points, faces, faces.len() as int);
        lemma_all_kept_proper(pieces);
        lemma_passes_proper(points, proper_faces(pieces), (passes - 1) as nat);
    }
}

proof fn lemma_all_kept_proper(faces: Seq<Face>)
    ensures
        all_proper(proper_faces(faces)),
    decreases faces.len(),
{
    if faces.len() > 0 {
        lemma_all_kept_proper(faces.drop_last());
    }
}

proof fn lemma_fan_proper(faces: Seq<Face>, ring: Seq<int>, upto: int)
    requires
        all_proper(faces),
    ensures
        all_proper(with_fan(faces, ring, upto)),
    decreases upto,
{
    if upto > 2 {
        lemma_fan_proper(faces, ring, upto - 1);
    }
}

proof fn lemma_caps_proper(faces: Seq<Face>, rings: Seq<Seq<int>>)
    requires
        all_proper(faces),
    ensures
        all_proper(with_caps(faces, rings)),
    decreases rings.len(),
{
    if rings.len() > 0 {
        lemma_caps_proper(faces, rings.drop_last());
        lemma_fan_proper(
            with_caps(faces, rings.drop_last()),
            rings.last(),
            rings.last().len() as int,
        );
    }
}

/// The triangles of a mended mesh all have three different corners.
pub proof fn lemma_mended_proper(points: Seq<Point3>, faces: Seq<Face>)
    ensures
        all_proper(mended(points, faces)),
{
    lemma_all_kept_proper(faces);
    let split = split_passes(points, proper_faces(faces), 8);
    lemma_passes_proper(points, proper_faces(faces), 8);
    lemma_caps_proper(split, open_loops(points, split));
}

/// Where neighbours can agree at all, no edge of a repaired mesh is used the same
/// way twice.
pub proof fn lemma_repaired_agrees(points: Seq<Point3>, faces: Seq<Face>)
    requires
        can_settle_all(mended(points, faces)),
    ensures
        edges_of_kind(uses_of(repaired(points, faces)), EdgeKind::Flipped).len() == 0,
{
    let all = mended(points, faces);
    let turns = outward_turns(points, all);
    lemma_mended_proper(points, faces);
    lemma_outward(points, all);
    assert forall|r: int| 0 <= r < all.len() implies #[trigger] settles_piece(
        uses_of(all),
        turns,
        r,
    ) by {
        assert(can_settle(uses_of(all), all.len() as int, r));
    }
    lemma_pieces_settled(all, turns);
    lemma_settled(all, turns);
}

/// Whether a surface is closed: two triangles meet at every edge.
pub open spec fn is_closed(faces: Seq<Face>) -> bool {
    &&& edges_of_kind(uses_of(faces), EdgeKind::Open).len() == 0
    &&& edges_of_kind(uses_of(faces), EdgeKind::Crowded).len() == 0
}

/// Whether some piece of a surface encloses something.
pub open spec fn encloses(points: Seq<Point3>, faces: Seq<Face>) -> bool {
    exists|i: int|
        0 <= i < faces.len() && #[trigger] piece_volume(
            points,
            faces,
            across(uses_of(faces)),
            i,
            faces.len() as int,
        ) != 0
}

proof fn lemma_all_proper_kept(faces: Seq<Face>)
    requires
        all_proper(faces),
    ensures
        proper_faces(faces) == faces,
    decreases faces.len(),
{
    if faces.len() > 0 {
        let front = faces.drop_last();
        assert forall|i: int| 0 <= i < front.len() implies is_proper(#[trigger] front[i]) by {
            assert(front[i] == faces[i]);
        }
        lemma_all_proper_kept(front);
        assert(is_proper(faces[faces.len() - 1]));
        assert(front.push(faces.last()) =~= faces);
    } else {
        assert(proper_faces(faces) =~= faces);
    }
}

/// Nothing is mended of a closed surface without flat triangles.
pub proof fn lemma_closed_kept(points: Seq<Point3>, faces: Seq<Face>)
    requires
        all_proper(faces),
        edges_of_kind(uses_of(faces), EdgeKind::Open).len() == 0,
    ensures
        mended(points, faces) == faces,
{
    lemma_all_proper_kept(faces);
    let open = edges_of_kind(uses_of(faces), EdgeKind::Open);
    assert(split_passes(points, faces, 8) == faces);
    assert(vertices(points, open, open.len() as int).len() == 0);
    assert(open_loops(points, faces).len() == 0);
}

/// The triangles of two welds of the same triangles are the same.
pub proof fn lemma_weld_is_one(a: Mesh, b: Mesh, triangles: Seq<Triangle>)
    requires
        is_weld(a, triangles),
        is_weld(b, triangles),
    ensures
        a.points@ == b.points@,
        a.faces@ == b.faces@,
{
    lemma_points_apart(triangles);
    assert forall|i: int| 0 <= i < triangles.len() implies a.faces@[i] == b.faces@[i] by {
        assert(stands_for(a.points@, a.faces@[i], triangles[i]));
        assert(stands_for(b.points@, b.faces@[i], triangles[i]));
    }
    assert(a.faces@ =~= b.faces@);
}

proof fn lemma_points_apart(triangles: Seq<Triangle>)
    ensures
        all_apart(points_of(triangles)),
    decreases triangles.len(),
{
    if triangles.len() > 0 {
        let t = triangles.last();
        let front = points_of(triangles.drop_last());
        lemma_points_apart(triangles.drop_last());
        lemma_with_point_apart(front, t.a);
        lemma_with_point_apart(with_point(front, t.a), t.b);
        lemma_with_point_apart(with_point(with_point(front, t.a), t.b), t.c);
    }
}

proof fn lemma_with_point_apart(points: Seq<Point3>, p: Point3)
    requires
        all_apart(points),
    ensures
        all_apart(with_point(points, p)),
{
    if !points.contains(p) {
        let out = points.push(p);
        assert forall|i: int, j: int| 0 <= i < j < out.len() implies (#[trigger] out[i]) != (
        #[trigger] out[j]) by {
            assert(out[i] == points[i]);
            assert(points.contains(points[i]));
            if j < points.len() {
                assert(out[j] == points[j]);
            }
        }
    }
}

/// No piece of a repaired mesh is inside out.
proof fn lemma_repaired_volumes(points: Seq<Point3>, faces: Seq<Face>)
    requires
        all_proper(faces),
        is_closed(faces),
    ensures
        all_proper(repaired(points, faces)),
        is_closed(repaired(points, faces)),
        repaired(points, faces).len() == faces.len(),
        forall|i: int|
            0 <= i < faces.len() ==> #[trigger] piece_volume(
                points,
                repaired(points, faces),
                across(uses_of(repaired(points, faces))),
                i,
                faces.len() as int,
            ) >= 0,
{
    lemma_closed_kept(points, faces);
    lemma_outward(points, faces);
    let turns = outward_turns(points, faces);
    lemma_turned_proper(faces, turns);
    lemma_turned_kinds(faces, turns);
    lemma_turned_across(faces, turns);
}

/// A closed surface whose neighbours can agree, and some piece of which encloses
/// something, is repaired to a closed solid: its edges all join two triangles that go
/// along them opposite ways, no piece is inside out, and the whole encloses a volume. The
/// corners of the triangles stay what they were.
pub proof fn lemma_closed_is_watertight(
    points: Seq<Point3>,
    faces: Seq<Face>,
    report: MeshReport,
)
    requires
        all_proper(faces),
        is_closed(faces),
        can_settle_all(faces),
        encloses(points, repaired(points, faces)),
        is_report(report, points, repaired(points, faces)),
    ensures
        watertight(report),
        repaired(points, faces).len() == faces.len(),
        forall|i: int|
            0 <= i < faces.len() ==> (#[trigger] repaired(points, faces)[i]) == faces[i]
                || repaired(points, faces)[i] == turned(faces[i]),
        forall|i: int|
            0 <= i < faces.len() ==> #[trigger] piece_volume(
                points,
                repaired(points, faces),
                across(uses_of(repaired(points, faces))),
                i,
                faces.len() as int,
            ) >= 0,
{
    let out = repaired(points, faces);
    lemma_closed_kept(points, faces);
    lemma_repaired_agrees(points, faces);
    lemma_repaired_volumes(points, faces);
    lemma_all_proper_kept(out);
    let step = across(uses_of(out));
    let w = choose|w: int|
        0 <= w < out.len() && #[trigger] piece_volume(points, out, step, w, out.len() as int) != 0;
    assert(piece_volume(points, out, step, w, out.len() as int) >= 0);
    lemma_pieces_add_up(points, out, seam_pairs(seams(uses_of(out))), out.len() as int, w);
}

/// Repairing a closed surface whose neighbours can agree a second time changes nothing.
pub proof fn lemma_repaired_stays(points: Seq<Point3>, faces: Seq<Face>)
    requires
        all_proper(faces),
        is_closed(faces),
        can_settle_all(faces),
    ensures
        repaired(points, repaired(points, faces)) == repaired(points, faces),
{
    let out = repaired(points, faces);
    lemma_closed_kept(points, faces);
    lemma_repaired_agrees(points, faces);
    lemma_repaired_volumes(points, faces);
    lemma_closed_kept(points, out);
    lemma_settled_stays(points, out);
}

} // verus!
