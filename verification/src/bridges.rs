//! Ties that hold the pieces of a stencil which its plating bus cuts off.

use crate::bodies::{int_lists, loose, loose_bodies};
use crate::distance::{in_reach, point, reachable, FAR};
use crate::edges::uses_of;
use crate::graph::{are_groups, Groups};
use crate::mesh::{can_weld, is_weld, weld, Face, Mesh, Point3, Triangle};
use crate::pcb::BoundingBox;
use crate::seams::ints;
use crate::solid::{add_flat, all_well_formed, faces_of, Shape};
use crate::stencil::{
    corners, fits_rail, nearest_point, rail_tie_rect, tie_over, tie_reach, tie_target, Rail,
};
use crate::winding::{seam_pairs, seams};
use vstd::prelude::*;

verus! {

/// How many nanometres a step of a mesh is.
pub const STEP: i64 = 100;

/// Twice the area below which a loose piece is a sliver, in square steps: that of a
/// square millimetre.
pub const SLIVER: i128 = 200_000_000;

/// Where a vertex is on the board; `origin` is where the mesh has its own.
pub open spec fn on_board(p: Point3, origin: (i64, i64)) -> (i64, i64) {
    ((p.x * STEP + origin.0) as i64, (p.y * STEP + origin.1) as i64)
}

/// The corners of the listed triangles.
pub open spec fn corners_of(
    points: Seq<Point3>,
    faces: Seq<Face>,
    body: Seq<int>,
    origin: (i64, i64),
) -> Seq<(i64, i64)>
    decreases body.len(),
{
    if body.len() == 0 {
        Seq::empty()
    } else {
        let f = faces[body.last()];
        corners_of(points, faces, body.drop_last(), origin) + seq![
            on_board(points[f.a as int], origin),
            on_board(points[f.b as int], origin),
            on_board(points[f.c as int], origin),
        ]
    }
}

/// Whether all corners of a piece are within reach.
pub open spec fn is_within(corners: Seq<(i64, i64)>) -> bool {
    forall|i: int| 0 <= i < corners.len() ==> in_reach(point(#[trigger] corners[i]))
}

/// Whether all corners of the pieces are within reach.
pub open spec fn are_within(
    points: Seq<Point3>,
    faces: Seq<Face>,
    bodies: Seq<Seq<int>>,
    origin: (i64, i64),
) -> bool {
    forall|i: int|
        0 <= i < bodies.len() ==> is_within(corners_of(points, faces, #[trigger] bodies[i], origin))
}

/// How a bus is laid: its rail, how wide it and its ties are, and how far ties reach
/// beyond it.
#[derive(Clone, Copy, Debug)]
pub struct Crossing {
    pub rail: Rail,
    pub bus_width: i64,
    pub tie_width: i64,
    pub pad: i64,
}

/// Whether ties can be laid across.
pub open spec fn fits_crossing(x: Crossing) -> bool {
    &&& fits_rail(x.rail)
    &&& 0 <= x.bus_width <= FAR
    &&& 0 <= x.tie_width <= FAR
    &&& 0 <= x.pad <= FAR
}

/// The corner of a piece at which it is tied, if it lies along the rail.
pub open spec fn tied_at(corners: Seq<(i64, i64)>, x: Crossing) -> Option<(i64, i64)> {
    match nearest_point(corners, x.rail, Some(tie_reach(x.bus_width as int))) {
        Some(i) => Some(corners[i]),
        None => None,
    }
}

/// The ties of pieces, each across the rail; a piece away from the rail gets none.
pub open spec fn ties_of(
    points: Seq<Point3>,
    faces: Seq<Face>,
    bodies: Seq<Seq<int>>,
    origin: (i64, i64),
    x: Crossing,
) -> Seq<(int, int, int, int)>
    decreases bodies.len(),
{
    if bodies.len() == 0 {
        Seq::empty()
    } else {
        let front = ties_of(points, faces, bodies.drop_last(), origin, x);
        match tied_at(corners_of(points, faces, bodies.last(), origin), x) {
            Some(p) => front.push(
                tie_over(x.rail, x.bus_width as int, x.tie_width as int, x.pad as int, point(p)),
            ),
            None => front,
        }
    }
}

pub open spec fn boxes(list: Seq<BoundingBox>) -> Seq<(int, int, int, int)> {
    list.map_values(|b: BoundingBox| corners(b))
}

fn read_corners(mesh: &Mesh, body: &Vec<usize>, origin: (i64, i64)) -> (out: Vec<(i64, i64)>)
    requires
        mesh.well_formed(),
        in_reach(point(origin)),
        forall|k: int| 0 <= k < body@.len() ==> (#[trigger] body@[k]) < mesh.faces@.len(),
    ensures
        out@ == corners_of(mesh.points@, mesh.faces@, ints(body@), origin),
{
    let ghost all = ints(body@);
    let mut out: Vec<(i64, i64)> = Vec::new();
    let mut k: usize = 0;
    proof {
        assert(all.take(0).len() == 0);
    }
    while k < body.len()
        invariant
            k <= body@.len(),
            mesh.well_formed(),
            in_reach(point(origin)),
            all == ints(body@),
            forall|k: int| 0 <= k < body@.len() ==> (#[trigger] body@[k]) < mesh.faces@.len(),
            out@ == corners_of(mesh.points@, mesh.faces@, all.take(k as int), origin),
        decreases body@.len() - k,
    {
        let f = mesh.faces[body[k]];
        proof {
            assert(all.take(k + 1).drop_last() =~= all.take(k as int));
            assert(all.take(k + 1).last() == body@[k as int] as int);
            assert(crate::mesh::fits(mesh.faces@[body@[k as int] as int], mesh.points@.len() as int));
            assert(crate::mesh::in_reach(mesh.points@[f.a as int]));
            assert(crate::mesh::in_reach(mesh.points@[f.b as int]));
            assert(crate::mesh::in_reach(mesh.points@[f.c as int]));
        }
        let (a, b, c) = (mesh.points[f.a], mesh.points[f.b], mesh.points[f.c]);
        let ghost done = out@;
        out.push((a.x * STEP + origin.0, a.y * STEP + origin.1));
        out.push((b.x * STEP + origin.0, b.y * STEP + origin.1));
        out.push((c.x * STEP + origin.0, c.y * STEP + origin.1));
        proof {
            assert(out@ =~= done + seq![
                on_board(a, origin),
                on_board(b, origin),
                on_board(c, origin),
            ]);
        }
        k += 1;
    }
    proof {
        assert(all.take(all.len() as int) =~= all);
    }
    out
}

fn test_within(list: &Vec<(i64, i64)>) -> (yes: bool)
    ensures
        yes == is_within(list@),
{
    let mut i: usize = 0;
    while i < list.len()
        invariant
            i <= list@.len(),
            forall|j: int| 0 <= j < i ==> in_reach(point(#[trigger] list@[j])),
        decreases list@.len() - i,
    {
        if !reachable(list[i]) {
            proof {
                assert(!in_reach(point(list@[i as int])));
            }
            return false;
        }
        i += 1;
    }
    true
}

/// The ties of a stencil, and how many of its loose pieces got none.
#[derive(Debug)]
pub struct Bridges {
    pub ties: Vec<BoundingBox>,
    pub unbridged: usize,
}

/// Whether ties are those of the loose pieces of a plate, slivers aside; `parts` says
/// what is in one piece.
pub open spec fn are_bridges(
    b: Bridges,
    mesh: Mesh,
    parts: Groups,
    origin: (i64, i64),
    x: Crossing,
) -> bool {
    let bodies = loose(mesh.points@, mesh.faces@, parts, SLIVER as int);
    &&& boxes(b.ties@) == ties_of(mesh.points@, mesh.faces@, bodies, origin, x)
    &&& b.ties@.len() + b.unbridged == bodies.len()
}

fn tie_bodies(mesh: &Mesh, bodies: &Vec<Vec<usize>>, origin: (i64, i64), x: &Crossing) -> (out: Option<
    Bridges,
>)
    requires
        mesh.well_formed(),
        in_reach(point(origin)),
        fits_crossing(*x),
        forall|g: int, k: int|
            0 <= g < bodies@.len() && 0 <= k < bodies@[g]@.len() ==> (#[trigger] bodies@[g]@[k])
                < mesh.faces@.len(),
    ensures
        ({
            let all = int_lists(bodies@);
            &&& out is Some == are_within(mesh.points@, mesh.faces@, all, origin)
            &&& out matches Some(b) ==> {
                &&& boxes(b.ties@) == ties_of(mesh.points@, mesh.faces@, all, origin, *x)
                &&& b.ties@.len() + b.unbridged == all.len()
            }
        }),
{
    let ghost all = int_lists(bodies@);
    let mut ties: Vec<BoundingBox> = Vec::new();
    let mut unbridged: usize = 0;
    let mut i: usize = 0;
    proof {
        assert(all.take(0).len() == 0);
        assert(boxes(ties@) =~= Seq::<(int, int, int, int)>::empty());
    }
    while i < bodies.len()
        invariant
            i <= bodies@.len(),
            mesh.well_formed(),
            in_reach(point(origin)),
            fits_crossing(*x),
            all == int_lists(bodies@),
            forall|g: int, k: int|
                0 <= g < bodies@.len() && 0 <= k < bodies@[g]@.len() ==> (
                #[trigger] bodies@[g]@[k]) < mesh.faces@.len(),
            are_within(mesh.points@, mesh.faces@, all.take(i as int), origin),
            boxes(ties@) == ties_of(mesh.points@, mesh.faces@, all.take(i as int), origin, *x),
            ties@.len() + unbridged == i,
        decreases bodies@.len() - i,
    {
        let body = &bodies[i];
        let ghost next = all.take(i + 1);
        proof {
            assert(next.drop_last() =~= all.take(i as int));
            assert(next.last() == ints(body@));
            assert(all[i as int] == ints(body@));
            assert forall|k: int| 0 <= k < body@.len() implies (#[trigger] body@[k])
                < mesh.faces@.len() by {
                assert(bodies@[i as int]@[k] < mesh.faces@.len());
            }
        }
        let list = read_corners(mesh, body, origin);
        if !test_within(&list) {
            proof {
                assert(!is_within(corners_of(mesh.points@, mesh.faces@, all[i as int], origin)));
            }
            return None;
        }
        proof {
            assert forall|j: int| 0 <= j < next.len() implies is_within(
                corners_of(mesh.points@, mesh.faces@, #[trigger] next[j], origin),
            ) by {
                if j < i {
                    assert(next[j] == all.take(i as int)[j]);
                }
            }
        }
        match tie_target(&list, &x.rail, x.bus_width) {
            Some(p) => {
                proof {
                    let k = nearest_point(list@, x.rail, Some(tie_reach(x.bus_width as int)));
                    lemma_nearest(list@, x.rail, Some(tie_reach(x.bus_width as int)));
                    assert(in_reach(point(list@[k->0])));
                }
                let ghost done = ties@;
                let tie = rail_tie_rect(&x.rail, x.bus_width, x.tie_width, x.pad, p);
                ties.push(tie);
                proof {
                    assert(boxes(ties@) =~= boxes(done).push(corners(tie)));
                }
            },
            None => {
                unbridged += 1;
            },
        }
        i += 1;
    }
    proof {
        assert(all.take(all.len() as int) =~= all);
    }
    Some(Bridges { ties, unbridged })
}

proof fn lemma_nearest(points: Seq<(i64, i64)>, rail: Rail, most: Option<int>)
    ensures
        nearest_point(points, rail, most) matches Some(i) ==> 0 <= i < points.len(),
    decreases points.len(),
{
    if points.len() > 0 {
        lemma_nearest(points.drop_last(), rail, most);
    }
}

/// Ties the loose pieces of a plate across the rail of its bus. `face` is what is left
/// of the plate, and `origin` where its shapes have their own origin on the board. None
/// if the plate is too large, or a piece is out of reach.
pub fn bridge_loose_bodies(face: &Vec<Shape>, origin: (i64, i64), x: &Crossing) -> (out: Option<
    Bridges,
>)
    requires
        all_well_formed(face@),
        in_reach(point(origin)),
        fits_crossing(*x),
    ensures
        !can_weld(faces_of(face@, 0, true)) ==> out is None,
        can_weld(faces_of(face@, 0, true)) ==> exists|mesh: Mesh, parts: Groups| #[trigger]
            are_groups(
                parts,
                mesh.faces@.len() as int,
                seam_pairs(seams(uses_of(mesh.faces@))),
            ) && is_weld(mesh, faces_of(face@, 0, true)) && (out is Some == are_within(
                mesh.points@,
                mesh.faces@,
                loose(mesh.points@, mesh.faces@, parts, SLIVER as int),
                origin,
            )) && (out matches Some(b) ==> are_bridges(b, mesh, parts, origin, *x)),
{
    let mut triangles: Vec<Triangle> = Vec::new();
    add_flat(&mut triangles, face, 0, true);
    proof {
        assert(triangles@ =~= faces_of(face@, 0, true));
    }
    match weld(&triangles) {
        None => None,
        Some(mesh) => {
            let bodies = loose_bodies(&mesh, SLIVER);
            let out = tie_bodies(&mesh, &bodies, origin, x);
            proof {
                let parts = choose|parts: Groups| #[trigger]
                    are_groups(
                        parts,
                        mesh.faces@.len() as int,
                        seam_pairs(seams(uses_of(mesh.faces@))),
                    ) && int_lists(bodies@) == loose(
                        mesh.points@,
                        mesh.faces@,
                        parts,
                        SLIVER as int,
                    );
                assert(are_groups(
                    parts,
                    mesh.faces@.len() as int,
                    seam_pairs(seams(uses_of(mesh.faces@))),
                ));
            }
            out
        },
    }
}

/// There are no more ties than loose pieces; a plate in one piece needs none.
pub proof fn lemma_ties_at_most(
    points: Seq<Point3>,
    faces: Seq<Face>,
    bodies: Seq<Seq<int>>,
    origin: (i64, i64),
    x: Crossing,
)
    ensures
        ties_of(points, faces, bodies, origin, x).len() <= bodies.len(),
        bodies.len() == 0 ==> ties_of(points, faces, bodies, origin, x).len() == 0,
    decreases bodies.len(),
{
    if bodies.len() > 0 {
        lemma_ties_at_most(points, faces, bodies.drop_last(), origin, x);
    }
}

} // verus!
