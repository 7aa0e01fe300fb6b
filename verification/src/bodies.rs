//! Plate regions that print as loose bodies.
//!
//! What is in one piece is told by triangles that share an edge: regions that touch
//! in a point alone have no strength there, and come apart.

use crate::edges::{edge_table, uses_of};
use crate::graph::{are_groups, groups, Groups};
use crate::health::lemma_uses_bounds;
use crate::mesh::{all_fit, all_in_reach, fits, in_reach, Face, Mesh, Point3, MOST_FACES};
use crate::seams::ints;
use crate::units::magnitude;
use crate::winding::{read_seams, seam_pairs, seams};
use vstd::prelude::*;

verus! {

/// Twice the area of a triangle in the plane.
pub open spec fn twice_area(points: Seq<Point3>, f: Face) -> int {
    let (a, b, c) = (points[f.a as int], points[f.b as int], points[f.c as int]);
    magnitude((b.x - a.x) * (c.y - a.y) - (c.x - a.x) * (b.y - a.y))
}

/// Twice the area of those of the first `upto` triangles that carry a label.
pub open spec fn body_area(
    points: Seq<Point3>,
    faces: Seq<Face>,
    label: Seq<usize>,
    g: int,
    upto: int,
) -> int
    decreases upto,
{
    if upto <= 0 {
        0
    } else {
        body_area(points, faces, label, g, upto - 1) + if label[upto - 1] == g {
            twice_area(points, faces[upto - 1])
        } else {
            0
        }
    }
}

/// Which of the first `upto` bodies has the greatest area; of equals, the last.
pub open spec fn largest(areas: spec_fn(int) -> int, upto: int) -> int
    decreases upto,
{
    if upto <= 1 {
        0
    } else {
        let known = largest(areas, upto - 1);
        if areas(upto - 1) >= areas(known) {
            upto - 1
        } else {
            known
        }
    }
}

/// The areas of bodies.
pub open spec fn areas_of(points: Seq<Point3>, faces: Seq<Face>, label: Seq<usize>) -> spec_fn(
    int,
) -> int {
    |g: int| body_area(points, faces, label, g, faces.len() as int)
}

/// Those of the first `upto` triangles that carry a label.
pub open spec fn members(label: Seq<usize>, g: int, upto: int) -> Seq<int>
    decreases upto,
{
    if upto <= 0 {
        Seq::empty()
    } else if label[upto - 1] == g {
        members(label, g, upto - 1).push(upto - 1)
    } else {
        members(label, g, upto - 1)
    }
}

/// The bodies among the first `upto` that are neither the main one nor slivers, each
/// as a list of triangles.
pub open spec fn loose_among(
    label: Seq<usize>,
    areas: spec_fn(int) -> int,
    main: int,
    least: int,
    upto: int,
) -> Seq<Seq<int>>
    decreases upto,
{
    if upto <= 0 {
        Seq::empty()
    } else {
        let known = loose_among(label, areas, main, least, upto - 1);
        if upto - 1 != main && areas(upto - 1) >= least {
            known.push(members(label, upto - 1, label.len() as int))
        } else {
            known
        }
    }
}

/// The bodies that come loose, given which triangles are in one piece. `least` is
/// twice the area below which a body is a sliver.
pub open spec fn loose(
    points: Seq<Point3>,
    faces: Seq<Face>,
    parts: Groups,
    least: int,
) -> Seq<Seq<int>> {
    let areas = areas_of(points, faces, parts.label@);
    loose_among(
        parts.label@,
        areas,
        largest(areas, parts.count as int),
        least,
        parts.count as int,
    )
}

pub open spec fn int_lists(list: Seq<Vec<usize>>) -> Seq<Seq<int>> {
    list.map_values(|v: Vec<usize>| ints(v@))
}

fn area_twice(points: &Vec<Point3>, f: &Face) -> (v: i128)
    requires
        all_in_reach(points@),
        fits(*f, points@.len() as int),
    ensures
        v == twice_area(points@, *f),
        0 <= v <= 0x1000_0000_0000_0000,
{
    proof {
        assert(in_reach(points@[f.a as int]));
        assert(in_reach(points@[f.b as int]));
        assert(in_reach(points@[f.c as int]));
    }
    let a = points[f.a];
    let b = points[f.b];
    let c = points[f.c];
    let bx: i128 = b.x as i128 - a.x as i128;
    let by: i128 = b.y as i128 - a.y as i128;
    let cx: i128 = c.x as i128 - a.x as i128;
    let cy: i128 = c.y as i128 - a.y as i128;
    proof {
        let r = 0x2000_0000int;
        assert(r * r == 0x400_0000_0000_0000int);
        assert(-(r * r) <= bx * cy <= r * r) by (nonlinear_arith)
            requires
                -r <= bx <= r,
                -r <= cy <= r,
        ;
        assert(-(r * r) <= cx * by <= r * r) by (nonlinear_arith)
            requires
                -r <= cx <= r,
                -r <= by <= r,
        ;
    }
    let v: i128 = bx * cy - cx * by;
    if v < 0 {
        -v
    } else {
        v
    }
}

fn body_areas(points: &Vec<Point3>, faces: &Vec<Face>, parts: &Groups) -> (out: Vec<i128>)
    requires
        all_in_reach(points@),
        all_fit(faces@, points@.len() as int),
        faces@.len() <= MOST_FACES,
        parts.label@.len() == faces@.len(),
        forall|a: int| 0 <= a < faces@.len() ==> (#[trigger] parts.label@[a]) < parts.count,
    ensures
        out@.len() == parts.count,
        forall|g: int|
            0 <= g < parts.count ==> (#[trigger] out@[g]) == areas_of(
                points@,
                faces@,
                parts.label@,
            )(g),
{
    let mut out: Vec<i128> = Vec::new();
    let mut g: usize = 0;
    while g < parts.count
        invariant
            g <= parts.count,
            out@.len() == g,
            forall|k: int| 0 <= k < g ==> (#[trigger] out@[k]) == 0,
        decreases parts.count - g,
    {
        out.push(0);
        g += 1;
    }
    let mut i: usize = 0;
    while i < faces.len()
        invariant
            i <= faces@.len() <= MOST_FACES,
            all_in_reach(points@),
            all_fit(faces@, points@.len() as int),
            parts.label@.len() == faces@.len(),
            forall|a: int| 0 <= a < faces@.len() ==> (#[trigger] parts.label@[a]) < parts.count,
            out@.len() == parts.count,
            forall|k: int|
                0 <= k < parts.count ==> 0 <= (#[trigger] out@[k]) <= 0x1000_0000_0000_0000 * i
                    && out@[k] == body_area(points@, faces@, parts.label@, k, i as int),
        decreases faces@.len() - i,
    {
        let label: usize = parts.label[i];
        let v: i128 = area_twice(points, &faces[i]);
        let ghost before = out@;
        out[label] = out[label] + v;
        proof {
            assert forall|k: int| 0 <= k < parts.count implies 0 <= (#[trigger] out@[k])
                <= 0x1000_0000_0000_0000 * (i + 1) && out@[k] == body_area(
                points@,
                faces@,
                parts.label@,
                k,
                i + 1,
            ) by {
                assert(before[k] == body_area(points@, faces@, parts.label@, k, i as int));
            }
        }
        i += 1;
    }
    out
}

fn find_largest(areas: &Vec<i128>, Ghost(f): Ghost<spec_fn(int) -> int>) -> (main: usize)
    requires
        forall|g: int| 0 <= g < areas@.len() ==> (#[trigger] areas@[g]) == f(g),
    ensures
        main == largest(f, areas@.len() as int),
{
    let mut main: usize = 0;
    let mut g: usize = 1;
    while g < areas.len()
        invariant
            1 <= g,
            g == 1 || g <= areas@.len(),
            main < g,
            forall|k: int| 0 <= k < areas@.len() ==> (#[trigger] areas@[k]) == f(k),
            main == largest(f, g as int),
        decreases areas@.len() - g,
    {
        proof {
            assert(areas@[g as int] == f(g as int));
            assert(areas@[main as int] == f(main as int));
        }
        if areas[g] >= areas[main] {
            main = g;
        }
        g += 1;
    }
    main
}

fn members_of(label: &Vec<usize>, g: usize) -> (out: Vec<usize>)
    ensures
        ints(out@) == members(label@, g as int, label@.len() as int),
        forall|k: int| 0 <= k < out@.len() ==> (#[trigger] out@[k]) < label@.len(),
{
    let mut out: Vec<usize> = Vec::new();
    let mut i: usize = 0;
    proof {
        assert(ints(out@) =~= Seq::empty());
    }
    while i < label.len()
        invariant
            i <= label@.len(),
            ints(out@) == members(label@, g as int, i as int),
            forall|k: int| 0 <= k < out@.len() ==> (#[trigger] out@[k]) < label@.len(),
        decreases label@.len() - i,
    {
        if label[i] == g {
            let ghost before = out@;
            out.push(i);
            proof {
                assert(ints(out@) =~= ints(before).push(i as int));
            }
        }
        i += 1;
    }
    out
}

/// The bodies of a plate that come loose, each as a list of triangles: all but the
/// largest, and but for slivers. `least` is twice the area below which a body is a
/// sliver.
pub fn loose_bodies(mesh: &Mesh, least: i128) -> (out: Vec<Vec<usize>>)
    requires
        mesh.well_formed(),
        mesh.faces@.len() <= MOST_FACES,
    ensures
        exists|parts: Groups| #[trigger]
            are_groups(
                parts,
                mesh.faces@.len() as int,
                seam_pairs(seams(uses_of(mesh.faces@))),
            ) && int_lists(out@) == loose(mesh.points@, mesh.faces@, parts, least as int),
        forall|g: int, k: int|
            0 <= g < out@.len() && 0 <= k < out@[g]@.len() ==> (#[trigger] out@[g]@[k])
                < mesh.faces@.len(),
{
    let n: usize = mesh.faces.len();
    let table = edge_table(&mesh.faces, mesh.points.len());
    let ghost list = uses_of(mesh.faces@);
    proof {
        lemma_uses_bounds(mesh.faces@, mesh.points@.len() as int);
    }
    let (pairs, _) = read_seams(&table, Ghost(list), n);
    let parts = groups(n, &pairs);
    let areas = body_areas(&mesh.points, &mesh.faces, &parts);
    let ghost f = areas_of(mesh.points@, mesh.faces@, parts.label@);
    let main: usize = find_largest(&areas, Ghost(f));
    let mut out: Vec<Vec<usize>> = Vec::new();
    let mut g: usize = 0;
    proof {
        assert(int_lists(out@) =~= Seq::empty());
    }
    while g < parts.count
        invariant
            g <= parts.count,
            areas@.len() == parts.count,
            parts.label@.len() == n,
            forall|j: int, k: int|
                0 <= j < out@.len() && 0 <= k < out@[j]@.len() ==> (#[trigger] out@[j]@[k]) < n,
            forall|k: int| 0 <= k < areas@.len() ==> (#[trigger] areas@[k]) == f(k),
            int_lists(out@) == loose_among(
                parts.label@,
                f,
                main as int,
                least as int,
                g as int,
            ),
        decreases parts.count - g,
    {
        proof {
            assert(areas@[g as int] == f(g as int));
        }
        if g != main && areas[g] >= least {
            let body = members_of(&parts.label, g);
            let ghost before = out@;
            out.push(body);
            proof {
                assert(int_lists(out@) =~= int_lists(before).push(ints(body@)));
            }
        }
        g += 1;
    }
    proof {
        assert(are_groups(parts, n as int, seam_pairs(seams(list))));
    }
    out
}

} // verus!
