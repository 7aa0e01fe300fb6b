//! Triangle meshes on the grid that vertices are welded to.
//!
//! Coordinates count steps of a tenth of a micrometre. Surfaces that are built
//! apart meet in vertices that differ by rounding alone; on the grid they are one.

use std::collections::HashMap;
use vstd::prelude::*;

verus! {

/// How far from the origin a vertex may be, in steps.
pub const REACH: i64 = 0x1000_0000;

/// How many triangles a mesh may have.
pub const MOST_FACES: usize = 0x1000_0000;

/// A vertex.
#[derive(Clone, Copy, Debug, PartialEq, Eq, Structural)]
pub struct Point3 {
    pub x: i64,
    pub y: i64,
    pub z: i64,
}

/// A triangle by the coordinates of its corners.
#[derive(Clone, Copy, Debug, PartialEq, Eq, Structural)]
pub struct Triangle {
    pub a: Point3,
    pub b: Point3,
    pub c: Point3,
}

/// A triangle by the numbers of its corners.
#[derive(Clone, Copy, Debug, PartialEq, Eq, Structural)]
pub struct Face {
    pub a: usize,
    pub b: usize,
    pub c: usize,
}

/// Vertices, and the triangles between them.
#[derive(Debug)]
pub struct Mesh {
    pub points: Vec<Point3>,
    pub faces: Vec<Face>,
}

/// Whether a vertex is near enough to the origin.
pub open spec fn in_reach(p: Point3) -> bool {
    &&& -REACH <= p.x <= REACH
    &&& -REACH <= p.y <= REACH
    &&& -REACH <= p.z <= REACH
}

/// Whether the corners of a triangle are among the first `n` vertices.
pub open spec fn fits(f: Face, n: int) -> bool {
    f.a < n && f.b < n && f.c < n
}

/// Whether all triangles are between the first `n` vertices.
pub open spec fn all_fit(faces: Seq<Face>, n: int) -> bool {
    forall|i: int| 0 <= i < faces.len() ==> fits(#[trigger] faces[i], n)
}

pub open spec fn all_in_reach(points: Seq<Point3>) -> bool {
    forall|i: int| 0 <= i < points.len() ==> in_reach(#[trigger] points[i])
}

/// Whether no vertex occurs twice.
pub open spec fn all_apart(points: Seq<Point3>) -> bool {
    forall|i: int, j: int| 0 <= i < j < points.len() ==> #[trigger] points[i] != #[trigger] points[j]
}

impl Mesh {
    /// Whether triangles are between vertices of the mesh, which are near enough to
    /// the origin and all different.
    pub open spec fn well_formed(&self) -> bool {
        &&& all_fit(self.faces@, self.points@.len() as int)
        &&& all_in_reach(self.points@)
        &&& all_apart(self.points@)
    }

    /// How many triangles there are.
    pub fn triangle_count(&self) -> (n: usize)
        ensures
            n == self.faces@.len(),
    {
        self.faces.len()
    }
}

/// Whether the corners of a triangle are three different vertices.
pub open spec fn is_proper(f: Face) -> bool {
    f.a != f.b && f.b != f.c && f.c != f.a
}

/// Whether the corners of a triangle are three different vertices.
pub fn proper(f: &Face) -> (yes: bool)
    ensures
        yes == is_proper(*f),
{
    f.a != f.b && f.b != f.c && f.c != f.a
}

/// The triangles with three different corners.
pub open spec fn proper_faces(faces: Seq<Face>) -> Seq<Face>
    decreases faces.len(),
{
    if faces.len() == 0 {
        Seq::empty()
    } else if is_proper(faces.last()) {
        proper_faces(faces.drop_last()).push(faces.last())
    } else {
        proper_faces(faces.drop_last())
    }
}

/// Whether all triangles have three different corners.
pub open spec fn all_proper(faces: Seq<Face>) -> bool {
    forall|i: int| 0 <= i < faces.len() ==> is_proper(#[trigger] faces[i])
}

/// What is left after dropping triangles without area are triangles that were
/// there, and all have an area.
pub proof fn lemma_proper_faces(faces: Seq<Face>, n: int)
    requires
        all_fit(faces, n),
    ensures
        all_proper(proper_faces(faces)),
        all_fit(proper_faces(faces), n),
        proper_faces(faces).len() <= faces.len(),
    decreases faces.len(),
{
    if faces.len() > 0 {
        let front = faces.drop_last();
        assert forall|i: int| 0 <= i < front.len() implies fits(#[trigger] front[i], n) by {
            assert(front[i] == faces[i]);
        }
        lemma_proper_faces(front, n);
        assert(fits(faces[faces.len() - 1], n));
    }
}

/// Drops the triangles whose corners are not three different vertices.
pub fn keep_proper(faces: &Vec<Face>) -> (out: Vec<Face>)
    ensures
        out@ == proper_faces(faces@),
{
    let mut out: Vec<Face> = Vec::new();
    let mut i: usize = 0;
    proof {
        assert(faces@.take(0).len() == 0);
    }
    while i < faces.len()
        invariant
            i <= faces@.len(),
            out@ == proper_faces(faces@.take(i as int)),
        decreases faces@.len() - i,
    {
        proof {
            assert(faces@.take(i + 1).drop_last() =~= faces@.take(i as int));
            assert(faces@.take(i + 1).last() == faces@[i as int]);
        }
        if proper(&faces[i]) {
            out.push(faces[i]);
        }
        i += 1;
    }
    proof {
        assert(faces@.take(faces@.len() as int) =~= faces@);
    }
    out
}

/// The list with a vertex added, if it is not there yet.
pub open spec fn with_point(points: Seq<Point3>, p: Point3) -> Seq<Point3> {
    if points.contains(p) {
        points
    } else {
        points.push(p)
    }
}

/// The vertices of triangles, each once, in the order in which they first come.
pub open spec fn points_of(triangles: Seq<Triangle>) -> Seq<Point3>
    decreases triangles.len(),
{
    if triangles.len() == 0 {
        Seq::empty()
    } else {
        let t = triangles.last();
        with_point(with_point(with_point(points_of(triangles.drop_last()), t.a), t.b), t.c)
    }
}

/// Whether a face stands for a triangle.
pub open spec fn stands_for(points: Seq<Point3>, f: Face, t: Triangle) -> bool {
    &&& fits(f, points.len() as int)
    &&& points[f.a as int] == t.a
    &&& points[f.b as int] == t.b
    &&& points[f.c as int] == t.c
}

/// Whether a mesh is made of the given triangles, welded.
pub open spec fn is_weld(mesh: Mesh, triangles: Seq<Triangle>) -> bool {
    &&& mesh.points@ == points_of(triangles)
    &&& mesh.faces@.len() == triangles.len()
    &&& forall|i: int|
        0 <= i < triangles.len() ==> stands_for(
            mesh.points@,
            #[trigger] mesh.faces@[i],
            triangles[i],
        )
}

/// Whether the corners of a triangle are near enough to the origin.
pub open spec fn triangle_in_reach(t: Triangle) -> bool {
    in_reach(t.a) && in_reach(t.b) && in_reach(t.c)
}

/// Whether triangles can be welded: there are not too many, and all are near enough
/// to the origin.
pub open spec fn can_weld(triangles: Seq<Triangle>) -> bool {
    &&& triangles.len() <= MOST_FACES
    &&& forall|i: int| 0 <= i < triangles.len() ==> triangle_in_reach(#[trigger] triangles[i])
}

fn near(p: &Point3) -> (yes: bool)
    ensures
        yes == in_reach(*p),
{
    -REACH <= p.x && p.x <= REACH && -REACH <= p.y && p.y <= REACH && -REACH <= p.z && p.z <= REACH
}

/// A number for each vertex in reach, different for different ones.
spec fn key_of(p: Point3) -> int {
    ((p.x + REACH) * 0x4000_0000 + (p.y + REACH)) * 0x4000_0000 + (p.z + REACH)
}

proof fn lemma_keys_differ(p: Point3, q: Point3)
    requires
        in_reach(p),
        in_reach(q),
        key_of(p) == key_of(q),
    ensures
        p == q,
{
    let px = p.x + REACH;
    let qx = q.x + REACH;
    let py = p.y + REACH;
    let qy = q.y + REACH;
    let hp = px * 0x4000_0000 + py;
    let hq = qx * 0x4000_0000 + qy;
    assert(hp == hq);
    assert(px == qx);
}

fn key(p: &Point3) -> (k: u128)
    requires
        in_reach(*p),
    ensures
        k == key_of(*p),
{
    let x: u128 = (p.x + REACH) as u128;
    let y: u128 = (p.y + REACH) as u128;
    let z: u128 = (p.z + REACH) as u128;
    (x * 0x4000_0000 + y) * 0x4000_0000 + z
}

/// Whether a table finds each vertex by its number.
spec fn is_index(index: Map<u128, usize>, points: Seq<Point3>) -> bool {
    &&& forall|k: u128| #[trigger]
        index.contains_key(k) ==> index[k] < points.len() && key_of(points[index[k] as int]) == k
    &&& forall|i: int|
        0 <= i < points.len() ==> 0 <= key_of(#[trigger] points[i]) < 0x1_0000_0000_0000_0000_0000_0000
            && index.contains_key(key_of(points[i]) as u128)
}

fn number_of(points: &mut Vec<Point3>, index: &mut HashMap<u128, usize>, p: Point3) -> (n: usize)
    requires
        in_reach(p),
        all_in_reach(old(points)@),
        all_apart(old(points)@),
        is_index(old(index)@, old(points)@),
    ensures
        final(points)@ == with_point(old(points)@, p),
        all_in_reach(final(points)@),
        all_apart(final(points)@),
        is_index(final(index)@, final(points)@),
        n < final(points)@.len(),
        final(points)@[n as int] == p,
{
    broadcast use vstd::std_specs::hash::group_hash_axioms;

    let k: u128 = key(&p);
    if let Some(found) = index.get(&k) {
        proof {
            lemma_keys_differ(points@[*found as int], p);
            assert(points@.contains(p));
        }
        return *found;
    }
    proof {
        assert(!points@.contains(p)) by {
            if points@.contains(p) {
                let i = choose|i: int| 0 <= i < points@.len() && points@[i] == p;
                assert(index@.contains_key(key_of(points@[i]) as u128));
            }
        }
    }
    let n: usize = points.len();
    let ghost before = points@;
    let ghost known = index@;
    points.push(p);
    index.insert(k, n);
    proof {
        assert forall|i: int, j: int| 0 <= i < j < points@.len() implies #[trigger] points@[i]
            != #[trigger] points@[j] by {
            if j == before.len() {
                assert(before[i] == points@[i]);
                assert(!before.contains(p));
            }
        }
        assert forall|q: u128| #[trigger] index@.contains_key(q) implies index@[q] < points@.len()
            && key_of(points@[index@[q] as int]) == q by {
            if q != k {
                assert(known.contains_key(q));
            }
        }
        assert forall|i: int| 0 <= i < points@.len() implies 0 <= key_of(#[trigger] points@[i])
            < 0x1_0000_0000_0000_0000_0000_0000 && index@.contains_key(
            key_of(points@[i]) as u128,
        ) by {
            if i < before.len() {
                assert(before[i] == points@[i]);
            }
        }
    }
    n
}

fn number_corners(points: &mut Vec<Point3>, index: &mut HashMap<u128, usize>, t: Triangle) -> (f: Face)
    requires
        triangle_in_reach(t),
        all_in_reach(old(points)@),
        all_apart(old(points)@),
        is_index(old(index)@, old(points)@),
    ensures
        final(points)@ == with_point(with_point(with_point(old(points)@, t.a), t.b), t.c),
        all_in_reach(final(points)@),
        all_apart(final(points)@),
        is_index(final(index)@, final(points)@),
        stands_for(final(points)@, f, t),
        old(points)@.len() <= final(points)@.len(),
        forall|i: int|
            0 <= i < old(points)@.len() ==> #[trigger] final(points)@[i] == old(points)@[i],
{
    let a: usize = number_of(points, index, t.a);
    let b: usize = number_of(points, index, t.b);
    let c: usize = number_of(points, index, t.c);
    Face { a, b, c }
}

/// Welds triangles to one mesh; none if there are too many or one is too far from
/// the origin.
pub fn weld(triangles: &Vec<Triangle>) -> (mesh: Option<Mesh>)
    ensures
        mesh is Some == can_weld(triangles@),
        mesh matches Some(m) ==> {
            &&& m.well_formed()
            &&& is_weld(m, triangles@)
        },
{
    broadcast use vstd::std_specs::hash::group_hash_axioms;

    if triangles.len() > MOST_FACES {
        return None;
    }
    let mut points: Vec<Point3> = Vec::new();
    let mut index: HashMap<u128, usize> = HashMap::new();
    let mut faces: Vec<Face> = Vec::new();
    let mut i: usize = 0;
    proof {
        assert(triangles@.take(0).len() == 0);
    }
    while i < triangles.len()
        invariant
            i <= triangles@.len() <= MOST_FACES,
            all_in_reach(points@),
            all_apart(points@),
            is_index(index@, points@),
            points@ == points_of(triangles@.take(i as int)),
            faces@.len() == i,
            forall|j: int| 0 <= j < i ==> triangle_in_reach(#[trigger] triangles@[j]),
            forall|j: int|
                0 <= j < i ==> stands_for(points@, #[trigger] faces@[j], triangles@[j]),
        decreases triangles@.len() - i,
    {
        let t: Triangle = triangles[i];
        if !(near(&t.a) && near(&t.b) && near(&t.c)) {
            proof {
                assert(!triangle_in_reach(triangles@[i as int]));
            }
            return None;
        }
        proof {
            assert(triangles@.take(i + 1).drop_last() =~= triangles@.take(i as int));
            assert(triangles@.take(i + 1).last() == t);
        }
        let ghost before = points@;
        let ghost done = faces@;
        let face = number_corners(&mut points, &mut index, t);
        faces.push(face);
        proof {
            assert forall|j: int| 0 <= j < i + 1 implies stands_for(
                points@,
                #[trigger] faces@[j],
                triangles@[j],
            ) by {
                if j < i {
                    assert(faces@[j] == done[j]);
                    assert(stands_for(before, done[j], triangles@[j]));
                }
            }
        }
        i += 1;
    }
    proof {
        assert(triangles@.take(triangles@.len() as int) =~= triangles@);
        assert forall|j: int| 0 <= j < faces@.len() implies fits(
            #[trigger] faces@[j],
            points@.len() as int,
        ) by {
            assert(stands_for(points@, faces@[j], triangles@[j]));
        }
    }
    Some(Mesh { points, faces })
}

/// Six times the volume, with its sign, between a triangle and the origin.
pub open spec fn six_fold(a: Point3, b: Point3, c: Point3) -> int {
    a.x * (b.y * c.z - b.z * c.y) - a.y * (b.x * c.z - b.z * c.x) + a.z * (b.x * c.y - b.y * c.x)
}

/// Six times the volume, with its sign, between a face and the origin.
pub open spec fn face_volume(points: Seq<Point3>, f: Face) -> int {
    six_fold(points[f.a as int], points[f.b as int], points[f.c as int])
}

/// Six times the volume that faces enclose.
pub open spec fn volume(points: Seq<Point3>, faces: Seq<Face>) -> int
    decreases faces.len(),
{
    if faces.len() == 0 {
        0
    } else {
        volume(points, faces.drop_last()) + face_volume(points, faces.last())
    }
}

/// The most that six times the volume under one face can be.
pub const MOST_VOLUME: i128 = 0x800_0000_0000_0000_0000_0000;

proof fn lemma_product(x: int, y: int, bx: int, by: int)
    requires
        -bx <= x <= bx,
        -by <= y <= by,
    ensures
        -(bx * by) <= x * y <= bx * by,
{
    assert(-(bx * by) <= x * y <= bx * by) by (nonlinear_arith)
        requires
            -bx <= x <= bx,
            -by <= y <= by,
    ;
}

/// Six times the volume, with its sign, between a triangle and the origin.
pub fn tetrahedron(a: &Point3, b: &Point3, c: &Point3) -> (v: i128)
    requires
        in_reach(*a),
        in_reach(*b),
        in_reach(*c),
    ensures
        v == six_fold(*a, *b, *c),
        -MOST_VOLUME <= v <= MOST_VOLUME,
{
    proof {
        let r = REACH as int;
        let s = 0x100_0000_0000_0000int;
        assert(r * r == s);
        assert(r * (2 * s) == 0x20_0000_0000_0000_0000_0000int);
        lemma_product(b.y as int, c.z as int, r, r);
        lemma_product(b.z as int, c.y as int, r, r);
        lemma_product(b.x as int, c.z as int, r, r);
        lemma_product(b.z as int, c.x as int, r, r);
        lemma_product(b.x as int, c.y as int, r, r);
        lemma_product(b.y as int, c.x as int, r, r);
        lemma_product(a.x as int, b.y * c.z - b.z * c.y, r, 2 * s);
        lemma_product(a.y as int, b.x * c.z - b.z * c.x, r, 2 * s);
        lemma_product(a.z as int, b.x * c.y - b.y * c.x, r, 2 * s);
    }
    let (ax, ay, az): (i128, i128, i128) = (a.x as i128, a.y as i128, a.z as i128);
    let (bx, by, bz): (i128, i128, i128) = (b.x as i128, b.y as i128, b.z as i128);
    let (cx, cy, cz): (i128, i128, i128) = (c.x as i128, c.y as i128, c.z as i128);
    ax * (by * cz - bz * cy) - ay * (bx * cz - bz * cx) + az * (bx * cy - by * cx)
}

/// Six times the volume, with its sign, between a face and the origin.
pub fn volume_under(points: &Vec<Point3>, f: &Face) -> (v: i128)
    requires
        all_in_reach(points@),
        fits(*f, points@.len() as int),
    ensures
        v == face_volume(points@, *f),
        -MOST_VOLUME <= v <= MOST_VOLUME,
{
    tetrahedron(&points[f.a], &points[f.b], &points[f.c])
}

/// Six times the volume that a mesh encloses.
pub fn enclosed(points: &Vec<Point3>, faces: &Vec<Face>) -> (v: i128)
    requires
        all_in_reach(points@),
        all_fit(faces@, points@.len() as int),
        faces@.len() <= MOST_FACES,
    ensures
        v == volume(points@, faces@),
{
    let mut v: i128 = 0;
    let mut i: usize = 0;
    proof {
        assert(faces@.take(0).len() == 0);
    }
    while i < faces.len()
        invariant
            i <= faces@.len() <= MOST_FACES,
            all_in_reach(points@),
            all_fit(faces@, points@.len() as int),
            v == volume(points@, faces@.take(i as int)),
            -(MOST_VOLUME * i) <= v <= MOST_VOLUME * i,
        decreases faces@.len() - i,
    {
        proof {
            assert(faces@.take(i + 1).drop_last() =~= faces@.take(i as int));
            assert(faces@.take(i + 1).last() == faces@[i as int]);
        }
        v = v + volume_under(points, &faces[i]);
        i += 1;
    }
    proof {
        assert(faces@.take(faces@.len() as int) =~= faces@);
    }
    v
}

/// The triangle seen from its other side.
pub open spec fn turned(f: Face) -> Face {
    Face { a: f.a, b: f.c, c: f.b }
}

/// The triangle seen from its other side.
pub fn turn(f: &Face) -> (out: Face)
    ensures
        out == turned(*f),
{
    Face { a: f.a, b: f.c, c: f.b }
}

/// Turning a triangle over changes the sign of the volume under it.
pub proof fn lemma_turned_volume(points: Seq<Point3>, f: Face)
    ensures
        face_volume(points, turned(f)) == -face_volume(points, f),
{
    let a = points[f.a as int];
    let b = points[f.b as int];
    let c = points[f.c as int];
    assert(six_fold(a, c, b) == -six_fold(a, b, c)) by (nonlinear_arith);
}

} // verus!
