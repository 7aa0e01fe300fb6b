//! Closing gaps where a long edge of one triangle faces two short ones of others.
//!
//! Where two shapes share part of their boundary, a wall drawn from one can run past
//! a vertex at which a neighbouring face stops. No vertex is misplaced, but the edges
//! do not pair, so the surface is open. The long edge is given the vertex it lacks.

use crate::edges::{
    all_ends, edge, edge_table, edges_of, edges_of_kind, held, lemma_edges_among, open_edges,
    pair_list, uses_of, uses_on, EdgeKind, EdgeTable,
};
use crate::mesh::{
    all_fit, all_in_reach, fits, in_reach, keep_proper, lemma_proper_faces, proper_faces, Face,
    Point3,
};
use vstd::prelude::*;

verus! {

/// The way from one vertex to another, multiplied by the way to a third.
pub open spec fn dot(a: Point3, b: Point3, p: Point3) -> int {
    (p.x - a.x) * (b.x - a.x) + (p.y - a.y) * (b.y - a.y) + (p.z - a.z) * (b.z - a.z)
}

/// The square of twice the area between three vertices, times four.
pub open spec fn off_line(a: Point3, b: Point3, p: Point3) -> int {
    let (dx, dy, dz) = (b.x - a.x, b.y - a.y, b.z - a.z);
    let (ex, ey, ez) = (p.x - a.x, p.y - a.y, p.z - a.z);
    let (cx, cy, cz) = (ey * dz - ez * dy, ez * dx - ex * dz, ex * dy - ey * dx);
    4 * (cx * cx + cy * cy + cz * cz)
}

/// Whether a vertex lies on an edge: beside it, and no farther off than one and a
/// half steps of the grid. Vertices sit up to half a step off the line they are
/// meant to be on, since all are on the grid.
pub open spec fn on_edge(a: Point3, b: Point3, p: Point3) -> bool {
    let length = dot(a, b, b);
    &&& length > 0
    &&& 0 <= dot(a, b, p) <= length
    &&& off_line(a, b, p) <= 9 * length
}

proof fn lemma_small_product(x: int, y: int, r: int)
    requires
        -r <= x <= r,
        -r <= y <= r,
    ensures
        -(r * r) <= x * y <= r * r,
{
    assert(-(r * r) <= x * y <= r * r) by (nonlinear_arith)
        requires
            -r <= x <= r,
            -r <= y <= r,
    ;
}

fn dot_of(a: &Point3, b: &Point3, p: &Point3) -> (v: i128)
    requires
        in_reach(*a),
        in_reach(*b),
        in_reach(*p),
    ensures
        v == dot(*a, *b, *p),
        -0xc00_0000_0000_0000 <= v <= 0xc00_0000_0000_0000,
{
    let (dx, dy, dz): (i128, i128, i128) = (
        b.x as i128 - a.x as i128,
        b.y as i128 - a.y as i128,
        b.z as i128 - a.z as i128,
    );
    let (ex, ey, ez): (i128, i128, i128) = (
        p.x as i128 - a.x as i128,
        p.y as i128 - a.y as i128,
        p.z as i128 - a.z as i128,
    );
    proof {
        let r = 0x2000_0000int;
        assert(r * r == 0x400_0000_0000_0000int);
        lemma_small_product(ex as int, dx as int, r);
        lemma_small_product(ey as int, dy as int, r);
        lemma_small_product(ez as int, dz as int, r);
    }
    ex * dx + ey * dy + ez * dz
}

fn off_line_of(a: &Point3, b: &Point3, p: &Point3) -> (v: i128)
    requires
        in_reach(*a),
        in_reach(*b),
        in_reach(*p),
    ensures
        v == off_line(*a, *b, *p),
{
    let (dx, dy, dz): (i128, i128, i128) = (
        b.x as i128 - a.x as i128,
        b.y as i128 - a.y as i128,
        b.z as i128 - a.z as i128,
    );
    let (ex, ey, ez): (i128, i128, i128) = (
        p.x as i128 - a.x as i128,
        p.y as i128 - a.y as i128,
        p.z as i128 - a.z as i128,
    );
    proof {
        let r = 0x2000_0000int;
        assert(r * r == 0x400_0000_0000_0000int);
        lemma_small_product(ey as int, dz as int, r);
        lemma_small_product(ez as int, dy as int, r);
        lemma_small_product(ez as int, dx as int, r);
        lemma_small_product(ex as int, dz as int, r);
        lemma_small_product(ex as int, dy as int, r);
        lemma_small_product(ey as int, dx as int, r);
    }
    let cx: i128 = ey * dz - ez * dy;
    let cy: i128 = ez * dx - ex * dz;
    let cz: i128 = ex * dy - ey * dx;
    proof {
        let s = 0x800_0000_0000_0000int;
        assert(s * s == 0x40_0000_0000_0000_0000_0000_0000_0000int);
        lemma_small_product(cx as int, cx as int, s);
        lemma_small_product(cy as int, cy as int, s);
        lemma_small_product(cz as int, cz as int, s);
    }
    4 * (cx * cx + cy * cy + cz * cz)
}

fn lies_on(a: &Point3, b: &Point3, p: &Point3) -> (yes: bool)
    requires
        in_reach(*a),
        in_reach(*b),
        in_reach(*p),
    ensures
        yes == on_edge(*a, *b, *p),
{
    let length: i128 = dot_of(a, b, b);
    if length <= 0 {
        return false;
    }
    let along: i128 = dot_of(a, b, p);
    0 <= along && along <= length && off_line_of(a, b, p) <= 9 * length
}

/// Whether a triangle has a vertex among its corners.
pub open spec fn has_corner(f: Face, v: int) -> bool {
    f.a == v || f.b == v || f.c == v
}

/// Whether a vertex is a corner of some triangle.
pub open spec fn is_corner(faces: Seq<Face>, v: int) -> bool {
    exists|i: int| 0 <= i < faces.len() && has_corner(#[trigger] faces[i], v)
}

/// Which vertices are corners of triangles.
pub(crate) fn corners_of(faces: &Vec<Face>, n: usize) -> (out: Vec<bool>)
    requires
        all_fit(faces@, n as int),
    ensures
        out@.len() == n,
        forall|v: int| 0 <= v < n ==> (#[trigger] out@[v]) == is_corner(faces@, v),
{
    let mut out: Vec<bool> = Vec::new();
    let mut v: usize = 0;
    while v < n
        invariant
            v <= n,
            out@.len() == v,
            forall|w: int| 0 <= w < v ==> (#[trigger] out@[w]) == false,
        decreases n - v,
    {
        out.push(false);
        v += 1;
    }
    let mut i: usize = 0;
    proof {
        assert forall|w: int| 0 <= w < n implies (#[trigger] out@[w]) == is_corner(
            faces@.take(0),
            w,
        ) by {}
    }
    while i < faces.len()
        invariant
            i <= faces@.len(),
            all_fit(faces@, n as int),
            out@.len() == n,
            forall|w: int| 0 <= w < n ==> (#[trigger] out@[w]) == is_corner(faces@.take(i as int), w),
        decreases faces@.len() - i,
    {
        let f: Face = faces[i];
        let ghost before = out@;
        proof {
            assert(fits(faces@[i as int], n as int));
        }
        out[f.a] = true;
        out[f.b] = true;
        out[f.c] = true;
        proof {
            let now = faces@.take(i + 1);
            assert forall|w: int| 0 <= w < n implies (#[trigger] out@[w]) == is_corner(now, w) by {
                if before[w] {
                    let k = choose|k: int|
                        0 <= k < faces@.take(i as int).len() && has_corner(
                            #[trigger] faces@.take(i as int)[k],
                            w,
                        );
                    assert(now[k] == faces@.take(i as int)[k]);
                }
                if has_corner(f, w) {
                    assert(now[i as int] == f);
                }
                if is_corner(now, w) && !has_corner(f, w) {
                    let k = choose|k: int| 0 <= k < now.len() && has_corner(#[trigger] now[k], w);
                    assert(k < i);
                    assert(faces@.take(i as int)[k] == now[k]);
                }
            }
        }
        i += 1;
    }
    proof {
        assert(faces@.take(faces@.len() as int) =~= faces@);
    }
    out
}

/// The list of vertices along an edge, with one more put where it is passed.
pub open spec fn insert_along(
    points: Seq<Point3>,
    a: int,
    b: int,
    list: Seq<int>,
    v: int,
) -> Seq<int>
    decreases list.len(),
{
    if list.len() == 0 || dot(points[a], points[b], points[list.last()]) <= dot(
        points[a],
        points[b],
        points[v],
    ) {
        list.push(v)
    } else {
        insert_along(points, a, b, list.drop_last(), v).push(list.last())
    }
}

/// Those of the first `upto` vertices that lie on an edge without being an end of
/// it, in the order in which the edge passes them.
pub open spec fn splits(
    points: Seq<Point3>,
    faces: Seq<Face>,
    a: int,
    b: int,
    upto: int,
) -> Seq<int>
    decreases upto,
{
    if upto <= 0 {
        Seq::empty()
    } else {
        let v = upto - 1;
        let known = splits(points, faces, a, b, v);
        if v != a && v != b && is_corner(faces, v) && on_edge(points[a], points[b], points[v]) {
            insert_along(points, a, b, known, v)
        } else {
            known
        }
    }
}

pub open spec fn ints(list: Seq<usize>) -> Seq<int> {
    list.map_values(|v: usize| v as int)
}

proof fn lemma_insert_along_at(
    points: Seq<Point3>,
    a: int,
    b: int,
    list: Seq<int>,
    v: int,
    k: int,
)
    requires
        0 <= k <= list.len(),
        k > 0 ==> dot(points[a], points[b], points[list[k - 1]]) <= dot(
            points[a],
            points[b],
            points[v],
        ),
        forall|i: int|
            k <= i < list.len() ==> dot(points[a], points[b], points[#[trigger] list[i]]) > dot(
                points[a],
                points[b],
                points[v],
            ),
    ensures
        insert_along(points, a, b, list, v) == list.insert(k, v),
    decreases list.len(),
{
    if k == list.len() {
        assert(list.insert(k, v) =~= list.push(v));
    } else {
        let front = list.drop_last();
        assert(list[list.len() - 1] == list.last());
        assert forall|i: int| k <= i < front.len() implies dot(
            points[a],
            points[b],
            points[#[trigger] front[i]],
        ) > dot(points[a], points[b], points[v]) by {
            assert(front[i] == list[i]);
        }
        lemma_insert_along_at(points, a, b, front, v, k);
        assert(list.insert(k, v) =~= front.insert(k, v).push(list.last()));
    }
}

/// The vertices that lie on an edge without being an end of it, in the order in
/// which the edge passes them.
fn find_splits(points: &Vec<Point3>, corners: &Vec<bool>, a: usize, b: usize, Ghost(faces): Ghost<
    Seq<Face>,
>) -> (out: Vec<usize>)
    requires
        all_in_reach(points@),
        a < points@.len(),
        b < points@.len(),
        corners@.len() == points@.len(),
        forall|v: int| 0 <= v < points@.len() ==> (#[trigger] corners@[v]) == is_corner(faces, v),
    ensures
        ints(out@) == splits(points@, faces, a as int, b as int, points@.len() as int),
        forall|i: int| 0 <= i < out@.len() ==> (#[trigger] out@[i]) < points@.len(),
{
    let mut out: Vec<usize> = Vec::new();
    let mut v: usize = 0;
    proof {
        assert(ints(out@) =~= Seq::empty());
    }
    while v < points.len()
        invariant
            v <= points@.len(),
            all_in_reach(points@),
            a < points@.len(),
            b < points@.len(),
            corners@.len() == points@.len(),
            forall|w: int| 0 <= w < points@.len() ==> (#[trigger] corners@[w]) == is_corner(faces, w),
            ints(out@) == splits(points@, faces, a as int, b as int, v as int),
            forall|i: int| 0 <= i < out@.len() ==> (#[trigger] out@[i]) < points@.len(),
        decreases points@.len() - v,
    {
        if v != a && v != b && corners[v] && lies_on(&points[a], &points[b], &points[v]) {
            let at: i128 = dot_of(&points[a], &points[b], &points[v]);
            let mut k: usize = out.len();
            while k > 0 && dot_of(&points[a], &points[b], &points[out[k - 1]]) > at
                invariant
                    k <= out@.len(),
                    v < points@.len(),
                    a < points@.len(),
                    b < points@.len(),
                    all_in_reach(points@),
                    forall|i: int| 0 <= i < out@.len() ==> (#[trigger] out@[i]) < points@.len(),
                    at == dot(points@[a as int], points@[b as int], points@[v as int]),
                    forall|i: int|
                        k <= i < out@.len() ==> dot(
                            points@[a as int],
                            points@[b as int],
                            points@[(#[trigger] out@[i]) as int],
                        ) > at,
                decreases k,
            {
                k -= 1;
            }
            let ghost before = out@;
            proof {
                let list = ints(before);
                assert forall|i: int| k <= i < list.len() implies dot(
                    points@[a as int],
                    points@[b as int],
                    points@[#[trigger] list[i]],
                ) > at by {
                    assert(list[i] == before[i]);
                }
                if k > 0 {
                    assert(list[k - 1] == before[k - 1]);
                }
                lemma_insert_along_at(points@, a as int, b as int, list, v as int, k as int);
            }
            out.insert(k, v);
            proof {
                assert(ints(out@) =~= ints(before).insert(k as int, v as int));
                assert forall|i: int| 0 <= i < out@.len() implies (#[trigger] out@[i])
                    < points@.len() by {
                    if i < k {
                        assert(out@[i] == before[i]);
                    } else if i > k {
                        assert(out@[i] == before[i - 1]);
                    }
                }
            }
        }
        v += 1;
    }
    out
}

/// A triangle, fanned from its corner `c` across the vertices on the edge opposite.
pub open spec fn fanned(a: int, middle: Seq<int>, b: int, c: int) -> Seq<Face>
    decreases middle.len(),
{
    if middle.len() == 0 {
        seq![Face { a: a as usize, b: b as usize, c: c as usize }]
    } else {
        fanned(a, middle.drop_last(), middle.last(), c).push(
            Face { a: middle.last() as usize, b: b as usize, c: c as usize },
        )
    }
}

/// The vertices to split the edge between `a` and `b` at: those on it, if it is
/// open.
pub open spec fn edge_splits(points: Seq<Point3>, faces: Seq<Face>, a: int, b: int) -> Seq<int> {
    if edges_of_kind(uses_of(faces), EdgeKind::Open).contains(edge(a, b)) {
        splits(points, faces, a, b, points.len() as int)
    } else {
        Seq::empty()
    }
}

/// Whether some edge of a triangle is to be split.
pub open spec fn is_split(points: Seq<Point3>, faces: Seq<Face>, f: Face) -> bool {
    edge_splits(points, faces, f.a as int, f.b as int).len() > 0 || edge_splits(
        points,
        faces,
        f.b as int,
        f.c as int,
    ).len() > 0 || edge_splits(points, faces, f.c as int, f.a as int).len() > 0
}

/// What becomes of a triangle: it is fanned across the first of its edges that is to
/// be split.
pub open spec fn split_face(points: Seq<Point3>, faces: Seq<Face>, f: Face) -> Seq<Face> {
    let (a, b, c) = (f.a as int, f.b as int, f.c as int);
    if edge_splits(points, faces, a, b).len() > 0 {
        fanned(a, edge_splits(points, faces, a, b), b, c)
    } else if edge_splits(points, faces, b, c).len() > 0 {
        fanned(b, edge_splits(points, faces, b, c), c, a)
    } else if edge_splits(points, faces, c, a).len() > 0 {
        fanned(c, edge_splits(points, faces, c, a), a, b)
    } else {
        seq![f]
    }
}

/// What becomes of the first `upto` triangles.
pub open spec fn split_faces(points: Seq<Point3>, faces: Seq<Face>, upto: int) -> Seq<Face>
    decreases upto,
{
    if upto <= 0 {
        Seq::empty()
    } else {
        split_faces(points, faces, upto - 1) + split_face(points, faces, faces[upto - 1])
    }
}

/// Whether one of the first `upto` triangles is to be split.
pub open spec fn any_split(points: Seq<Point3>, faces: Seq<Face>, upto: int) -> bool
    decreases upto,
{
    upto > 0 && (any_split(points, faces, upto - 1) || is_split(points, faces, faces[upto - 1]))
}

/// What becomes of a mesh in at most `passes` passes. A pass splits one edge of each
/// triangle at most, and can bring up further edges to split.
pub open spec fn split_passes(points: Seq<Point3>, faces: Seq<Face>, passes: nat) -> Seq<Face>
    decreases passes,
{
    if passes == 0 || edges_of_kind(uses_of(faces), EdgeKind::Open).len() == 0 {
        faces
    } else {
        let out = proper_faces(split_faces(points, faces, faces.len() as int));
        if any_split(points, faces, faces.len() as int) {
            split_passes(points, out, (passes - 1) as nat)
        } else {
            out
        }
    }
}

/// Appends a triangle, fanned.
fn extend_fan(out: &mut Vec<Face>, a: usize, middle: &Vec<usize>, b: usize, c: usize, Ghost(n): Ghost<
    int,
>)
    requires
        a < n,
        b < n,
        c < n,
        forall|i: int| 0 <= i < middle@.len() ==> (#[trigger] middle@[i]) < n,
        all_fit(old(out)@, n),
    ensures
        final(out)@ == old(out)@ + fanned(a as int, ints(middle@), b as int, c as int),
        all_fit(final(out)@, n),
{
    let ghost start = out@;
    let ghost all = ints(middle@);
    let mut prev: usize = a;
    let mut i: usize = 0;
    let ghost mut done: Seq<Face> = Seq::empty();
    proof {
        assert(start + done =~= start);
        assert(all.take(0) =~= Seq::empty());
    }
    while i < middle.len()
        invariant
            i <= middle@.len(),
            prev < n,
            b < n,
            c < n,
            forall|k: int| 0 <= k < middle@.len() ==> (#[trigger] middle@[k]) < n,
            all == ints(middle@),
            all_fit(out@, n),
            out@ == start + done,
            prev == (if i == 0 {
                a
            } else {
                middle@[i - 1]
            }),
            forall|e: usize|
                done.push(Face { a: prev, b: e, c }) == #[trigger] fanned(
                    a as int,
                    all.take(i as int),
                    e as int,
                    c as int,
                ),
        decreases middle@.len() - i,
    {
        let p: usize = middle[i];
        let piece = Face { a: prev, b: p, c };
        out.push(piece);
        proof {
            let next = done.push(piece);
            assert(all.take(i + 1).drop_last() =~= all.take(i as int));
            assert(all.take(i + 1).last() == p);
            assert forall|e: usize| next.push(Face { a: p, b: e, c }) == #[trigger] fanned(
                a as int,
                all.take(i + 1),
                e as int,
                c as int,
            ) by {
                assert(done.push(Face { a: prev, b: p, c }) == fanned(
                    a as int,
                    all.take(i as int),
                    p as int,
                    c as int,
                ));
            }
            assert(out@ =~= start + next);
            done = next;
        }
        prev = p;
        i += 1;
    }
    let piece = Face { a: prev, b, c };
    out.push(piece);
    proof {
        assert(all.take(all.len() as int) =~= all);
        assert(done.push(piece) == fanned(a as int, all.take(i as int), b as int, c as int));
        assert(out@ =~= start + done.push(piece));
    }
}

/// Finds what an edge is to be split at.
fn find_edge_splits(
    points: &Vec<Point3>,
    corners: &Vec<bool>,
    table: &EdgeTable,
    a: usize,
    b: usize,
    Ghost(faces): Ghost<Seq<Face>>,
) -> (out: Vec<usize>)
    requires
        all_in_reach(points@),
        a < points@.len(),
        b < points@.len(),
        corners@.len() == points@.len(),
        forall|v: int| 0 <= v < points@.len() ==> (#[trigger] corners@[v]) == is_corner(faces, v),
        table.holds_uses(uses_of(faces), points@.len() as int),
    ensures
        ints(out@) == edge_splits(points@, faces, a as int, b as int),
        forall|i: int| 0 <= i < out@.len() ==> (#[trigger] out@[i]) < points@.len(),
{
    let ghost list = uses_of(faces);
    let ghost e = edge(a as int, b as int);
    let none: Vec<usize> = Vec::new();
    proof {
        lemma_edges_among(edges_of(list), list, EdgeKind::Open, e);
        assert(ints(none@) =~= Seq::empty());
    }
    match table.find(a, b, Ghost(list)) {
        None => none,
        Some(i) => {
            proof {
                assert(all_ends(table.edges@)[i as int] == e);
                assert(edges_of(list).contains(e));
                assert(held(table.edges@[i as int]) == uses_on(list, e));
                assert(held(table.edges@[i as int]).len() == table.edges@[i as int].uses@.len());
            }
            if table.edges[i].uses.len() <= 1 {
                find_splits(points, corners, a, b, Ghost(faces))
            } else {
                none
            }
        },
    }
}

/// One pass: every triangle with an edge to split is fanned across it.
fn split_once(points: &Vec<Point3>, faces: &Vec<Face>, table: &EdgeTable) -> (out: (
    Vec<Face>,
    bool,
))
    requires
        all_in_reach(points@),
        all_fit(faces@, points@.len() as int),
        table.holds_uses(uses_of(faces@), points@.len() as int),
    ensures
        out.0@ == split_faces(points@, faces@, faces@.len() as int),
        all_fit(out.0@, points@.len() as int),
        out.1 == any_split(points@, faces@, faces@.len() as int),
{
    let corners = corners_of(faces, points.len());
    let mut out: Vec<Face> = Vec::new();
    let mut any: bool = false;
    let mut i: usize = 0;
    while i < faces.len()
        invariant
            i <= faces@.len(),
            all_in_reach(points@),
            all_fit(faces@, points@.len() as int),
            table.holds_uses(uses_of(faces@), points@.len() as int),
            corners@.len() == points@.len(),
            forall|v: int|
                0 <= v < points@.len() ==> (#[trigger] corners@[v]) == is_corner(faces@, v),
            out@ == split_faces(points@, faces@, i as int),
            all_fit(out@, points@.len() as int),
            any == any_split(points@, faces@, i as int),
        decreases faces@.len() - i,
    {
        let f: Face = faces[i];
        let ghost n = points@.len() as int;
        proof {
            assert(fits(faces@[i as int], n));
        }
        let first = find_edge_splits(points, &corners, table, f.a, f.b, Ghost(faces@));
        proof {
            assert(ints(first@).len() == first@.len());
        }
        if first.len() > 0 {
            extend_fan(&mut out, f.a, &first, f.b, f.c, Ghost(n));
            any = true;
        } else {
            let second = find_edge_splits(points, &corners, table, f.b, f.c, Ghost(faces@));
            proof {
                assert(ints(second@).len() == second@.len());
            }
            if second.len() > 0 {
                extend_fan(&mut out, f.b, &second, f.c, f.a, Ghost(n));
                any = true;
            } else {
                let third = find_edge_splits(points, &corners, table, f.c, f.a, Ghost(faces@));
                proof {
                    assert(ints(third@).len() == third@.len());
                }
                if third.len() > 0 {
                    extend_fan(&mut out, f.c, &third, f.a, f.b, Ghost(n));
                    any = true;
                } else {
                    let ghost before = out@;
                    out.push(f);
                    proof {
                        assert(out@ =~= before + seq![f]);
                    }
                }
            }
        }
        i += 1;
    }
    (out, any)
}

/// Splits open edges at the vertices that lie on them, in at most eight passes. A
/// mesh without open edges is left as it is.
pub fn split_t_junctions(points: &Vec<Point3>, faces: Vec<Face>) -> (out: Vec<Face>)
    requires
        all_in_reach(points@),
        all_fit(faces@, points@.len() as int),
    ensures
        out@ == split_passes(points@, faces@, 8),
        all_fit(out@, points@.len() as int),
{
    let ghost start = faces@;
    let mut now: Vec<Face> = faces;
    let mut left: usize = 8;
    while left > 0
        invariant
            left <= 8,
            start == faces@,
            all_in_reach(points@),
            all_fit(now@, points@.len() as int),
            split_passes(points@, start, 8) == split_passes(points@, now@, left as nat),
        decreases left,
    {
        let table = edge_table(&now, points.len());
        let open = open_edges(&table, Ghost(uses_of(now@)));
        proof {
            assert(pair_list(open@).len() == open@.len());
        }
        if open.len() == 0 {
            return now;
        }
        let (pieces, any) = split_once(points, &now, &table);
        proof {
            lemma_proper_faces(pieces@, points@.len() as int);
        }
        now = keep_proper(&pieces);
        if !any {
            return now;
        }
        left -= 1;
    }
    now
}

/// A mesh without open edges is left as it is.
pub proof fn lemma_closed_is_kept(points: Seq<Point3>, faces: Seq<Face>)
    requires
        edges_of_kind(uses_of(faces), EdgeKind::Open).len() == 0,
    ensures
        split_passes(points, faces, 8) == faces,
{
}

} // verus!
