//! Closing small holes that are left in a surface.
//!
//! What is left after edges were split is most often a sliver, where a triangle
//! without area was dropped. Only short loops are closed: a long one means that
//! something large is missing, which is to be reported and not hidden.

use crate::edges::{
    edge, edge_table, edges_of, edges_of_kind, face_uses, held, lemma_edges_of, lemma_uses_on,
    open_edges, pair_list, use_edge, uses_of, uses_on, EdgeKind, EdgeTable,
};
use crate::mesh::{all_fit, fits, is_proper, proper, Face, Point3};
use crate::seams::ints;
use vstd::prelude::*;

verus! {

/// Whether a vertex comes before another: by its first coordinate that differs.
pub open spec fn point_before(p: Point3, q: Point3) -> bool {
    p.x < q.x || (p.x == q.x && (p.y < q.y || (p.y == q.y && p.z < q.z)))
}

fn comes_first(p: &Point3, q: &Point3) -> (yes: bool)
    ensures
        yes == point_before(*p, *q),
{
    p.x < q.x || (p.x == q.x && (p.y < q.y || (p.y == q.y && p.z < q.z)))
}

/// The end of an edge that is not `v`.
pub open spec fn other_end(e: (int, int), v: int) -> int {
    if e.0 == v {
        e.1
    } else {
        e.0
    }
}

/// The way on from a vertex: of the unused edges at it, that with the first vertex
/// at its other end. Gives the number of the edge, and that vertex.
pub open spec fn way_on(
    points: Seq<Point3>,
    edges: Seq<(int, int)>,
    used: Seq<bool>,
    v: int,
    upto: int,
) -> Option<(int, int)>
    decreases upto,
{
    if upto <= 0 {
        None
    } else {
        let i = upto - 1;
        let known = way_on(points, edges, used, v, i);
        let w = other_end(edges[i], v);
        if used[i] || (edges[i].0 != v && edges[i].1 != v) {
            known
        } else {
            match known {
                None => Some((i, w)),
                Some((_, best)) => if point_before(points[w], points[best]) {
                    Some((i, w))
                } else {
                    known
                },
            }
        }
    }
}

/// The walk along open edges that started at `start` and reached the end of `ring`:
/// the loop if it comes back in at most `steps` steps, and the edges used up.
pub open spec fn walk(
    points: Seq<Point3>,
    edges: Seq<(int, int)>,
    used: Seq<bool>,
    ring: Seq<int>,
    steps: nat,
) -> (Option<Seq<int>>, Seq<bool>)
    decreases steps,
{
    if steps == 0 {
        (None, used)
    } else {
        match way_on(points, edges, used, ring.last(), edges.len() as int) {
            None => (None, used),
            Some((i, w)) => {
                let now = used.update(i, true);
                if w == ring[0] {
                    (Some(ring), now)
                } else {
                    walk(points, edges, now, ring.push(w), (steps - 1) as nat)
                }
            },
        }
    }
}

/// The list of vertices with one more put where it belongs, if it is not there.
pub open spec fn insert_vertex(points: Seq<Point3>, list: Seq<int>, v: int) -> Seq<int>
    decreases list.len(),
{
    if list.len() == 0 || point_before(points[list.last()], points[v]) {
        list.push(v)
    } else if points[list.last()] == points[v] {
        list
    } else {
        insert_vertex(points, list.drop_last(), v).push(list.last())
    }
}

/// The vertices at the first `upto` edges, in order.
pub open spec fn vertices(points: Seq<Point3>, edges: Seq<(int, int)>, upto: int) -> Seq<int>
    decreases upto,
{
    if upto <= 0 {
        Seq::empty()
    } else {
        let e = edges[upto - 1];
        insert_vertex(
            points,
            insert_vertex(points, vertices(points, edges, upto - 1), e.0),
            e.1,
        )
    }
}

/// The loops found by walks from the first `upto` of the vertices, one after the
/// other, and the edges used up. A loop has at least three vertices, and at most
/// thirty-three edges.
pub open spec fn loops(
    points: Seq<Point3>,
    edges: Seq<(int, int)>,
    starts: Seq<int>,
    upto: int,
) -> (Seq<Seq<int>>, Seq<bool>)
    decreases upto,
{
    if upto <= 0 {
        (Seq::empty(), Seq::new(edges.len(), |i: int| false))
    } else {
        let (known, used) = loops(points, edges, starts, upto - 1);
        let (ring, now) = walk(points, edges, used, seq![starts[upto - 1]], 33);
        match ring {
            Some(r) => if r.len() >= 3 {
                (known.push(r), now)
            } else {
                (known, now)
            },
            None => (known, now),
        }
    }
}

/// Whether one more triangle can use an edge: fewer than two do.
pub open spec fn has_room(faces: Seq<Face>, e: (int, int)) -> bool {
    uses_on(uses_of(faces), e).len() < 2
}

/// The triangles with one more, unless it has no area or one of its edges has no
/// room. An edge with three triangles is worse than a small gap.
pub open spec fn with_cap(faces: Seq<Face>, f: Face) -> Seq<Face> {
    if is_proper(f) && has_room(faces, edge(f.a as int, f.b as int)) && has_room(
        faces,
        edge(f.b as int, f.c as int),
    ) && has_room(faces, edge(f.c as int, f.a as int)) {
        faces.push(f)
    } else {
        faces
    }
}

/// The triangles with a loop fanned from its first vertex, up to the vertex before
/// `upto`.
pub open spec fn with_fan(faces: Seq<Face>, ring: Seq<int>, upto: int) -> Seq<Face>
    decreases upto,
{
    if upto <= 2 {
        faces
    } else {
        with_cap(
            with_fan(faces, ring, upto - 1),
            Face {
                a: ring[0] as usize,
                b: ring[upto - 2] as usize,
                c: ring[upto - 1] as usize,
            },
        )
    }
}

/// The triangles with loops fanned.
pub open spec fn with_caps(faces: Seq<Face>, rings: Seq<Seq<int>>) -> Seq<Face>
    decreases rings.len(),
{
    if rings.len() == 0 {
        faces
    } else {
        let ring = rings.last();
        with_fan(with_caps(faces, rings.drop_last()), ring, ring.len() as int)
    }
}

/// The loops of open edges of a mesh.
pub open spec fn open_loops(points: Seq<Point3>, faces: Seq<Face>) -> Seq<Seq<int>> {
    let edges = edges_of_kind(uses_of(faces), EdgeKind::Open);
    let starts = vertices(points, edges, edges.len() as int);
    loops(points, edges, starts, starts.len() as int).0
}

/// The mesh with its short loops of open edges closed.
pub open spec fn filled(points: Seq<Point3>, faces: Seq<Face>) -> Seq<Face> {
    with_caps(faces, open_loops(points, faces))
}

proof fn lemma_uses_grow(faces: Seq<Face>, f: Face, e: (int, int))
    ensures
        uses_on(uses_of(faces.push(f)), e) == uses_on(uses_of(faces), e) + uses_on(
            face_uses(f, faces.len() as int),
            e,
        ),
{
    assert(faces.push(f).drop_last() =~= faces);
    lemma_uses_add(uses_of(faces), face_uses(f, faces.len() as int), e);
}

proof fn lemma_uses_add(a: Seq<(int, int, int)>, b: Seq<(int, int, int)>, e: (int, int))
    ensures
        uses_on(a + b, e) == uses_on(a, e) + uses_on(b, e),
    decreases b.len(),
{
    if b.len() == 0 {
        assert(a + b =~= a);
        assert(uses_on(a, e) + uses_on(b, e) =~= uses_on(a, e));
    } else {
        assert((a + b).drop_last() =~= a + b.drop_last());
        lemma_uses_add(a, b.drop_last(), e);
        if use_edge(b.last()) == e {
            assert(uses_on(a, e) + uses_on(b, e) =~= (uses_on(a, e) + uses_on(
                b.drop_last(),
                e,
            )).push(b.last()));
        }
    }
}

proof fn lemma_one_use(f: Face, i: int, e: (int, int))
    requires
        is_proper(f),
    ensures
        uses_on(face_uses(f, i), e).len() <= 1,
        uses_on(face_uses(f, i), e).len() == 1 ==> e == edge(f.a as int, f.b as int) || e == edge(
            f.b as int,
            f.c as int,
        ) || e == edge(f.c as int, f.a as int),
{
    let three = face_uses(f, i);
    let two = three.drop_last();
    let one = two.drop_last();
    assert(one.drop_last() =~= Seq::empty());
    assert(uses_on(one.drop_last(), e) =~= Seq::empty());
    assert(uses_on(one, e).len() <= 1);
    assert(uses_on(two, e).len() <= 1);
}

/// Whether one mesh begins with another, and no edge has more triangles than two or
/// than it had.
pub open spec fn no_worse(faces: Seq<Face>, out: Seq<Face>) -> bool {
    &&& faces.len() <= out.len()
    &&& out.take(faces.len() as int) == faces
    &&& forall|e: (int, int)|
        (#[trigger] uses_on(uses_of(out), e)).len() <= 2 || uses_on(uses_of(out), e).len() == uses_on(
            uses_of(faces),
            e,
        ).len()
}

proof fn lemma_cap_no_worse(faces: Seq<Face>, now: Seq<Face>, f: Face)
    requires
        no_worse(faces, now),
    ensures
        no_worse(faces, with_cap(now, f)),
{
    let out = with_cap(now, f);
    if out != now {
        assert(out.take(faces.len() as int) =~= now.take(faces.len() as int));
        assert forall|e: (int, int)|
            (#[trigger] uses_on(uses_of(out), e)).len() <= 2 || uses_on(uses_of(out), e).len()
                == uses_on(uses_of(faces), e).len() by {
            lemma_uses_grow(now, f, e);
            lemma_one_use(f, now.len() as int, e);
            assert(uses_on(uses_of(now), e).len() <= 2 || uses_on(uses_of(now), e).len() == uses_on(
                uses_of(faces),
                e,
            ).len());
        }
    }
}

proof fn lemma_fan_no_worse(faces: Seq<Face>, now: Seq<Face>, ring: Seq<int>, upto: int)
    requires
        no_worse(faces, now),
    ensures
        no_worse(faces, with_fan(now, ring, upto)),
    decreases upto,
{
    if upto > 2 {
        lemma_fan_no_worse(faces, now, ring, upto - 1);
        lemma_cap_no_worse(
            faces,
            with_fan(now, ring, upto - 1),
            Face { a: ring[0] as usize, b: ring[upto - 2] as usize, c: ring[upto - 1] as usize },
        );
    }
}

proof fn lemma_caps_no_worse(faces: Seq<Face>, rings: Seq<Seq<int>>)
    ensures
        no_worse(faces, with_caps(faces, rings)),
    decreases rings.len(),
{
    if rings.len() == 0 {
        assert(faces.take(faces.len() as int) =~= faces);
    } else {
        lemma_caps_no_worse(faces, rings.drop_last());
        lemma_fan_no_worse(
            faces,
            with_caps(faces, rings.drop_last()),
            rings.last(),
            rings.last().len() as int,
        );
    }
}

/// Closing loops only adds triangles, and never gives an edge a third one.
pub proof fn lemma_filled_no_worse(points: Seq<Point3>, faces: Seq<Face>)
    ensures
        no_worse(faces, filled(points, faces)),
{
    lemma_caps_no_worse(faces, open_loops(points, faces));
}

fn find_way_on(
    points: &Vec<Point3>,
    edges: &Vec<(usize, usize)>,
    used: &Vec<bool>,
    v: usize,
) -> (found: Option<(usize, usize)>)
    requires
        used@.len() == edges@.len(),
        forall|i: int|
            0 <= i < edges@.len() ==> (#[trigger] edges@[i]).0 < points@.len() && edges@[i].1
                < points@.len(),
    ensures
        found is Some == way_on(
            points@,
            pair_list(edges@),
            used@,
            v as int,
            edges@.len() as int,
        ) is Some,
        found matches Some((i, w)) ==> {
            &&& way_on(points@, pair_list(edges@), used@, v as int, edges@.len() as int) == Some(
                (i as int, w as int),
            )
            &&& i < edges@.len()
            &&& w < points@.len()
        },
{
    let ghost all = pair_list(edges@);
    let mut found: Option<(usize, usize)> = None;
    let mut i: usize = 0;
    while i < edges.len()
        invariant
            i <= edges@.len(),
            used@.len() == edges@.len(),
            all == pair_list(edges@),
            forall|k: int|
                0 <= k < edges@.len() ==> (#[trigger] edges@[k]).0 < points@.len() && edges@[k].1
                    < points@.len(),
            found is Some == way_on(points@, all, used@, v as int, i as int) is Some,
            found matches Some((k, w)) ==> {
                &&& way_on(points@, all, used@, v as int, i as int) == Some((k as int, w as int))
                &&& k < edges@.len()
                &&& w < points@.len()
            },
        decreases edges@.len() - i,
    {
        let e: (usize, usize) = edges[i];
        proof {
            assert(all[i as int] == (e.0 as int, e.1 as int));
        }
        if !used[i] && (e.0 == v || e.1 == v) {
            let w: usize = if e.0 == v {
                e.1
            } else {
                e.0
            };
            match found {
                None => {
                    found = Some((i, w));
                },
                Some((_, best)) => {
                    if comes_first(&points[w], &points[best]) {
                        found = Some((i, w));
                    }
                },
            }
        }
        i += 1;
    }
    found
}

/// Walks along open edges from a vertex; gives the loop if there is one.
fn find_loop(
    points: &Vec<Point3>,
    edges: &Vec<(usize, usize)>,
    used: &mut Vec<bool>,
    start: usize,
) -> (ring: Option<Vec<usize>>)
    requires
        old(used)@.len() == edges@.len(),
        start < points@.len(),
        forall|i: int|
            0 <= i < edges@.len() ==> (#[trigger] edges@[i]).0 < points@.len() && edges@[i].1
                < points@.len(),
    ensures
        ({
            let (found, now) = walk(
                points@,
                pair_list(edges@),
                old(used)@,
                seq![start as int],
                33,
            );
            &&& final(used)@ == now
            &&& final(used)@.len() == edges@.len()
            &&& ring is Some == found is Some
            &&& ring matches Some(r) ==> found == Some(ints(r@)) && r@.len() > 0 && forall|k: int|
                0 <= k < r@.len() ==> (#[trigger] r@[k]) < points@.len()
        }),
{
    let ghost all = pair_list(edges@);
    let mut ring: Vec<usize> = Vec::new();
    ring.push(start);
    proof {
        assert(ints(ring@) =~= seq![start as int]);
    }
    let mut left: usize = 33;
    while left > 0
        invariant
            left <= 33,
            all == pair_list(edges@),
            used@.len() == edges@.len(),
            forall|i: int|
                0 <= i < edges@.len() ==> (#[trigger] edges@[i]).0 < points@.len() && edges@[i].1
                    < points@.len(),
            ring@.len() > 0,
            forall|k: int| 0 <= k < ring@.len() ==> (#[trigger] ring@[k]) < points@.len(),
            walk(points@, all, old(used)@, seq![start as int], 33) == walk(
                points@,
                all,
                used@,
                ints(ring@),
                left as nat,
            ),
        decreases left,
    {
        let cur: usize = ring[ring.len() - 1];
        proof {
            assert(ints(ring@).last() == cur);
            assert(ints(ring@)[0] == ring@[0]);
            assert(all.len() == edges@.len());
        }
        match find_way_on(points, edges, used, cur) {
            None => {
                return None;
            },
            Some((i, w)) => {
                used[i] = true;
                if w == ring[0] {
                    return Some(ring);
                }
                let ghost before = ring@;
                ring.push(w);
                proof {
                    assert(ints(ring@) =~= ints(before).push(w as int));
                }
            },
        }
        left -= 1;
    }
    None
}

proof fn lemma_insert_vertex_at(points: Seq<Point3>, list: Seq<int>, v: int, k: int)
    requires
        0 <= k <= list.len(),
        k > 0 ==> point_before(points[list[k - 1]], points[v]),
        forall|i: int|
            k <= i < list.len() ==> !point_before(points[#[trigger] list[i]], points[v])
                && points[list[i]] != points[v],
    ensures
        insert_vertex(points, list, v) == list.insert(k, v),
    decreases list.len(),
{
    if k == list.len() {
        assert(list.insert(k, v) =~= list.push(v));
    } else {
        let front = list.drop_last();
        assert(list[list.len() - 1] == list.last());
        assert forall|i: int| k <= i < front.len() implies !point_before(
            points[#[trigger] front[i]],
            points[v],
        ) && points[front[i]] != points[v] by {
            assert(front[i] == list[i]);
        }
        lemma_insert_vertex_at(points, front, v, k);
        assert(list.insert(k, v) =~= front.insert(k, v).push(list.last()));
    }
}

proof fn lemma_insert_vertex_known(points: Seq<Point3>, list: Seq<int>, v: int, k: int)
    requires
        0 <= k < list.len(),
        points[list[k]] == points[v],
        forall|i: int|
            k < i < list.len() ==> !point_before(points[#[trigger] list[i]], points[v])
                && points[list[i]] != points[v],
    ensures
        insert_vertex(points, list, v) == list,
    decreases list.len(),
{
    if k < list.len() - 1 {
        let front = list.drop_last();
        assert(list[list.len() - 1] == list.last());
        assert forall|i: int| k < i < front.len() implies !point_before(
            points[#[trigger] front[i]],
            points[v],
        ) && points[front[i]] != points[v] by {
            assert(front[i] == list[i]);
        }
        lemma_insert_vertex_known(points, front, v, k);
        assert(front.push(list.last()) =~= list);
    }
}

fn put_vertex(points: &Vec<Point3>, list: &mut Vec<usize>, v: usize)
    requires
        v < points@.len(),
        forall|i: int| 0 <= i < old(list)@.len() ==> (#[trigger] old(list)@[i]) < points@.len(),
    ensures
        ints(final(list)@) == insert_vertex(points@, ints(old(list)@), v as int),
        forall|i: int| 0 <= i < final(list)@.len() ==> (#[trigger] final(list)@[i]) < points@.len(),
{
    let ghost start = list@;
    let ghost all = ints(list@);
    let mut k: usize = list.len();
    while k > 0 && !comes_first(&points[list[k - 1]], &points[v])
        invariant
            k <= list@.len(),
            list@ == start,
            start == old(list)@,
            all == ints(start),
            v < points@.len(),
            forall|i: int| 0 <= i < list@.len() ==> (#[trigger] list@[i]) < points@.len(),
            forall|i: int|
                k <= i < all.len() ==> !point_before(points@[#[trigger] all[i]], points@[v as int])
                    && points@[all[i]] != points@[v as int],
        decreases k,
    {
        proof {
            assert(all[k - 1] == list@[k - 1]);
        }
        if points[list[k - 1]] == points[v] {
            proof {
                lemma_insert_vertex_known(points@, all, v as int, k - 1);
            }
            return;
        }
        k -= 1;
    }
    proof {
        if k > 0 {
            assert(all[k - 1] == start[k - 1]);
        }
        lemma_insert_vertex_at(points@, all, v as int, k as int);
    }
    list.insert(k, v);
    proof {
        assert(ints(list@) =~= all.insert(k as int, v as int));
        assert forall|i: int| 0 <= i < list@.len() implies (#[trigger] list@[i]) < points@.len() by {
            if i < k {
                assert(list@[i] == start[i]);
            } else if i > k {
                assert(list@[i] == start[i - 1]);
            }
        }
    }
}

fn boundary_vertices(points: &Vec<Point3>, edges: &Vec<(usize, usize)>) -> (out: Vec<usize>)
    requires
        forall|i: int|
            0 <= i < edges@.len() ==> (#[trigger] edges@[i]).0 < points@.len() && edges@[i].1
                < points@.len(),
    ensures
        ints(out@) == vertices(points@, pair_list(edges@), edges@.len() as int),
        forall|i: int| 0 <= i < out@.len() ==> (#[trigger] out@[i]) < points@.len(),
{
    let ghost all = pair_list(edges@);
    let mut out: Vec<usize> = Vec::new();
    let mut i: usize = 0;
    proof {
        assert(ints(out@) =~= Seq::empty());
    }
    while i < edges.len()
        invariant
            i <= edges@.len(),
            all == pair_list(edges@),
            forall|k: int|
                0 <= k < edges@.len() ==> (#[trigger] edges@[k]).0 < points@.len() && edges@[k].1
                    < points@.len(),
            ints(out@) == vertices(points@, all, i as int),
            forall|k: int| 0 <= k < out@.len() ==> (#[trigger] out@[k]) < points@.len(),
        decreases edges@.len() - i,
    {
        proof {
            assert(all[i as int] == (edges@[i as int].0 as int, edges@[i as int].1 as int));
        }
        put_vertex(points, &mut out, edges[i].0);
        put_vertex(points, &mut out, edges[i].1);
        i += 1;
    }
    out
}

/// Rings as lists of vertices.
pub open spec fn ring_list(rings: Seq<Vec<usize>>) -> Seq<Seq<int>> {
    rings.map_values(|r: Vec<usize>| ints(r@))
}

fn find_loops(points: &Vec<Point3>, edges: &Vec<(usize, usize)>) -> (rings: Vec<Vec<usize>>)
    requires
        forall|i: int|
            0 <= i < edges@.len() ==> (#[trigger] edges@[i]).0 < points@.len() && edges@[i].1
                < points@.len(),
    ensures
        ({
            let all = pair_list(edges@);
            let starts = vertices(points@, all, all.len() as int);
            ring_list(rings@) == loops(points@, all, starts, starts.len() as int).0
        }),
        forall|k: int, m: int|
            0 <= k < rings@.len() && 0 <= m < rings@[k]@.len() ==> (#[trigger] rings@[k]@[m])
                < points@.len(),
{
    let ghost all = pair_list(edges@);
    let starts = boundary_vertices(points, edges);
    let ghost from = ints(starts@);
    let mut used: Vec<bool> = Vec::new();
    let mut i: usize = 0;
    while i < edges.len()
        invariant
            i <= edges@.len(),
            used@.len() == i,
            forall|k: int| 0 <= k < i ==> (#[trigger] used@[k]) == false,
        decreases edges@.len() - i,
    {
        used.push(false);
        i += 1;
    }
    let mut rings: Vec<Vec<usize>> = Vec::new();
    let mut s: usize = 0;
    proof {
        assert(all.len() == edges@.len());
        assert(used@ =~= Seq::new(all.len(), |i: int| false));
        assert(ring_list(rings@) =~= Seq::empty());
    }
    while s < starts.len()
        invariant
            s <= starts@.len(),
            all == pair_list(edges@),
            from == ints(starts@),
            used@.len() == edges@.len(),
            forall|k: int|
                0 <= k < edges@.len() ==> (#[trigger] edges@[k]).0 < points@.len() && edges@[k].1
                    < points@.len(),
            forall|k: int| 0 <= k < starts@.len() ==> (#[trigger] starts@[k]) < points@.len(),
            (ring_list(rings@), used@) == loops(points@, all, from, s as int),
            forall|k: int, m: int|
                0 <= k < rings@.len() && 0 <= m < rings@[k]@.len() ==> (#[trigger] rings@[k]@[m])
                    < points@.len(),
        decreases starts@.len() - s,
    {
        proof {
            assert(from[s as int] == starts@[s as int]);
        }
        match find_loop(points, edges, &mut used, starts[s]) {
            None => {},
            Some(ring) => {
                proof {
                    assert(ints(ring@).len() == ring@.len());
                }
                if ring.len() >= 3 {
                    let ghost before = rings@;
                    rings.push(ring);
                    proof {
                        assert(ring_list(rings@) =~= ring_list(before).push(ints(ring@)));
                        assert forall|k: int, m: int|
                            0 <= k < rings@.len() && 0 <= m < rings@[k]@.len() implies (
                        #[trigger] rings@[k]@[m]) < points@.len() by {
                            if k < before.len() {
                                assert(rings@[k] == before[k]);
                                assert(before[k]@[m] < points@.len());
                            }
                        }
                    }
                }
            },
        }
        s += 1;
    }
    proof {
        assert(from.len() == starts@.len());
    }
    rings
}

fn room(table: &EdgeTable, a: usize, b: usize, Ghost(faces): Ghost<Seq<Face>>) -> (yes: bool)
    requires
        table.holds_uses(uses_of(faces), table.at@.len() as int),
        a < table.at@.len(),
        b < table.at@.len(),
    ensures
        yes == has_room(faces, edge(a as int, b as int)),
{
    let ghost list = uses_of(faces);
    let ghost e = edge(a as int, b as int);
    match table.find(a, b, Ghost(list)) {
        None => {
            proof {
                lemma_uses_on(list, e);
                lemma_edges_of(list);
                if uses_on(list, e).len() > 0 {
                    let u = uses_on(list, e)[0];
                    assert(list.contains(u));
                    let x = choose|x: int| 0 <= x < list.len() && list[x] == u;
                    assert(edges_of(list).contains(use_edge(list[x])));
                }
            }
            true
        },
        Some(i) => {
            proof {
                assert(held(table.edges@[i as int]) == uses_on(list, e));
                assert(held(table.edges@[i as int]).len() == table.edges@[i as int].uses@.len());
            }
            table.edges[i].uses.len() < 2
        },
    }
}

fn put_cap(faces: &mut Vec<Face>, table: &mut EdgeTable, f: Face)
    requires
        old(table).holds_uses(uses_of(old(faces)@), old(table).at@.len() as int),
        all_fit(old(faces)@, old(table).at@.len() as int),
        fits(f, old(table).at@.len() as int),
    ensures
        final(faces)@ == with_cap(old(faces)@, f),
        final(table).at@.len() == old(table).at@.len(),
        final(table).holds_uses(uses_of(final(faces)@), final(table).at@.len() as int),
        all_fit(final(faces)@, final(table).at@.len() as int),
{
    if proper(&f) && room(table, f.a, f.b, Ghost(faces@)) && room(table, f.b, f.c, Ghost(faces@))
        && room(table, f.c, f.a, Ghost(faces@)) {
        let ghost before = faces@;
        table.put_face(&f, faces.len(), Ghost(uses_of(faces@)));
        faces.push(f);
        proof {
            assert(faces@.drop_last() =~= before);
        }
    }
}

fn put_fan(faces: &mut Vec<Face>, table: &mut EdgeTable, ring: &Vec<usize>)
    requires
        old(table).holds_uses(uses_of(old(faces)@), old(table).at@.len() as int),
        all_fit(old(faces)@, old(table).at@.len() as int),
        forall|k: int| 0 <= k < ring@.len() ==> (#[trigger] ring@[k]) < old(table).at@.len(),
    ensures
        final(faces)@ == with_fan(old(faces)@, ints(ring@), ring@.len() as int),
        final(table).at@.len() == old(table).at@.len(),
        final(table).holds_uses(uses_of(final(faces)@), final(table).at@.len() as int),
        all_fit(final(faces)@, final(table).at@.len() as int),
{
    let ghost all = ints(ring@);
    let mut upto: usize = 2;
    while upto < ring.len()
        invariant
            2 <= upto,
            upto == 2 || upto <= ring@.len(),
            all == ints(ring@),
            table.at@.len() == old(table).at@.len(),
            forall|k: int| 0 <= k < ring@.len() ==> (#[trigger] ring@[k]) < table.at@.len(),
            table.holds_uses(uses_of(faces@), table.at@.len() as int),
            all_fit(faces@, table.at@.len() as int),
            faces@ == with_fan(old(faces)@, all, upto as int),
        decreases ring@.len() - upto,
    {
        proof {
            assert(all[0] == ring@[0]);
            assert(all[upto - 1] == ring@[upto - 1]);
            assert(all[upto as int] == ring@[upto as int]);
        }
        let f = Face { a: ring[0], b: ring[upto - 1], c: ring[upto] };
        put_cap(faces, table, f);
        upto += 1;
    }
}

/// Closes the short loops of open edges by fanning each from its first vertex. Never
/// gives an edge a third triangle.
pub fn fill_boundary_loops(points: &Vec<Point3>, faces: Vec<Face>) -> (out: Vec<Face>)
    requires
        all_fit(faces@, points@.len() as int),
    ensures
        out@ == filled(points@, faces@),
        all_fit(out@, points@.len() as int),
{
    let ghost start = faces@;
    let mut now: Vec<Face> = faces;
    let mut table = edge_table(&now, points.len());
    let open = open_edges(&table, Ghost(uses_of(now@)));
    let rings = find_loops(points, &open);
    let ghost all = ring_list(rings@);
    let mut i: usize = 0;
    proof {
        assert(all.take(0).len() == 0);
    }
    while i < rings.len()
        invariant
            i <= rings@.len(),
            all == ring_list(rings@),
            table.at@.len() == points@.len(),
            table.holds_uses(uses_of(now@), points@.len() as int),
            all_fit(now@, points@.len() as int),
            forall|k: int, m: int|
                0 <= k < rings@.len() && 0 <= m < rings@[k]@.len() ==> (#[trigger] rings@[k]@[m])
                    < points@.len(),
            now@ == with_caps(start, all.take(i as int)),
        decreases rings@.len() - i,
    {
        proof {
            assert(all.take(i + 1).drop_last() =~= all.take(i as int));
            assert(all.take(i + 1).last() == ints(rings@[i as int]@));
            assert(ints(rings@[i as int]@).len() == rings@[i as int]@.len());
        }
        put_fan(&mut now, &mut table, &rings[i]);
        i += 1;
    }
    proof {
        assert(all.take(all.len() as int) =~= all);
    }
    now
}

} // verus!
