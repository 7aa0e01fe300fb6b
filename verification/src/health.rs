//! Structural health of a mesh: whether its surface is closed, and what is wrong
//! with it if it is not.
//!
//! What goes wrong here does not show in a preview, only in a slicer: a hole that is
//! filled, or a blank plate where walls went missing. Both come from a surface that
//! is not closed, which can be told directly.

use crate::edges::{
    all_ends, edge, edge_kind, edge_table, edges_among, edges_of, edges_of_kind, ends, face_uses,
    held, lemma_edges_among, lemma_edges_of, lemma_uses_on, use_edge, uses_of, uses_on, EdgeKind,
    EdgeTable,
};
use crate::graph::{by_edges, edge_list, groups, joined, linked};
use crate::mesh::{
    all_fit, all_in_reach, enclosed, fits, in_reach, is_proper, keep_proper, lemma_proper_faces,
    proper, proper_faces, volume, Face, Mesh, Point3, MOST_FACES,
};
use crate::seams::{corners_of, is_corner};
use crate::strings::{decimal, number};
use crate::text::{extend, extend_str, to_chars, to_text};
use crate::units::{
    extend_decimal, extend_sign, extend_wide_length, magnitude, sign, size_of, thousandths,
};
use vstd::prelude::*;

verus! {

/// What is found of a mesh.
#[derive(Debug)]
pub struct MeshReport {
    pub triangles: usize,
    pub vertices: usize,
    /// Edges used by one triangle only: holes in the surface.
    pub boundary_edges: usize,
    /// Edges shared by three or more triangles: the surface touches itself.
    pub nonmanifold_edges: usize,
    /// Edges that two triangles use the same way: one of them is the wrong way
    /// round.
    pub flipped_edges: usize,
    /// Triangles without area.
    pub degenerate_triangles: usize,
    /// Connected pieces of the surface, triangles without area left aside.
    pub shells: usize,
    /// Tunnels through the solid, over all shells; zero where the surface is not
    /// closed.
    pub genus: i128,
    /// Six times the enclosed volume, in cubes of the grid.
    pub six_volume: i128,
    /// Twice the middle of up to eight open edges.
    pub boundary_samples: Vec<Point3>,
    /// Twice the middle of up to eight edges shared by three or more triangles.
    pub nonmanifold_samples: Vec<Point3>,
}

/// How many triangles have no area.
pub open spec fn degenerates(faces: Seq<Face>) -> nat
    decreases faces.len(),
{
    if faces.len() == 0 {
        0
    } else {
        degenerates(faces.drop_last()) + if is_proper(faces.last()) {
            0nat
        } else {
            1
        }
    }
}

/// Whether two triangles share an edge.
pub open spec fn shares(list: Seq<(int, int, int)>, i: int, j: int) -> bool {
    &&& i != j
    &&& exists|u: (int, int, int), w: (int, int, int)| #[trigger]
        list.contains(u) && #[trigger] list.contains(w) && u.0 == i && w.0 == j && use_edge(u)
            == use_edge(w)
}

/// Sharing an edge, as a relation between triangles.
pub open spec fn sharing(list: Seq<(int, int, int)>) -> spec_fn(int, int) -> bool {
    |i: int, j: int| shares(list, i, j)
}

/// Whether there are `count` pieces among `n` things, those in one piece that a way
/// leads between.
pub open spec fn are_pieces(step: spec_fn(int, int) -> bool, n: int, count: int) -> bool {
    exists|label: Seq<int>| #[trigger] labels_pieces(label, step, n, count)
}

/// Whether labels tell the pieces apart, and number them without a gap.
pub open spec fn labels_pieces(
    label: Seq<int>,
    step: spec_fn(int, int) -> bool,
    n: int,
    count: int,
) -> bool {
    &&& label.len() == n
    &&& forall|a: int, b: int|
        0 <= a < n && 0 <= b < n ==> ((#[trigger] label[a]) == (#[trigger] label[b]) <==> linked(
            step,
            a,
            b,
        ))
    &&& forall|a: int| 0 <= a < n ==> 0 <= #[trigger] label[a] < count
    &&& forall|g: int| 0 <= g < count ==> #[trigger] label.contains(g)
}

/// Twice the middle of an edge.
pub open spec fn middle(points: Seq<Point3>, e: (int, int)) -> Point3 {
    let p = points[e.0];
    let q = points[e.1];
    Point3 { x: (p.x + q.x) as i64, y: (p.y + q.y) as i64, z: (p.z + q.z) as i64 }
}

/// Twice the middles of the first eight edges.
pub open spec fn samples(points: Seq<Point3>, edges: Seq<(int, int)>) -> Seq<Point3> {
    edges.take(if edges.len() < 8 {
        edges.len() as int
    } else {
        8
    }).map_values(|e: (int, int)| middle(points, e))
}

/// Half of a number, rounded towards zero.
pub open spec fn half(n: int) -> int {
    if n >= 0 {
        n / 2
    } else {
        -(-n / 2)
    }
}

/// How many of the first `upto` vertices are corners of triangles.
pub open spec fn corners(faces: Seq<Face>, upto: int) -> nat
    decreases upto,
{
    if upto <= 0 {
        0
    } else {
        corners(faces, upto - 1) + if is_corner(faces, upto - 1) {
            1nat
        } else {
            0
        }
    }
}

/// What a report is to say of a mesh. Triangles without area are counted, and are no
/// part of the surface.
pub open spec fn is_report(report: MeshReport, points: Seq<Point3>, faces: Seq<Face>) -> bool {
    let whole = proper_faces(faces);
    let list = uses_of(whole);
    let open = edges_of_kind(list, EdgeKind::Open);
    let crowded = edges_of_kind(list, EdgeKind::Crowded);
    &&& report.triangles == faces.len()
    &&& report.vertices == corners(faces, points.len() as int)
    &&& report.boundary_edges == open.len()
    &&& report.nonmanifold_edges == crowded.len()
    &&& report.flipped_edges == edges_of_kind(list, EdgeKind::Flipped).len()
    &&& report.degenerate_triangles == degenerates(faces)
    &&& are_pieces(sharing(list), whole.len() as int, report.shells as int)
    &&& report.genus == (if open.len() == 0 && crowded.len() == 0 {
        half(
            2 * report.shells - (corners(whole, points.len() as int) - edges_of(list).len()
                + whole.len()),
        )
    } else {
        0
    })
    &&& report.six_volume == volume(points, faces)
    &&& report.boundary_samples@ == samples(points, open)
    &&& report.nonmanifold_samples@ == samples(points, crowded)
}

/// The uses of edges are made by the triangles, between the vertices, of the mesh.
pub proof fn lemma_uses_bounds(faces: Seq<Face>, n: int)
    requires
        all_fit(faces, n),
    ensures
        forall|i: int|
            0 <= i < uses_of(faces).len() ==> {
                &&& 0 <= (#[trigger] uses_of(faces)[i]).0 < faces.len()
                &&& 0 <= uses_of(faces)[i].1 < n
                &&& 0 <= uses_of(faces)[i].2 < n
            },
        uses_of(faces).len() <= 3 * faces.len(),
    decreases faces.len(),
{
    if faces.len() > 0 {
        let front = faces.drop_last();
        assert forall|i: int| 0 <= i < front.len() implies fits(#[trigger] front[i], n) by {
            assert(front[i] == faces[i]);
        }
        lemma_uses_bounds(front, n);
        assert(fits(faces[faces.len() - 1], n));
        let known = uses_of(front);
        let out = uses_of(faces);
        assert forall|i: int| 0 <= i < out.len() implies {
            &&& 0 <= (#[trigger] out[i]).0 < faces.len()
            &&& 0 <= out[i].1 < n
            &&& 0 <= out[i].2 < n
        } by {
            if i < known.len() {
                assert(out[i] == known[i]);
            } else {
                assert(out[i] == face_uses(faces.last(), faces.len() - 1)[i - known.len()]);
            }
        }
    }
}

fn count_corners(faces: &Vec<Face>, n: usize) -> (count: usize)
    requires
        all_fit(faces@, n as int),
    ensures
        count == corners(faces@, n as int),
        count <= n,
{
    let marked = corners_of(faces, n);
    let mut count: usize = 0;
    let mut v: usize = 0;
    while v < n
        invariant
            v <= n,
            marked@.len() == n,
            forall|w: int| 0 <= w < n ==> (#[trigger] marked@[w]) == is_corner(faces@, w),
            count == corners(faces@, v as int),
            count <= v,
        decreases n - v,
    {
        if marked[v] {
            count += 1;
        }
        v += 1;
    }
    count
}

fn count_degenerate(faces: &Vec<Face>) -> (n: usize)
    ensures
        n == degenerates(faces@),
{
    let mut n: usize = 0;
    let mut i: usize = 0;
    proof {
        assert(faces@.take(0).len() == 0);
    }
    while i < faces.len()
        invariant
            i <= faces@.len(),
            n <= i,
            n == degenerates(faces@.take(i as int)),
        decreases faces@.len() - i,
    {
        proof {
            assert(faces@.take(i + 1).drop_last() =~= faces@.take(i as int));
            assert(faces@.take(i + 1).last() == faces@[i as int]);
        }
        if !proper(&faces[i]) {
            n += 1;
        }
        i += 1;
    }
    proof {
        assert(faces@.take(faces@.len() as int) =~= faces@);
    }
    n
}

/// Whether two triangles are listed as sharing an edge.
spec fn has_pair(pairs: Seq<(usize, usize)>, i: int, j: int) -> bool {
    joined(edge_list(pairs), i, j)
}

proof fn lemma_pair_more(pairs: Seq<(usize, usize)>, more: (usize, usize))
    ensures
        forall|i: int, j: int| #[trigger]
            has_pair(pairs, i, j) ==> has_pair(pairs.push(more), i, j),
        has_pair(pairs.push(more), more.0 as int, more.1 as int),
        has_pair(pairs.push(more), more.1 as int, more.0 as int),
{
    let list = edge_list(pairs);
    let out = edge_list(pairs.push(more));
    assert forall|i: int, j: int| #[trigger] has_pair(pairs, i, j) implies has_pair(
        pairs.push(more),
        i,
        j,
    ) by {
        let e = choose|e: int|
            0 <= e < list.len() && ((#[trigger] list[e]) == (i, j) || list[e] == (j, i));
        assert(out[e] == list[e]);
    }
    assert(out[pairs.len() as int] == (more.0 as int, more.1 as int));
}

/// Whether those of the first `upto` uses of an edge that different triangles make
/// are listed as shared with all uses.
spec fn uses_paired(
    pairs: Seq<(usize, usize)>,
    uses: Seq<(int, int, int)>,
    upto: int,
) -> bool {
    forall|p: int, q: int|
        0 <= p < upto && p < q < uses.len() && uses[p].0 != uses[q].0 ==> has_pair(
            pairs,
            (#[trigger] uses[p]).0,
            (#[trigger] uses[q]).0,
        )
}

spec fn pairs_sound(pairs: Seq<(usize, usize)>, list: Seq<(int, int, int)>, n: int) -> bool {
    forall|e: int|
        0 <= e < pairs.len() ==> (#[trigger] pairs[e]).0 < n && pairs[e].1 < n && shares(
            list,
            pairs[e].0 as int,
            pairs[e].1 as int,
        )
}

/// Which triangles share an edge.
fn sharing_pairs(table: &EdgeTable, Ghost(list): Ghost<Seq<(int, int, int)>>, Ghost(n): Ghost<
    int,
>) -> (pairs: Vec<(usize, usize)>)
    requires
        table.holds_uses(list, table.at@.len() as int),
        forall|i: int| 0 <= i < list.len() ==> 0 <= (#[trigger] list[i]).0 < n,
    ensures
        pairs_sound(pairs@, list, n),
        forall|i: int, j: int| #[trigger] has_pair(pairs@, i, j) <==> shares(list, i, j),
{
    let mut pairs: Vec<(usize, usize)> = Vec::new();
    let mut k: usize = 0;
    while k < table.edges.len()
        invariant
            k <= table.edges@.len(),
            table.holds_uses(list, table.at@.len() as int),
            forall|i: int| 0 <= i < list.len() ==> 0 <= (#[trigger] list[i]).0 < n,
            pairs_sound(pairs@, list, n),
            forall|m: int|
                0 <= m < k ==> uses_paired(
                    pairs@,
                    held(#[trigger] table.edges@[m]),
                    held(table.edges@[m]).len() as int,
                ),
        decreases table.edges@.len() - k,
    {
        let e = &table.edges[k];
        let ghost uses = held(*e);
        proof {
            lemma_uses_on(list, ends(*e));
            assert(uses == uses_on(list, ends(table.edges@[k as int])));
            assert(uses.len() == e.uses@.len());
        }
        let mut p: usize = 0;
        while p < e.uses.len()
            invariant
                p <= e.uses@.len(),
                k < table.edges@.len(),
                uses == held(*e),
                uses.len() == e.uses@.len(),
                uses == uses_on(list, ends(*e)),
                forall|x: int|
                    0 <= x < uses.len() ==> use_edge(#[trigger] uses[x]) == ends(*e)
                        && list.contains(uses[x]),
                forall|i: int| 0 <= i < list.len() ==> 0 <= (#[trigger] list[i]).0 < n,
                pairs_sound(pairs@, list, n),
                uses_paired(pairs@, uses, p as int),
                forall|m: int|
                    0 <= m < k ==> uses_paired(
                        pairs@,
                        held(#[trigger] table.edges@[m]),
                        held(table.edges@[m]).len() as int,
                    ),
            decreases e.uses@.len() - p,
        {
            let mut q: usize = p + 1;
            while q < e.uses.len()
                invariant
                    p < q <= e.uses@.len(),
                    k < table.edges@.len(),
                    uses == held(*e),
                    uses.len() == e.uses@.len(),
                    uses == uses_on(list, ends(*e)),
                    forall|x: int|
                        0 <= x < uses.len() ==> use_edge(#[trigger] uses[x]) == ends(*e)
                            && list.contains(uses[x]),
                    forall|i: int| 0 <= i < list.len() ==> 0 <= (#[trigger] list[i]).0 < n,
                    pairs_sound(pairs@, list, n),
                    uses_paired(pairs@, uses, p as int),
                    forall|x: int|
                        p < x < q && uses[p as int].0 != uses[x].0 ==> has_pair(
                            pairs@,
                            uses[p as int].0,
                            (#[trigger] uses[x]).0,
                        ),
                    forall|m: int|
                        0 <= m < k ==> uses_paired(
                            pairs@,
                            held(#[trigger] table.edges@[m]),
                            held(table.edges@[m]).len() as int,
                        ),
                decreases e.uses@.len() - q,
            {
                let i: usize = e.uses[p].0;
                let j: usize = e.uses[q].0;
                proof {
                    assert(uses[p as int].0 == i);
                    assert(uses[q as int].0 == j);
                }
                if i != j {
                    let ghost done = pairs@;
                    pairs.push((i, j));
                    proof {
                        lemma_pair_more(done, (i, j));
                        let u = uses[p as int];
                        let w = uses[q as int];
                        assert(list.contains(u) && list.contains(w));
                        let x = choose|x: int| 0 <= x < list.len() && list[x] == u;
                        let y = choose|y: int| 0 <= y < list.len() && list[y] == w;
                        assert(list[x].0 < n && list[y].0 < n);
                        assert(shares(list, i as int, j as int));
                        assert(pairs@ == done.push((i, j)));
                        assert forall|m: int| 0 <= m < k implies uses_paired(
                            pairs@,
                            held(#[trigger] table.edges@[m]),
                            held(table.edges@[m]).len() as int,
                        ) by {
                            assert(uses_paired(
                                done,
                                held(table.edges@[m]),
                                held(table.edges@[m]).len() as int,
                            ));
                        }
                    }
                }
                q += 1;
            }
            p += 1;
        }
        k += 1;
    }
    proof {
        let out = edge_list(pairs@);
        assert forall|i: int, j: int| #[trigger] has_pair(pairs@, i, j) <==> shares(
            list,
            i,
            j,
        ) by {
            if has_pair(pairs@, i, j) {
                let e = choose|e: int|
                    0 <= e < out.len() && ((#[trigger] out[e]) == (i, j) || out[e] == (j, i));
                assert(out[e] == (pairs@[e].0 as int, pairs@[e].1 as int));
                assert(shares(list, pairs@[e].0 as int, pairs@[e].1 as int));
                lemma_shares_symmetric(list, pairs@[e].0 as int, pairs@[e].1 as int);
            }
            if shares(list, i, j) {
                let (u, w) = choose|u: (int, int, int), w: (int, int, int)| #[trigger]
                    list.contains(u) && #[trigger] list.contains(w) && u.0 == i && w.0 == j
                        && use_edge(u) == use_edge(w);
                let e = use_edge(u);
                lemma_edges_of(list);
                lemma_uses_on(list, e);
                let x = choose|x: int| 0 <= x < list.len() && list[x] == u;
                let y = choose|y: int| 0 <= y < list.len() && list[y] == w;
                assert(edges_of(list).contains(use_edge(list[x])));
                let m = choose|m: int| 0 <= m < edges_of(list).len() && edges_of(list)[m] == e;
                assert(all_ends(table.edges@)[m] == ends(table.edges@[m]));
                let uses = held(table.edges@[m]);
                assert(uses == uses_on(list, e));
                assert(uses.contains(list[x]) && uses.contains(list[y]));
                let p = choose|p: int| 0 <= p < uses.len() && uses[p] == u;
                let q = choose|q: int| 0 <= q < uses.len() && uses[q] == w;
                assert(uses_paired(pairs@, uses, uses.len() as int));
                if p < q {
                    assert(has_pair(pairs@, uses[p].0, uses[q].0));
                } else {
                    assert(has_pair(pairs@, uses[q].0, uses[p].0));
                    assert(joined(out, j, i));
                    assert(joined(out, i, j)) by {
                        let z = choose|z: int|
                            0 <= z < out.len() && ((#[trigger] out[z]) == (j, i) || out[z] == (
                                i,
                                j,
                            ));
                        assert(out[z] == (i, j) || out[z] == (j, i));
                    }
                }
            }
        }
    }
    pairs
}

proof fn lemma_shares_symmetric(list: Seq<(int, int, int)>, i: int, j: int)
    ensures
        shares(list, i, j) ==> shares(list, j, i),
{
    if shares(list, i, j) {
        let (u, w) = choose|u: (int, int, int), w: (int, int, int)| #[trigger]
            list.contains(u) && #[trigger] list.contains(w) && u.0 == i && w.0 == j && use_edge(u)
                == use_edge(w);
        assert(list.contains(w) && list.contains(u));
    }
}

fn count_shells(table: &EdgeTable, n: usize, Ghost(list): Ghost<Seq<(int, int, int)>>) -> (shells:
    usize)
    requires
        table.holds_uses(list, table.at@.len() as int),
        forall|i: int| 0 <= i < list.len() ==> 0 <= (#[trigger] list[i]).0 < n,
    ensures
        are_pieces(sharing(list), n as int, shells as int),
{
    let pairs = sharing_pairs(table, Ghost(list), Ghost(n as int));
    let parts = groups(n, &pairs);
    proof {
        let step = sharing(list);
        let walk = by_edges(edge_list(pairs@));
        assert forall|i: int, j: int| #[trigger] walk(i, j) == step(i, j) by {
            assert(has_pair(pairs@, i, j) <==> shares(list, i, j));
        }
        assert(walk =~= step);
        let label = parts.label@.map_values(|l: usize| l as int);
        assert forall|a: int, b: int| 0 <= a < n && 0 <= b < n implies ((#[trigger] label[a]) == (
        #[trigger] label[b]) <==> linked(step, a, b)) by {
            assert(label[a] == parts.label@[a]);
            assert(label[b] == parts.label@[b]);
        }
        assert forall|g: int| 0 <= g < parts.count implies #[trigger] label.contains(g) by {
            assert(crate::graph::has_label(parts.label@, g));
            let a = choose|a: int| 0 <= a < parts.label@.len() && (#[trigger] parts.label@[a]) == g;
            assert(label[a] == g);
        }
        assert(labels_pieces(label, step, n as int, parts.count as int));
    }
    parts.count
}

fn middle_of(points: &Vec<Point3>, lo: usize, hi: usize) -> (p: Point3)
    requires
        lo < points@.len(),
        hi < points@.len(),
        all_in_reach(points@),
    ensures
        p == middle(points@, (lo as int, hi as int)),
{
    proof {
        assert(in_reach(points@[lo as int]));
        assert(in_reach(points@[hi as int]));
    }
    let p = points[lo];
    let q = points[hi];
    Point3 { x: p.x + q.x, y: p.y + q.y, z: p.z + q.z }
}

/// Counts the edges of one kind, and gives the middles of the first eight.
fn count_kind(
    table: &EdgeTable,
    points: &Vec<Point3>,
    kind: EdgeKind,
    Ghost(list): Ghost<Seq<(int, int, int)>>,
) -> (out: (usize, Vec<Point3>))
    requires
        table.holds_uses(list, points@.len() as int),
        all_in_reach(points@),
    ensures
        out.0 == edges_of_kind(list, kind).len(),
        out.1@ == samples(points@, edges_of_kind(list, kind)),
{
    let ghost all = edges_of(list);
    let mut n: usize = 0;
    let mut found: Vec<Point3> = Vec::new();
    let mut i: usize = 0;
    proof {
        assert(all.take(0).len() == 0);
        assert(found@ =~= samples(points@, edges_among(all.take(0), list, kind)));
    }
    while i < table.edges.len()
        invariant
            i <= table.edges@.len(),
            n <= i,
            all == edges_of(list),
            table.holds_uses(list, points@.len() as int),
            all_in_reach(points@),
            n == edges_among(all.take(i as int), list, kind).len(),
            found@ == samples(points@, edges_among(all.take(i as int), list, kind)),
        decreases table.edges@.len() - i,
    {
        let e = &table.edges[i];
        let ghost known = edges_among(all.take(i as int), list, kind);
        proof {
            assert(all_ends(table.edges@)[i as int] == ends(*e));
            assert(all.take(i + 1).drop_last() =~= all.take(i as int));
            assert(all.take(i + 1).last() == ends(*e));
            assert(held(table.edges@[i as int]) == uses_on(list, ends(*e)));
        }
        let same: bool = match (edge_kind(e), &kind) {
            (EdgeKind::Open, EdgeKind::Open) => true,
            (EdgeKind::Paired, EdgeKind::Paired) => true,
            (EdgeKind::Flipped, EdgeKind::Flipped) => true,
            (EdgeKind::Crowded, EdgeKind::Crowded) => true,
            _ => false,
        };
        if same {
            let ghost before = found@;
            if n < 8 {
                found.push(middle_of(points, e.lo, e.hi));
                proof {
                    assert(found@ =~= samples(points@, known.push(ends(*e))));
                }
            } else {
                proof {
                    assert(found@ =~= samples(points@, known.push(ends(*e))));
                }
            }
            n += 1;
        }
        i += 1;
    }
    proof {
        assert(all_ends(table.edges@).len() == table.edges@.len());
        assert(all.take(all.len() as int) =~= all);
    }
    (n, found)
}

fn halved(n: i128) -> (h: i128)
    requires
        n > i128::MIN,
    ensures
        h == half(n as int),
{
    if n >= 0 {
        n / 2
    } else {
        -(-n / 2)
    }
}

/// Looks for the defects that make slicers go wrong.
pub fn validate_mesh(mesh: &Mesh) -> (report: MeshReport)
    requires
        mesh.well_formed(),
        mesh.faces@.len() <= MOST_FACES,
    ensures
        is_report(report, mesh.points@, mesh.faces@),
{
    let n: usize = mesh.points.len();
    let whole = keep_proper(&mesh.faces);
    proof {
        lemma_proper_faces(mesh.faces@, n as int);
    }
    let table = edge_table(&whole, n);
    let ghost list = uses_of(whole@);
    proof {
        lemma_uses_bounds(whole@, n as int);
        lemma_edges_of(list);
        assert(all_ends(table.edges@).len() == table.edges@.len());
    }
    let (boundary_edges, boundary_samples) = count_kind(
        &table,
        &mesh.points,
        EdgeKind::Open,
        Ghost(list),
    );
    let (nonmanifold_edges, nonmanifold_samples) = count_kind(
        &table,
        &mesh.points,
        EdgeKind::Crowded,
        Ghost(list),
    );
    let (flipped_edges, _) = count_kind(&table, &mesh.points, EdgeKind::Flipped, Ghost(list));
    let degenerate_triangles: usize = count_degenerate(&mesh.faces);
    let shells: usize = count_shells(&table, whole.len(), Ghost(list));
    let genus: i128 = if boundary_edges == 0 && nonmanifold_edges == 0 {
        let chi: i128 = count_corners(&whole, n) as i128 - table.edges.len() as i128
            + whole.len() as i128;
        halved(2 * shells as i128 - chi)
    } else {
        0
    };
    MeshReport {
        triangles: mesh.faces.len(),
        vertices: count_corners(&mesh.faces, n),
        boundary_edges,
        nonmanifold_edges,
        flipped_edges,
        degenerate_triangles,
        shells,
        genus,
        six_volume: enclosed(&mesh.points, &mesh.faces),
        boundary_samples,
        nonmanifold_samples,
    }
}

/// Whether a report is that of a closed solid: no holes, nothing that touches
/// itself, no triangle the wrong way round, and a volume.
pub open spec fn watertight(r: MeshReport) -> bool {
    r.boundary_edges == 0 && r.nonmanifold_edges == 0 && r.flipped_edges == 0 && r.six_volume > 0
}

/// In a closed solid, two triangles meet at every edge, and go along it opposite
/// ways.
pub proof fn lemma_watertight_pairs(
    report: MeshReport,
    points: Seq<Point3>,
    faces: Seq<Face>,
    e: (int, int),
)
    requires
        is_report(report, points, faces),
        watertight(report),
        edges_of(uses_of(proper_faces(faces))).contains(e),
    ensures
        ({
            let uses = uses_on(uses_of(proper_faces(faces)), e);
            &&& uses.len() == 2
            &&& uses[0].1 == uses[1].2
            &&& uses[0].2 == uses[1].1
        }),
{
    let list = uses_of(proper_faces(faces));
    lemma_edges_among(edges_of(list), list, EdgeKind::Open, e);
    lemma_edges_among(edges_of(list), list, EdgeKind::Crowded, e);
    lemma_edges_among(edges_of(list), list, EdgeKind::Flipped, e);
    lemma_uses_on(list, e);
    let uses = uses_on(list, e);
    assert(use_edge(uses[0]) == e);
    assert(use_edge(uses[1]) == e);
}

/// The tenths of a cubic millimetre in six times a volume in cubes of the grid,
/// rounded, a half away from zero.
pub open spec fn tenths(six_volume: int) -> int {
    (magnitude(six_volume) + 300_000_000_000) / 600_000_000_000
}

/// The thousandths of a cubic millimetre, rounded likewise.
pub open spec fn thousandths_of(six_volume: int) -> int {
    (magnitude(six_volume) + 3_000_000_000) / 6_000_000_000
}

/// A whole number, with its sign.
pub open spec fn signed(n: int) -> Seq<char> {
    sign(n) + decimal(magnitude(n) as nat)
}

/// A volume in cubic millimetres to one place.
pub open spec fn volume_text(six_volume: int) -> Seq<char> {
    let t = tenths(six_volume);
    sign(six_volume) + decimal((t / 10) as nat) + "."@ + decimal((t % 10) as nat)
}

/// Three digits.
pub open spec fn three_digits(n: int) -> Seq<char> {
    decimal((n / 100 % 10) as nat) + decimal((n / 10 % 10) as nat) + decimal((n % 10) as nat)
}

/// A volume in cubic millimetres to three places.
pub open spec fn fine_volume_text(six_volume: int) -> Seq<char> {
    let t = thousandths_of(six_volume);
    sign(six_volume) + decimal((t / 1000) as nat) + "."@ + three_digits(t)
}

fn extend_signed(out: &mut Vec<char>, n: i128)
    ensures
        final(out)@ == old(out)@ + signed(n as int),
{
    extend_sign(out, n);
    extend_decimal(out, size_of(n));
    proof {
        assert(out@ =~= old(out)@ + signed(n as int));
    }
}

fn extend_volume(out: &mut Vec<char>, six_volume: i128)
    ensures
        final(out)@ == old(out)@ + volume_text(six_volume as int),
{
    let t: u128 = (size_of(six_volume) + 300_000_000_000) / 600_000_000_000;
    extend_sign(out, six_volume);
    extend_decimal(out, t / 10);
    extend_str(out, ".");
    extend_decimal(out, t % 10);
    proof {
        assert(out@ =~= old(out)@ + volume_text(six_volume as int));
    }
}

fn extend_fine_volume(out: &mut Vec<char>, six_volume: i128)
    ensures
        final(out)@ == old(out)@ + fine_volume_text(six_volume as int),
{
    let t: u128 = (size_of(six_volume) + 3_000_000_000) / 6_000_000_000;
    extend_sign(out, six_volume);
    extend_decimal(out, t / 1000);
    extend_str(out, ".");
    extend_decimal(out, t / 100 % 10);
    extend_decimal(out, t / 10 % 10);
    extend_decimal(out, t % 10);
    proof {
        assert(out@ =~= old(out)@ + fine_volume_text(six_volume as int));
    }
}

/// Where a sample is, in millimetres to three places: a sample is twice a place on
/// the grid.
pub open spec fn near_text(p: Point3) -> Seq<char> {
    "\n    near ("@ + thousandths(p.x * 50) + ", "@ + thousandths(p.y * 50) + ", "@ + thousandths(
        p.z * 50,
    ) + ")"@
}

pub open spec fn near_texts(list: Seq<Point3>) -> Seq<char>
    decreases list.len(),
{
    if list.len() == 0 {
        Seq::empty()
    } else {
        near_texts(list.drop_last()) + near_text(list.last())
    }
}

fn extend_near(out: &mut Vec<char>, list: &Vec<Point3>)
    ensures
        final(out)@ == old(out)@ + near_texts(list@),
{
    let mut i: usize = 0;
    let ghost start = out@;
    proof {
        assert(list@.take(0).len() == 0);
        assert(start + near_texts(list@.take(0)) =~= start);
    }
    while i < list.len()
        invariant
            i <= list@.len(),
            out@ == start + near_texts(list@.take(i as int)),
        decreases list@.len() - i,
    {
        let p: Point3 = list[i];
        proof {
            assert(list@.take(i + 1).drop_last() =~= list@.take(i as int));
            assert(list@.take(i + 1).last() == p);
            assert(list@[i as int] == p);
        }
        let ghost before = out@;
        extend_str(out, "\n    near (");
        extend_wide_length(out, p.x as i128 * 50);
        extend_str(out, ", ");
        extend_wide_length(out, p.y as i128 * 50);
        extend_str(out, ", ");
        extend_wide_length(out, p.z as i128 * 50);
        extend_str(out, ")");
        proof {
            assert(out@ =~= before + near_text(p));
            assert(out@ =~= start + near_texts(list@.take(i + 1)));
        }
        i += 1;
    }
    proof {
        assert(list@.take(list@.len() as int) =~= list@);
    }
}

/// What is said of holes in the surface.
pub open spec fn open_text(r: MeshReport) -> Seq<char> {
    decimal(r.boundary_edges as nat)
        + " open edge(s): the surface has gaps, so the slicer may fill holes solid or produce a flat plaque"@
        + near_texts(r.boundary_samples@)
}

/// What is said of a surface that touches itself.
pub open spec fn crowded_text(r: MeshReport) -> Seq<char> {
    decimal(r.nonmanifold_edges as nat)
        + " non-manifold edge(s): three or more faces meet, so 'inside' is ambiguous"@ + near_texts(
        r.nonmanifold_samples@,
    )
}

/// What is said of triangles the wrong way round.
pub open spec fn flipped_text(r: MeshReport) -> Seq<char> {
    decimal(r.flipped_edges as nat)
        + " inconsistently-wound edge(s): some faces point the wrong way"@
}

/// What is said of a mesh without volume.
pub open spec fn hollow_text(r: MeshReport) -> Seq<char> {
    "enclosed volume is "@ + fine_volume_text(r.six_volume as int)
        + " mm³: the mesh encloses no solid"@
}

/// One more line, if there is something to say.
pub open spec fn with_line(text: Seq<char>, wrong: bool, line: Seq<char>) -> Seq<char> {
    if !wrong {
        text
    } else if text.len() == 0 {
        line
    } else {
        text + "\n"@ + line
    }
}

/// Everything that is wrong, line by line.
pub open spec fn problems_text(r: MeshReport) -> Seq<char> {
    let a = with_line(Seq::empty(), r.boundary_edges > 0, open_text(r));
    let b = with_line(a, r.nonmanifold_edges > 0, crowded_text(r));
    let c = with_line(b, r.flipped_edges > 0, flipped_text(r));
    with_line(c, r.six_volume <= 0, hollow_text(r))
}

fn add_line(out: &mut Vec<char>, wrong: bool, line: &Vec<char>)
    ensures
        final(out)@ == with_line(old(out)@, wrong, line@),
{
    if wrong {
        if out.len() > 0 {
            extend_str(out, "\n");
        }
        extend(out, line.as_slice());
        proof {
            assert(out@ =~= with_line(old(out)@, wrong, line@));
        }
    }
}

impl MeshReport {
    /// Whether the mesh is a closed solid, all triangles the right way round.
    pub fn is_watertight(&self) -> (yes: bool)
        ensures
            yes == watertight(*self),
    {
        self.boundary_edges == 0 && self.nonmanifold_edges == 0 && self.flipped_edges == 0
            && self.six_volume > 0
    }

    /// One line that sums the report up.
    pub fn summary(&self) -> (out: String)
        ensures
            out@ == decimal(self.triangles as nat) + " triangles, "@ + decimal(
                self.vertices as nat,
            ) + " vertices, "@ + decimal(self.shells as nat) + " shells, genus "@ + signed(
                self.genus as int,
            ) + ", "@ + volume_text(self.six_volume as int) + " mm³"@ + (if watertight(*self) {
                ", watertight"@
            } else {
                ", NOT watertight"@
            }),
    {
        let mut out = number(self.triangles);
        extend_str(&mut out, " triangles, ");
        extend(&mut out, number(self.vertices).as_slice());
        extend_str(&mut out, " vertices, ");
        extend(&mut out, number(self.shells).as_slice());
        extend_str(&mut out, " shells, genus ");
        extend_signed(&mut out, self.genus);
        extend_str(&mut out, ", ");
        extend_volume(&mut out, self.six_volume);
        extend_str(&mut out, " mm³");
        if self.is_watertight() {
            extend_str(&mut out, ", watertight");
        } else {
            extend_str(&mut out, ", NOT watertight");
        }
        to_text(out.as_slice())
    }

    /// Everything that is wrong with the mesh, line by line; nothing if it is sound.
    pub fn problems(&self) -> (out: Option<String>)
        ensures
            out is Some == !watertight(*self),
            out matches Some(text) ==> text@ == problems_text(*self),
    {
        if self.is_watertight() {
            return None;
        }
        let mut open = number(self.boundary_edges);
        extend_str(
            &mut open,
            " open edge(s): the surface has gaps, so the slicer may fill holes solid or produce a flat plaque",
        );
        extend_near(&mut open, &self.boundary_samples);
        let mut crowded = number(self.nonmanifold_edges);
        extend_str(
            &mut crowded,
            " non-manifold edge(s): three or more faces meet, so 'inside' is ambiguous",
        );
        extend_near(&mut crowded, &self.nonmanifold_samples);
        let mut flipped = number(self.flipped_edges);
        extend_str(
            &mut flipped,
            " inconsistently-wound edge(s): some faces point the wrong way",
        );
        let mut hollow = to_chars("enclosed volume is ");
        extend_fine_volume(&mut hollow, self.six_volume);
        extend_str(&mut hollow, " mm³: the mesh encloses no solid");
        let mut out: Vec<char> = Vec::new();
        add_line(&mut out, self.boundary_edges > 0, &open);
        add_line(&mut out, self.nonmanifold_edges > 0, &crowded);
        add_line(&mut out, self.flipped_edges > 0, &flipped);
        add_line(&mut out, self.six_volume <= 0, &hollow);
        Some(to_text(out.as_slice()))
    }
}

} // verus!
