//! Edges of a mesh, and the triangles that use them.

use crate::mesh::{all_fit, fits, is_proper, proper, Face};
use vstd::prelude::*;

verus! {

/// The edge between two vertices: the lesser number first.
pub open spec fn edge(a: int, b: int) -> (int, int) {
    if a <= b {
        (a, b)
    } else {
        (b, a)
    }
}

/// The use of an edge by a triangle: the number of the triangle, and the vertices
/// that it goes from and to.
pub open spec fn use_edge(u: (int, int, int)) -> (int, int) {
    edge(u.1, u.2)
}

/// The uses that one triangle makes of edges; none if it has no area.
pub open spec fn face_uses(f: Face, i: int) -> Seq<(int, int, int)> {
    if is_proper(f) {
        seq![(i, f.a as int, f.b as int), (i, f.b as int, f.c as int), (i, f.c as int, f.a as int)]
    } else {
        Seq::empty()
    }
}

/// The uses that triangles make of edges, triangle by triangle.
pub open spec fn uses_of(faces: Seq<Face>) -> Seq<(int, int, int)>
    decreases faces.len(),
{
    if faces.len() == 0 {
        Seq::empty()
    } else {
        uses_of(faces.drop_last()) + face_uses(faces.last(), faces.len() - 1)
    }
}

/// Those uses that are of one edge.
pub open spec fn uses_on(list: Seq<(int, int, int)>, e: (int, int)) -> Seq<(int, int, int)>
    decreases list.len(),
{
    if list.len() == 0 {
        Seq::empty()
    } else if use_edge(list.last()) == e {
        uses_on(list.drop_last(), e).push(list.last())
    } else {
        uses_on(list.drop_last(), e)
    }
}

/// The edges used, each once, in the order in which they first come.
pub open spec fn edges_of(list: Seq<(int, int, int)>) -> Seq<(int, int)>
    decreases list.len(),
{
    if list.len() == 0 {
        Seq::empty()
    } else {
        let known = edges_of(list.drop_last());
        let e = use_edge(list.last());
        if known.contains(e) {
            known
        } else {
            known.push(e)
        }
    }
}

/// What the uses of an edge tell of the surface there.
pub enum EdgeKind {
    /// One triangle: the surface ends.
    Open,
    /// Two triangles, going opposite ways.
    Paired,
    /// Two triangles, going the same way: one of them is the wrong way round.
    Flipped,
    /// Three triangles or more: the surface touches itself.
    Crowded,
}

pub open spec fn kind_of(uses: Seq<(int, int, int)>) -> EdgeKind {
    if uses.len() <= 1 {
        EdgeKind::Open
    } else if uses.len() > 2 {
        EdgeKind::Crowded
    } else if uses[0].1 == uses[1].1 {
        EdgeKind::Flipped
    } else {
        EdgeKind::Paired
    }
}

/// Those among the edges that are of one kind.
pub open spec fn edges_among(
    edges: Seq<(int, int)>,
    list: Seq<(int, int, int)>,
    kind: EdgeKind,
) -> Seq<(int, int)>
    decreases edges.len(),
{
    if edges.len() == 0 {
        Seq::empty()
    } else if kind_of(uses_on(list, edges.last())) == kind {
        edges_among(edges.drop_last(), list, kind).push(edges.last())
    } else {
        edges_among(edges.drop_last(), list, kind)
    }
}

/// The edges of one kind, in the order in which they first come.
pub open spec fn edges_of_kind(list: Seq<(int, int, int)>, kind: EdgeKind) -> Seq<(int, int)> {
    edges_among(edges_of(list), list, kind)
}

/// An edge, with the triangles that use it and the vertex that each goes from.
pub struct Edge {
    pub lo: usize,
    pub hi: usize,
    pub uses: Vec<(usize, usize)>,
}

/// Edges, and for each vertex those in which it is the lesser.
pub struct EdgeTable {
    pub edges: Vec<Edge>,
    pub at: Vec<Vec<usize>>,
}

pub open spec fn ends(e: Edge) -> (int, int) {
    (e.lo as int, e.hi as int)
}

pub open spec fn all_ends(edges: Seq<Edge>) -> Seq<(int, int)> {
    edges.map_values(|e: Edge| ends(e))
}

/// The uses that an entry holds.
pub open spec fn held(e: Edge) -> Seq<(int, int, int)> {
    e.uses@.map_values(
        |u: (usize, usize)|
            (
                u.0 as int,
                u.1 as int,
                if u.1 == e.lo {
                    e.hi as int
                } else {
                    e.lo as int
                },
            ),
    )
}

impl EdgeTable {
    /// Whether the table holds the given uses, and finds every edge by its lesser
    /// vertex.
    pub open spec fn holds_uses(&self, list: Seq<(int, int, int)>, n: int) -> bool {
        &&& all_ends(self.edges@) == edges_of(list)
        &&& self.at@.len() == n
        &&& forall|i: int|
            0 <= i < self.edges@.len() ==> held(#[trigger] self.edges@[i]) == uses_on(
                list,
                ends(self.edges@[i]),
            )
        &&& forall|i: int|
            0 <= i < self.edges@.len() ==> (#[trigger] self.edges@[i]).lo <= self.edges@[i].hi
                && self.edges@[i].hi < n && self.at@[self.edges@[i].lo as int]@.contains(
                i as usize,
            )
        &&& forall|v: int, k: int|
            0 <= v < n && 0 <= k < self.at@[v]@.len() ==> (#[trigger] self.at@[v]@[k])
                < self.edges@.len() && self.edges@[self.at@[v]@[k] as int].lo == v
    }
}

/// Every edge that is listed is used, and every use is of a listed edge; no edge is
/// listed twice.
pub proof fn lemma_edges_of(list: Seq<(int, int, int)>)
    ensures
        forall|i: int| 0 <= i < list.len() ==> edges_of(list).contains(use_edge(#[trigger] list[i])),
        forall|k: int|
            0 <= k < edges_of(list).len() ==> uses_on(list, #[trigger] edges_of(list)[k]).len() > 0,
        edges_of(list).no_duplicates(),
        edges_of(list).len() <= list.len(),
    decreases list.len(),
{
    if list.len() > 0 {
        let front = list.drop_last();
        lemma_edges_of(front);
        let known = edges_of(front);
        let out = edges_of(list);
        let e = use_edge(list.last());
        assert forall|i: int| 0 <= i < list.len() implies out.contains(
            use_edge(#[trigger] list[i]),
        ) by {
            if i < front.len() {
                assert(front[i] == list[i]);
                assert(known.contains(use_edge(front[i])));
                let k = choose|k: int| 0 <= k < known.len() && known[k] == use_edge(front[i]);
                assert(out[k] == use_edge(list[i]));
            } else if !known.contains(e) {
                assert(out[known.len() as int] == e);
            }
        }
        assert forall|k: int| 0 <= k < out.len() implies uses_on(
            list,
            #[trigger] out[k],
        ).len() > 0 by {
            if k < known.len() {
                assert(out[k] == known[k]);
                assert(uses_on(front, known[k]).len() > 0);
            }
        }
    }
}

/// The uses of an edge are among all uses, and are of that edge.
pub proof fn lemma_uses_on(list: Seq<(int, int, int)>, e: (int, int))
    ensures
        uses_on(list, e).len() <= list.len(),
        forall|k: int|
            0 <= k < uses_on(list, e).len() ==> use_edge(#[trigger] uses_on(list, e)[k]) == e
                && list.contains(uses_on(list, e)[k]),
        forall|i: int|
            0 <= i < list.len() && use_edge(#[trigger] list[i]) == e ==> uses_on(list, e).contains(
                list[i],
            ),
    decreases list.len(),
{
    if list.len() > 0 {
        let front = list.drop_last();
        lemma_uses_on(front, e);
        let known = uses_on(front, e);
        let out = uses_on(list, e);
        assert forall|k: int| 0 <= k < out.len() implies use_edge(#[trigger] out[k]) == e
            && list.contains(out[k]) by {
            if k < known.len() {
                assert(out[k] == known[k]);
                assert(front.contains(known[k]));
                let i = choose|i: int| 0 <= i < front.len() && front[i] == known[k];
                assert(list[i] == out[k]);
            } else {
                assert(list[list.len() - 1] == out[k]);
            }
        }
        assert forall|i: int| 0 <= i < list.len() && use_edge(
            #[trigger] list[i],
        ) == e implies out.contains(list[i]) by {
            if i < front.len() {
                assert(front[i] == list[i]);
                assert(known.contains(front[i]));
                let k = choose|k: int| 0 <= k < known.len() && known[k] == front[i];
                assert(out[k] == list[i]);
            } else {
                assert(out[known.len() as int] == list[i]);
            }
        }
    }
}

impl EdgeTable {
    /// The table that holds nothing, for `n` vertices.
    pub fn new(n: usize) -> (table: Self)
        ensures
            table.holds_uses(Seq::empty(), n as int),
    {
        let mut at: Vec<Vec<usize>> = Vec::new();
        let mut i: usize = 0;
        while i < n
            invariant
                i <= n,
                at@.len() == i,
                forall|v: int| 0 <= v < i ==> (#[trigger] at@[v])@.len() == 0,
            decreases n - i,
        {
            at.push(Vec::new());
            i += 1;
        }
        let table = EdgeTable { edges: Vec::new(), at };
        proof {
            assert(all_ends(table.edges@) =~= edges_of(Seq::empty()));
        }
        table
    }

    /// The place of the edge between two vertices.
    pub(crate) fn find(&self, a: usize, b: usize, Ghost(list): Ghost<Seq<(int, int, int)>>) -> (found:
        Option<usize>)
        requires
            self.holds_uses(list, self.at@.len() as int),
            a < self.at@.len(),
            b < self.at@.len(),
        ensures
            match found {
                Some(i) => i < self.edges@.len() && ends(self.edges@[i as int]) == edge(
                    a as int,
                    b as int,
                ),
                None => !edges_of(list).contains(edge(a as int, b as int)),
            },
    {
        let (lo, hi): (usize, usize) = if a <= b {
            (a, b)
        } else {
            (b, a)
        };
        let near = &self.at[lo];
        let count: usize = self.edges.len();
        let mut k: usize = 0;
        while k < near.len()
            invariant
                k <= near@.len(),
                lo < self.at@.len(),
                count == self.edges@.len(),
                *near == self.at@[lo as int],
                (lo as int, hi as int) == edge(a as int, b as int),
                self.holds_uses(list, self.at@.len() as int),
                forall|j: int|
                    0 <= j < k ==> self.edges@[(#[trigger] near@[j]) as int].hi != hi,
            decreases near@.len() - k,
        {
            let i: usize = near[k];
            proof {
                assert(self.at@[lo as int]@[k as int] == i);
            }
            if self.edges[i].hi == hi {
                return Some(i);
            }
            k += 1;
        }
        proof {
            let e = edge(a as int, b as int);
            if edges_of(list).contains(e) {
                let i = choose|i: int| 0 <= i < edges_of(list).len() && edges_of(list)[i] == e;
                assert(all_ends(self.edges@)[i] == ends(self.edges@[i]));
                assert(self.at@[self.edges@[i].lo as int]@.contains(i as usize));
                let j = choose|j: int| 0 <= j < near@.len() && near@[j] == i as usize;
                assert(self.edges@[near@[j] as int].hi == hi);
            }
        }
        None
    }

    /// Adds a use.
    pub(crate) fn put(&mut self, face: usize, from: usize, to: usize, Ghost(list): Ghost<
        Seq<(int, int, int)>,
    >)
        requires
            old(self).holds_uses(list, old(self).at@.len() as int),
            from < old(self).at@.len(),
            to < old(self).at@.len(),
        ensures
            final(self).at@.len() == old(self).at@.len(),
            final(self).holds_uses(
                list.push((face as int, from as int, to as int)),
                final(self).at@.len() as int,
            ),
    {
        let ghost u = (face as int, from as int, to as int);
        let ghost e = edge(from as int, to as int);
        let ghost more = list.push(u);
        let ghost n = self.at@.len();
        let ghost before = self.edges@;
        proof {
            assert(more.drop_last() =~= list);
            assert(more.last() == u);
            lemma_edges_of(list);
        }
        match self.find(from, to, Ghost(list)) {
            Some(i) => {
                self.edges[i].uses.push((face, from));
                proof {
                    assert(all_ends(before)[i as int] == e);
                    assert(edges_of(list).contains(e));
                    assert(all_ends(self.edges@) =~= all_ends(before));
                    assert forall|j: int| 0 <= j < self.edges@.len() implies held(
                        #[trigger] self.edges@[j],
                    ) == uses_on(more, ends(self.edges@[j])) by {
                        if j == i {
                            assert(held(self.edges@[j]) =~= held(before[j]).push(u));
                        } else {
                            assert(self.edges@[j] == before[j]);
                            assert(all_ends(before)[j] != all_ends(before)[i as int]);
                        }
                    }
                    assert forall|j: int| 0 <= j < self.edges@.len() implies (
                    #[trigger] self.edges@[j]).lo <= self.edges@[j].hi && self.edges@[j].hi < n
                        && self.at@[self.edges@[j].lo as int]@.contains(j as usize) by {
                        assert(self.edges@[j].lo == before[j].lo);
                        assert(self.edges@[j].hi == before[j].hi);
                    }
                    assert forall|v: int, k: int|
                        0 <= v < n && 0 <= k < self.at@[v]@.len() implies (
                    #[trigger] self.at@[v]@[k]) < self.edges@.len()
                        && self.edges@[self.at@[v]@[k] as int].lo == v by {
                        assert(before[self.at@[v]@[k] as int].lo == v);
                    }
                }
            },
            None => {
                let (lo, hi): (usize, usize) = if from <= to {
                    (from, to)
                } else {
                    (to, from)
                };
                let i: usize = self.edges.len();
                let ghost old_at = self.at@;
                let mut uses: Vec<(usize, usize)> = Vec::new();
                uses.push((face, from));
                let fresh = Edge { lo, hi, uses };
                self.edges.push(fresh);
                self.at[lo].push(i);
                proof {
                    assert(all_ends(self.edges@) =~= all_ends(before).push(e));
                    assert(self.edges@[i as int] == fresh);
                    assert(held(fresh) =~= seq![u]);
                    assert(uses_on(list, e).len() == 0) by {
                        lemma_uses_on(list, e);
                        if uses_on(list, e).len() > 0 {
                            let w = uses_on(list, e)[0];
                            assert(list.contains(w));
                            let q = choose|q: int| 0 <= q < list.len() && list[q] == w;
                            assert(edges_of(list).contains(use_edge(list[q])));
                        }
                    }
                    assert(uses_on(list, e) =~= Seq::empty());
                    assert forall|j: int| 0 <= j < self.edges@.len() implies held(
                        #[trigger] self.edges@[j],
                    ) == uses_on(more, ends(self.edges@[j])) by {
                        if j == i {
                            assert(uses_on(more, e) =~= seq![u]);
                        } else {
                            assert(self.edges@[j] == before[j]);
                            assert(all_ends(before)[j] == ends(before[j]));
                            assert(edges_of(list).contains(ends(before[j])));
                        }
                    }
                    assert(self.at@[lo as int]@ =~= old_at[lo as int]@.push(i));
                    assert forall|j: int| 0 <= j < self.edges@.len() implies (
                    #[trigger] self.edges@[j]).lo <= self.edges@[j].hi && self.edges@[j].hi < n
                        && self.at@[self.edges@[j].lo as int]@.contains(j as usize) by {
                        if j == i {
                            assert(self.at@[lo as int]@[old_at[lo as int]@.len() as int] == i);
                        } else {
                            assert(self.edges@[j] == before[j]);
                            let v = before[j].lo as int;
                            assert(old_at[v]@.contains(j as usize));
                            let k = choose|k: int|
                                0 <= k < old_at[v]@.len() && old_at[v]@[k] == j as usize;
                            assert(self.at@[v]@[k] == j as usize);
                        }
                    }
                    assert forall|v: int, k: int|
                        0 <= v < n && 0 <= k < self.at@[v]@.len() implies (
                    #[trigger] self.at@[v]@[k]) < self.edges@.len()
                        && self.edges@[self.at@[v]@[k] as int].lo == v by {
                        if v != lo {
                            assert(self.at@[v] == old_at[v]);
                            assert(old_at[v]@[k] < before.len());
                        } else if k < old_at[v]@.len() {
                            assert(old_at[v]@[k] < before.len());
                        }
                    }
                }
            },
        }
    }

    /// Adds the uses that a triangle makes; `face` is its number.
    pub(crate) fn put_face(&mut self, f: &Face, face: usize, Ghost(list): Ghost<Seq<(int, int, int)>>)
        requires
            old(self).holds_uses(list, old(self).at@.len() as int),
            fits(*f, old(self).at@.len() as int),
        ensures
            final(self).at@.len() == old(self).at@.len(),
            final(self).holds_uses(
                list + face_uses(*f, face as int),
                final(self).at@.len() as int,
            ),
    {
        if proper(f) {
            let ghost one = list.push((face as int, f.a as int, f.b as int));
            let ghost two = one.push((face as int, f.b as int, f.c as int));
            let ghost three = two.push((face as int, f.c as int, f.a as int));
            self.put(face, f.a, f.b, Ghost(list));
            self.put(face, f.b, f.c, Ghost(one));
            self.put(face, f.c, f.a, Ghost(two));
            proof {
                assert(three =~= list + face_uses(*f, face as int));
            }
        } else {
            proof {
                assert(list + face_uses(*f, face as int) =~= list);
            }
        }
    }
}

/// The edges of a mesh with `n` vertices.
pub fn edge_table(faces: &Vec<Face>, n: usize) -> (table: EdgeTable)
    requires
        all_fit(faces@, n as int),
    ensures
        table.holds_uses(uses_of(faces@), n as int),
{
    let mut table = EdgeTable::new(n);
    let mut i: usize = 0;
    proof {
        assert(faces@.take(0).len() == 0);
        assert(uses_of(faces@.take(0)) =~= Seq::empty());
    }
    while i < faces.len()
        invariant
            i <= faces@.len(),
            all_fit(faces@, n as int),
            table.at@.len() == n,
            table.holds_uses(uses_of(faces@.take(i as int)), n as int),
        decreases faces@.len() - i,
    {
        proof {
            assert(faces@.take(i + 1).drop_last() =~= faces@.take(i as int));
            assert(faces@.take(i + 1).last() == faces@[i as int]);
        }
        table.put_face(&faces[i], i, Ghost(uses_of(faces@.take(i as int))));
        i += 1;
    }
    proof {
        assert(faces@.take(faces@.len() as int) =~= faces@);
    }
    table
}

/// The kind of the edge that an entry holds.
pub fn edge_kind(e: &Edge) -> (kind: EdgeKind)
    ensures
        kind == kind_of(held(*e)),
{
    proof {
        assert(held(*e).len() == e.uses@.len());
    }
    if e.uses.len() <= 1 {
        EdgeKind::Open
    } else if e.uses.len() > 2 {
        EdgeKind::Crowded
    } else {
        proof {
            assert(held(*e)[0].1 == e.uses@[0].1);
            assert(held(*e)[1].1 == e.uses@[1].1);
        }
        if e.uses[0].1 == e.uses[1].1 {
            EdgeKind::Flipped
        } else {
            EdgeKind::Paired
        }
    }
}

pub open spec fn pair_list(list: Seq<(usize, usize)>) -> Seq<(int, int)> {
    list.map_values(|p: (usize, usize)| (p.0 as int, p.1 as int))
}

/// The open edges of a table.
pub(crate) fn open_edges(table: &EdgeTable, Ghost(list): Ghost<Seq<(int, int, int)>>) -> (out: Vec<
    (usize, usize),
>)
    requires
        table.holds_uses(list, table.at@.len() as int),
    ensures
        pair_list(out@) == edges_of_kind(list, EdgeKind::Open),
        forall|i: int|
            0 <= i < out@.len() ==> (#[trigger] out@[i]).0 <= out@[i].1 < table.at@.len(),
{
    let ghost all = edges_of(list);
    let mut out: Vec<(usize, usize)> = Vec::new();
    let mut i: usize = 0;
    proof {
        assert(all.take(0).len() == 0);
        assert(pair_list(out@) =~= edges_among(all.take(0), list, EdgeKind::Open));
    }
    while i < table.edges.len()
        invariant
            i <= table.edges@.len(),
            all == edges_of(list),
            table.holds_uses(list, table.at@.len() as int),
            pair_list(out@) == edges_among(all.take(i as int), list, EdgeKind::Open),
            forall|j: int|
                0 <= j < out@.len() ==> (#[trigger] out@[j]).0 <= out@[j].1 < table.at@.len(),
        decreases table.edges@.len() - i,
    {
        let e = &table.edges[i];
        proof {
            assert(all_ends(table.edges@)[i as int] == ends(*e));
            assert(all.take(i + 1).drop_last() =~= all.take(i as int));
            assert(all.take(i + 1).last() == ends(*e));
            assert(held(table.edges@[i as int]) == uses_on(list, ends(*e)));
        }
        match edge_kind(e) {
            EdgeKind::Open => {
                let ghost done = out@;
                out.push((e.lo, e.hi));
                proof {
                    assert(pair_list(out@) =~= pair_list(done).push(ends(*e)));
                }
            },
            _ => {},
        }
        i += 1;
    }
    proof {
        assert(all_ends(table.edges@).len() == table.edges@.len());
        assert(all.take(all.len() as int) =~= all);
    }
    out
}

/// An edge is listed as one of a kind exactly if it is used and is of that kind.
pub proof fn lemma_edges_among(
    edges: Seq<(int, int)>,
    list: Seq<(int, int, int)>,
    kind: EdgeKind,
    e: (int, int),
)
    ensures
        edges_among(edges, list, kind).contains(e) <==> edges.contains(e) && kind_of(
            uses_on(list, e),
        ) == kind,
        edges_among(edges, list, kind).len() <= edges.len(),
    decreases edges.len(),
{
    let out = edges_among(edges, list, kind);
    if edges.len() > 0 {
        let front = edges.drop_last();
        lemma_edges_among(front, list, kind, e);
        let known = edges_among(front, list, kind);
        let last = edges.last();
        assert(edges[edges.len() - 1] == last);
        if known.contains(e) {
            let k = choose|k: int| 0 <= k < known.len() && known[k] == e;
            assert(out[k] == e);
        }
        if front.contains(e) {
            let k = choose|k: int| 0 <= k < front.len() && front[k] == e;
            assert(edges[k] == e);
        }
        if edges.contains(e) && !front.contains(e) {
            let k = choose|k: int| 0 <= k < edges.len() && edges[k] == e;
            if k < front.len() {
                assert(front[k] == e);
            }
            assert(last == e);
            if kind_of(uses_on(list, e)) == kind {
                assert(out[known.len() as int] == e);
            }
        }
        if out.contains(e) && !known.contains(e) {
            let k = choose|k: int| 0 <= k < out.len() && out[k] == e;
            if k < known.len() {
                assert(known[k] == e);
            }
            assert(last == e);
        }
    }
}

} // verus!
