//! Winding: turning triangles so that neighbours agree and normals point outward.

use crate::edges::{
    all_ends, edge_table, edges_of, edges_of_kind, ends, face_uses, held, lemma_edges_among,
    lemma_edges_of, lemma_uses_on, use_edge, uses_of, uses_on, EdgeKind, EdgeTable,
};
use crate::graph::{
    are_groups, by_edges, edge_list, groups, joined, lemma_joined_symmetric,
    lemma_linked_reflexive, lemma_linked_symmetric, lemma_linked_transitive, lemma_step_linked, linked, within, Groups,
};
use crate::health::lemma_uses_bounds;
use crate::mesh::{
    all_fit, all_in_reach, all_proper, face_volume, fits, is_proper, lemma_turned_volume, turn,
    turned, volume, volume_under, Face, Point3, MOST_FACES, MOST_VOLUME,
};
use vstd::prelude::*;

verus! {

/// Where two triangles meet at an edge that no other uses: their numbers, and
/// whether they go along it opposite ways.
pub open spec fn seam(uses: Seq<(int, int, int)>) -> (int, int, bool) {
    (uses[0].0, uses[1].0, uses[0].1 != uses[1].1)
}

/// The seams at the given edges.
pub open spec fn seams_among(edges: Seq<(int, int)>, list: Seq<(int, int, int)>) -> Seq<
    (int, int, bool),
>
    decreases edges.len(),
{
    if edges.len() == 0 {
        Seq::empty()
    } else {
        let known = seams_among(edges.drop_last(), list);
        let uses = uses_on(list, edges.last());
        if uses.len() == 2 {
            known.push(seam(uses))
        } else {
            known
        }
    }
}

/// The seams of a mesh.
pub open spec fn seams(list: Seq<(int, int, int)>) -> Seq<(int, int, bool)> {
    seams_among(edges_of(list), list)
}

/// Which triangles meet at seams.
pub open spec fn seam_pairs(list: Seq<(int, int, bool)>) -> Seq<(int, int)> {
    list.map_values(|s: (int, int, bool)| (s.0, s.1))
}

/// Meeting at a seam, as a relation between triangles.
pub open spec fn across(list: Seq<(int, int, int)>) -> spec_fn(int, int) -> bool {
    by_edges(seam_pairs(seams(list)))
}

/// Whether turning over the chosen triangles makes neighbours go opposite ways along
/// every seam.
pub open spec fn settles(list: Seq<(int, int, int)>, turns: Seq<bool>) -> bool {
    forall|k: int|
        0 <= k < seams(list).len() ==> ((#[trigger] seams(list)[k]).2 <==> turns[seams(list)[k].0]
            == turns[seams(list)[k].1])
}

/// Whether turning over the chosen triangles makes neighbours go opposite ways along
/// every seam of the piece that triangle `r` is in.
pub open spec fn settles_piece(list: Seq<(int, int, int)>, turns: Seq<bool>, r: int) -> bool {
    forall|k: int|
        0 <= k < seams(list).len() && linked(across(list), r, seams(list)[k].0) ==> ((
        #[trigger] seams(list)[k]).2 <==> turns[seams(list)[k].0] == turns[seams(list)[k].1])
}

/// Whether some choice of triangles to turn over makes neighbours agree in the piece
/// that triangle `r` is in.
pub open spec fn can_settle(list: Seq<(int, int, int)>, n: int, r: int) -> bool {
    exists|turns: Seq<bool>| turns.len() == n && #[trigger] settles_piece(list, turns, r)
}

/// Whether neighbours can be made to agree in every piece of a surface.
pub open spec fn can_settle_all(faces: Seq<Face>) -> bool {
    forall|r: int|
        0 <= r < faces.len() ==> #[trigger] can_settle(uses_of(faces), faces.len() as int, r)
}

/// The triangles, with those chosen turned over.
pub open spec fn turned_by(faces: Seq<Face>, turns: Seq<bool>) -> Seq<Face> {
    Seq::new(
        faces.len(),
        |i: int|
            if turns[i] {
                turned(faces[i])
            } else {
                faces[i]
            },
    )
}

/// Six times the volume under those of the first `upto` triangles that are in one
/// piece with triangle `i`.
pub open spec fn piece_volume(
    points: Seq<Point3>,
    faces: Seq<Face>,
    step: spec_fn(int, int) -> bool,
    i: int,
    upto: int,
) -> int
    decreases upto,
{
    if upto <= 0 {
        0
    } else {
        piece_volume(points, faces, step, i, upto - 1) + if linked(step, i, upto - 1) {
            face_volume(points, faces[upto - 1])
        } else {
            0
        }
    }
}

/// Whether triangles were turned over so that neighbours agree in every piece in which
/// they can, and so that no piece of the surface is inside out.
pub open spec fn is_outward(
    points: Seq<Point3>,
    faces: Seq<Face>,
    out: Seq<Face>,
    turns: Seq<bool>,
) -> bool {
    let list = uses_of(faces);
    &&& turns.len() == faces.len()
    &&& out == turned_by(faces, turns)
    &&& forall|r: int|
        0 <= r < faces.len() && #[trigger] can_settle(list, faces.len() as int, r)
            ==> settles_piece(list, turns, r)
    &&& forall|i: int|
        0 <= i < faces.len() ==> #[trigger] piece_volume(
            points,
            out,
            across(list),
            i,
            faces.len() as int,
        ) >= 0
}

/// The first triangle from `from` on that is in one piece with triangle `a`.
pub open spec fn lead(step: spec_fn(int, int) -> bool, a: int, from: int) -> int
    decreases a - from,
{
    if from >= a || linked(step, from, a) {
        from
    } else {
        lead(step, a, from + 1)
    }
}

/// Which triangles are turned over so that neighbours agree: those that no way leads to,
/// side by side across seams, from the first triangle of their piece as it is. That first
/// one stays.
pub open spec fn agreed(faces: Seq<Face>) -> Seq<bool> {
    let list = uses_of(faces);
    Seq::new(
        faces.len(),
        |a: int|
            !linked(by_edges(sides(seams(list))), 2 * lead(across(list), a, 0), 2 * a),
    )
}

/// Which triangles are turned over so that neighbours agree and pieces are not inside
/// out: a piece whose volume would be negative is turned as a whole. One that encloses
/// nothing keeps the winding of its first triangle.
pub open spec fn outward_turns(points: Seq<Point3>, faces: Seq<Face>) -> Seq<bool> {
    let first = turned_by(faces, agreed(faces));
    Seq::new(
        faces.len(),
        |a: int|
            agreed(faces)[a] != (piece_volume(
                points,
                first,
                across(uses_of(faces)),
                a,
                faces.len() as int,
            ) < 0),
    )
}

/// The triangles, turned outward.
pub open spec fn outward(points: Seq<Point3>, faces: Seq<Face>) -> Seq<Face> {
    turned_by(faces, outward_turns(points, faces))
}

/// The same use after its triangle was turned over or not.
pub open spec fn use_turned(u: (int, int, int), turns: Seq<bool>) -> (int, int, int) {
    if turns[u.0] {
        (u.0, u.2, u.1)
    } else {
        u
    }
}

pub open spec fn uses_turned(uses: Seq<(int, int, int)>, turns: Seq<bool>) -> Seq<
    (int, int, int),
> {
    uses.map_values(|u: (int, int, int)| use_turned(u, turns))
}

proof fn lemma_uses_on_both(a: Seq<(int, int, int)>, b: Seq<(int, int, int)>, e: (int, int))
    ensures
        uses_on(a + b, e) == uses_on(a, e) + uses_on(b, e),
    decreases b.len(),
{
    if b.len() == 0 {
        assert(a + b =~= a);
        assert(uses_on(a, e) + uses_on(b, e) =~= uses_on(a, e));
    } else {
        assert((a + b).drop_last() =~= a + b.drop_last());
        lemma_uses_on_both(a, b.drop_last(), e);
        if use_edge(b.last()) == e {
            assert(uses_on(a, e) + uses_on(b, e) =~= (uses_on(a, e) + uses_on(
                b.drop_last(),
                e,
            )).push(b.last()));
        }
    }
}

proof fn lemma_face_turned(f: Face, i: int, turns: Seq<bool>, e: (int, int))
    requires
        is_proper(f),
        turns[i],
    ensures
        uses_on(face_uses(turned(f), i), e) == uses_turned(uses_on(face_uses(f, i), e), turns),
{
    let a = (i, f.a as int, f.b as int);
    let b = (i, f.b as int, f.c as int);
    let c = (i, f.c as int, f.a as int);
    lemma_three_uses(a, b, c, e);
    let x = (i, f.a as int, f.c as int);
    let y = (i, f.c as int, f.b as int);
    let z = (i, f.b as int, f.a as int);
    lemma_three_uses(x, y, z, e);
    assert(face_uses(f, i) =~= seq![a, b, c]);
    assert(face_uses(turned(f), i) =~= seq![x, y, z]);
    assert(uses_on(face_uses(turned(f), i), e) =~= uses_turned(
        uses_on(face_uses(f, i), e),
        turns,
    ));
}

proof fn lemma_three_uses(
    a: (int, int, int),
    b: (int, int, int),
    c: (int, int, int),
    e: (int, int),
)
    requires
        use_edge(a) != use_edge(b),
        use_edge(b) != use_edge(c),
        use_edge(c) != use_edge(a),
    ensures
        uses_on(seq![a, b, c], e) == (if use_edge(a) == e {
            seq![a]
        } else if use_edge(b) == e {
            seq![b]
        } else if use_edge(c) == e {
            seq![c]
        } else {
            Seq::empty()
        }),
{
    let three = seq![a, b, c];
    let two = seq![a, b];
    let one = seq![a];
    assert(three.drop_last() =~= two);
    assert(two.drop_last() =~= one);
    assert(one.drop_last() =~= Seq::empty());
    assert(uses_on(one.drop_last(), e) =~= Seq::empty());
    assert(uses_on(one, e) =~= if use_edge(a) == e {
        seq![a]
    } else {
        Seq::empty()
    });
    assert(uses_on(two, e) =~= if use_edge(a) == e {
        seq![a]
    } else if use_edge(b) == e {
        seq![b]
    } else {
        Seq::empty()
    });
    assert(uses_on(three, e) =~= if use_edge(a) == e {
        seq![a]
    } else if use_edge(b) == e {
        seq![b]
    } else if use_edge(c) == e {
        seq![c]
    } else {
        Seq::empty()
    });
}

/// Turning triangles over turns their uses of edges round, and changes nothing else
/// of them.
pub proof fn lemma_turned_uses(faces: Seq<Face>, turns: Seq<bool>, e: (int, int))
    requires
        all_proper(faces),
        turns.len() >= faces.len(),
    ensures
        uses_on(uses_of(turned_by(faces, turns)), e) == uses_turned(
            uses_on(uses_of(faces), e),
            turns,
        ),
    decreases faces.len(),
{
    let out = turned_by(faces, turns);
    if faces.len() == 0 {
        assert(uses_on(uses_of(out), e) =~= uses_turned(uses_on(uses_of(faces), e), turns));
    } else {
        let front = faces.drop_last();
        let n = faces.len() - 1;
        assert forall|i: int| 0 <= i < front.len() implies is_proper(#[trigger] front[i]) by {
            assert(front[i] == faces[i]);
        }
        lemma_turned_uses(front, turns, e);
        assert(out.drop_last() =~= turned_by(front, turns));
        let f = faces[n];
        assert(is_proper(faces[n]));
        lemma_uses_on_both(uses_of(front), face_uses(f, n), e);
        lemma_uses_on_both(uses_of(out.drop_last()), face_uses(out.last(), n), e);
        let tail = uses_on(face_uses(f, n), e);
        assert(uses_on(face_uses(out.last(), n), e) =~= uses_turned(tail, turns)) by {
            if turns[n] {
                lemma_face_turned(f, n, turns, e);
            } else {
                lemma_uses_on(face_uses(f, n), e);
                assert forall|k: int| 0 <= k < tail.len() implies use_turned(
                    #[trigger] tail[k],
                    turns,
                ) == tail[k] by {
                    assert(face_uses(f, n).contains(tail[k]));
                }
            }
        }
        assert(uses_on(uses_of(out), e) =~= uses_turned(uses_on(uses_of(faces), e), turns));
    }
}

proof fn lemma_seam_listed(edges: Seq<(int, int)>, list: Seq<(int, int, int)>, e: (int, int))
    requires
        edges.contains(e),
        uses_on(list, e).len() == 2,
    ensures
        seams_among(edges, list).contains(seam(uses_on(list, e))),
    decreases edges.len(),
{
    let front = edges.drop_last();
    let out = seams_among(edges, list);
    let known = seams_among(front, list);
    let s = seam(uses_on(list, e));
    if edges.last() == e {
        assert(out[known.len() as int] == s);
    } else {
        let k = choose|k: int| 0 <= k < edges.len() && edges[k] == e;
        assert(front[k] == e);
        lemma_seam_listed(front, list, e);
        let m = choose|m: int| 0 <= m < known.len() && known[m] == s;
        assert(out[m] == s);
    }
}

/// Once neighbours agree, no edge is used the same way twice.
pub proof fn lemma_settled(faces: Seq<Face>, turns: Seq<bool>)
    requires
        all_proper(faces),
        turns.len() == faces.len(),
        settles(uses_of(faces), turns),
    ensures
        edges_of_kind(uses_of(turned_by(faces, turns)), EdgeKind::Flipped).len() == 0,
{
    let list = uses_of(faces);
    let out = uses_of(turned_by(faces, turns));
    let flipped = edges_of_kind(out, EdgeKind::Flipped);
    if flipped.len() > 0 {
        let e = flipped[0];
        assert(flipped.contains(e));
        lemma_edges_among(edges_of(out), out, EdgeKind::Flipped, e);
        lemma_turned_uses(faces, turns, e);
        let uses = uses_on(list, e);
        let now = uses_on(out, e);
        assert(now.len() == 2);
        assert(now[0] == use_turned(uses[0], turns));
        assert(now[1] == use_turned(uses[1], turns));
        lemma_uses_on(list, e);
        lemma_edges_of(list);
        assert(list.contains(uses[0]));
        assert(use_edge(uses[0]) == e);
        assert(use_edge(uses[1]) == e);
        let x = choose|x: int| 0 <= x < list.len() && list[x] == uses[0];
        assert(edges_of(list).contains(use_edge(list[x])));
        lemma_seam_listed(edges_of(list), list, e);
        let s = seam(uses);
        let k = choose|k: int| 0 <= k < seams(list).len() && seams(list)[k] == s;
        assert(seams(list)[k].2 <==> turns[seams(list)[k].0] == turns[seams(list)[k].1]);
        lemma_proper_uses(faces, uses[0]);
        lemma_proper_uses(faces, uses[1]);
    }
}

proof fn lemma_uses_numbers(faces: Seq<Face>)
    ensures
        forall|i: int|
            0 <= i < uses_of(faces).len() ==> 0 <= (#[trigger] uses_of(faces)[i]).0 < faces.len(),
    decreases faces.len(),
{
    if faces.len() > 0 {
        let front = faces.drop_last();
        lemma_uses_numbers(front);
        let known = uses_of(front);
        let out = uses_of(faces);
        assert forall|i: int| 0 <= i < out.len() implies 0 <= (
        #[trigger] out[i]).0 < faces.len() by {
            if i < known.len() {
                assert(out[i] == known[i]);
            } else {
                assert(out[i] == face_uses(faces.last(), faces.len() - 1)[i - known.len()]);
            }
        }
    }
}

/// Where neighbours agree in every piece, they agree everywhere.
pub proof fn lemma_pieces_settled(faces: Seq<Face>, turns: Seq<bool>)
    requires
        forall|r: int|
            0 <= r < faces.len() ==> #[trigger] settles_piece(uses_of(faces), turns, r),
    ensures
        settles(uses_of(faces), turns),
{
    let list = uses_of(faces);
    let all = seams(list);
    lemma_uses_numbers(faces);
    lemma_seam_bounds(edges_of(list), list, faces.len() as int);
    assert forall|k: int| 0 <= k < all.len() implies ((#[trigger] all[k]).2 <==> turns[all[k].0]
        == turns[all[k].1]) by {
        let r = all[k].0;
        lemma_linked_reflexive(across(list), r);
        assert(settles_piece(list, turns, r));
    }
}

proof fn lemma_proper_uses(faces: Seq<Face>, u: (int, int, int))
    requires
        uses_of(faces).contains(u),
    ensures
        u.1 != u.2,
    decreases faces.len(),
{
    let list = uses_of(faces);
    let i = choose|i: int| 0 <= i < list.len() && list[i] == u;
    if faces.len() > 0 {
        let known = uses_of(faces.drop_last());
        if i < known.len() {
            assert(known[i] == u);
            lemma_proper_uses(faces.drop_last(), u);
        } else {
            assert(face_uses(faces.last(), faces.len() - 1)[i - known.len()] == u);
        }
    }
}

/// Whether a value is the same at both ends of every step.
spec fn kept<T>(step: spec_fn(int, int) -> bool, value: spec_fn(int) -> T) -> bool {
    forall|a: int, b: int| #[trigger] step(a, b) ==> value(a) == value(b)
}

proof fn lemma_kept<T>(
    step: spec_fn(int, int) -> bool,
    value: spec_fn(int) -> T,
    a: int,
    b: int,
    steps: nat,
)
    requires
        kept(step, value),
        within(step, a, b, steps),
    ensures
        value(a) == value(b),
    decreases steps,
{
    if steps > 0 {
        if within(step, a, b, (steps - 1) as nat) {
            lemma_kept(step, value, a, b, (steps - 1) as nat);
        } else {
            let c = choose|c: int| within(step, a, c, (steps - 1) as nat) && #[trigger] step(c, b);
            lemma_kept(step, value, a, c, (steps - 1) as nat);
        }
    }
}

proof fn lemma_linked_kept<T>(
    step: spec_fn(int, int) -> bool,
    value: spec_fn(int) -> T,
    a: int,
    b: int,
)
    requires
        kept(step, value),
        linked(step, a, b),
    ensures
        value(a) == value(b),
{
    let n = choose|n: nat| within(step, a, b, n);
    lemma_kept(step, value, a, b, n);
}

/// Both sides of each triangle, joined across seams: side `2 * i` is triangle `i` as
/// it is, side `2 * i + 1` turned over.
pub open spec fn sides(list: Seq<(int, int, bool)>) -> Seq<(int, int)>
    decreases list.len(),
{
    if list.len() == 0 {
        Seq::empty()
    } else {
        let s = list.last();
        let known = sides(list.drop_last());
        if s.2 {
            known.push((2 * s.0, 2 * s.1)).push((2 * s.0 + 1, 2 * s.1 + 1))
        } else {
            known.push((2 * s.0, 2 * s.1 + 1)).push((2 * s.0 + 1, 2 * s.1))
        }
    }
}

proof fn lemma_sides(list: Seq<(int, int, bool)>)
    ensures
        sides(list).len() == 2 * list.len(),
        forall|k: int|
            0 <= k < list.len() ==> {
                let s = #[trigger] list[k];
                if s.2 {
                    sides(list)[2 * k] == (2 * s.0, 2 * s.1) && sides(list)[2 * k + 1] == (
                        2 * s.0 + 1,
                        2 * s.1 + 1,
                    )
                } else {
                    sides(list)[2 * k] == (2 * s.0, 2 * s.1 + 1) && sides(list)[2 * k + 1] == (
                        2 * s.0 + 1,
                        2 * s.1,
                    )
                }
            },
    decreases list.len(),
{
    if list.len() > 0 {
        let front = list.drop_last();
        lemma_sides(front);
        assert forall|k: int| 0 <= k < list.len() implies {
            let s = #[trigger] list[k];
            if s.2 {
                sides(list)[2 * k] == (2 * s.0, 2 * s.1) && sides(list)[2 * k + 1] == (
                    2 * s.0 + 1,
                    2 * s.1 + 1,
                )
            } else {
                sides(list)[2 * k] == (2 * s.0, 2 * s.1 + 1) && sides(list)[2 * k + 1] == (
                    2 * s.0 + 1,
                    2 * s.1,
                )
            }
        } by {
            if k < front.len() {
                assert(front[k] == list[k]);
            }
        }
    }
}

/// A way between triangles is a way between one of the sides of each.
proof fn lemma_way_between_sides(list: Seq<(int, int, bool)>, r: int, i: int, steps: nat)
    requires
        within(by_edges(seam_pairs(list)), r, i, steps),
    ensures
        linked(by_edges(sides(list)), 2 * r, 2 * i) || linked(
            by_edges(sides(list)),
            2 * r,
            2 * i + 1,
        ),
    decreases steps,
{
    let base = by_edges(seam_pairs(list));
    let both = by_edges(sides(list));
    if steps == 0 {
        lemma_linked_reflexive(both, 2 * r);
    } else if within(base, r, i, (steps - 1) as nat) {
        lemma_way_between_sides(list, r, i, (steps - 1) as nat);
    } else {
        let c = choose|c: int| within(base, r, c, (steps - 1) as nat) && #[trigger] base(c, i);
        lemma_way_between_sides(list, r, c, (steps - 1) as nat);
        let pairs = seam_pairs(list);
        assert(joined(pairs, c, i));
        let k = choose|k: int|
            0 <= k < pairs.len() && ((#[trigger] pairs[k]) == (c, i) || pairs[k] == (i, c));
        lemma_sides(list);
        assert(pairs[k] == (list[k].0, list[k].1));
        let s = list[k];
        let all = sides(list);
        let x = all[2 * k];
        let y = all[2 * k + 1];
        assert(joined(all, x.0, x.1) && joined(all, x.1, x.0));
        assert(joined(all, y.0, y.1) && joined(all, y.1, y.0));
        assert(both(x.0, x.1) && both(x.1, x.0) && both(y.0, y.1) && both(y.1, y.0));
        if linked(both, 2 * r, 2 * c) {
            if s.2 {
                assert(both(2 * c, 2 * i));
                lemma_one_more(both, 2 * r, 2 * c, 2 * i);
            } else {
                assert(both(2 * c, 2 * i + 1));
                lemma_one_more(both, 2 * r, 2 * c, 2 * i + 1);
            }
        } else {
            if s.2 {
                assert(both(2 * c + 1, 2 * i + 1));
                lemma_one_more(both, 2 * r, 2 * c + 1, 2 * i + 1);
            } else {
                assert(both(2 * c + 1, 2 * i));
                lemma_one_more(both, 2 * r, 2 * c + 1, 2 * i);
            }
        }
    }
}

proof fn lemma_one_more(step: spec_fn(int, int) -> bool, a: int, b: int, c: int)
    requires
        linked(step, a, b),
        step(b, c),
    ensures
        linked(step, a, c),
{
    crate::graph::lemma_step_linked(step, b, c);
    crate::graph::lemma_linked_transitive(step, a, b, c);
}

/// The side on which a triangle lies, for those that a way leads to from `r`.
spec fn side_value(step: spec_fn(int, int) -> bool, turns: Seq<bool>, r: int) -> spec_fn(
    int,
) -> Option<bool> {
    |x: int|
        if linked(step, r, x / 2) {
            Some(turns[x / 2] == (x % 2 == 0))
        } else {
            None
        }
}

proof fn lemma_sides_kept(list: Seq<(int, int, bool)>, turns: Seq<bool>, r: int)
    requires
        forall|k: int|
            0 <= k < list.len() && linked(by_edges(seam_pairs(list)), r, list[k].0) ==> ((
            #[trigger] list[k]).2 <==> turns[list[k].0] == turns[list[k].1]),
    ensures
        kept(by_edges(sides(list)), side_value(by_edges(seam_pairs(list)), turns, r)),
{
    let all = sides(list);
    let step = by_edges(all);
    let walk = by_edges(seam_pairs(list));
    let value = side_value(walk, turns, r);
    lemma_sides(list);
    assert forall|a: int, b: int| #[trigger] step(a, b) implies value(a) == value(b) by {
        assert(joined(all, a, b));
        let e = choose|e: int|
            0 <= e < all.len() && ((#[trigger] all[e]) == (a, b) || all[e] == (b, a));
        let k = e / 2;
        let s = list[k];
        assert(0 <= k < list.len());
        assert(e == 2 * k || e == 2 * k + 1);
        assert((2 * s.0) / 2 == s.0 && (2 * s.0 + 1) / 2 == s.0);
        assert((2 * s.1) / 2 == s.1 && (2 * s.1 + 1) / 2 == s.1);
        assert((2 * s.0) % 2 == 0 && (2 * s.0 + 1) % 2 == 1);
        assert((2 * s.1) % 2 == 0 && (2 * s.1 + 1) % 2 == 1);
        lemma_seam_within(list, k, r);
    }
}

/// Both triangles at a seam are in a piece, or neither.
proof fn lemma_seam_within(list: Seq<(int, int, bool)>, k: int, r: int)
    requires
        0 <= k < list.len(),
    ensures
        linked(by_edges(seam_pairs(list)), r, list[k].0) == linked(
            by_edges(seam_pairs(list)),
            r,
            list[k].1,
        ),
{
    let walk = by_edges(seam_pairs(list));
    let (i, j) = (list[k].0, list[k].1);
    assert(seam_pairs(list)[k] == (i, j));
    assert(joined(seam_pairs(list), i, j));
    assert(joined(seam_pairs(list), j, i));
    assert(walk(i, j) && walk(j, i));
    lemma_step_linked(walk, i, j);
    lemma_step_linked(walk, j, i);
    if linked(walk, r, i) {
        lemma_linked_transitive(walk, r, i, j);
    }
    if linked(walk, r, j) {
        lemma_linked_transitive(walk, r, j, i);
    }
}

/// What is in one piece with the same triangle is in one piece.
proof fn lemma_same_piece(edges: Seq<(int, int)>, r: int, a: int, b: int)
    requires
        linked(by_edges(edges), r, a),
        linked(by_edges(edges), b, a),
    ensures
        linked(by_edges(edges), r, b),
        linked(by_edges(edges), a, r),
{
    let walk = by_edges(edges);
    assert forall|x: int, y: int| #[trigger] walk(x, y) implies walk(y, x) by {
        lemma_joined_symmetric(edges, x, y);
    }
    lemma_linked_symmetric(walk, b, a);
    lemma_linked_symmetric(walk, r, a);
    lemma_linked_transitive(walk, r, a, b);
}

/// The seams of a table, and the sides that they join.
pub(crate) fn read_seams(table: &EdgeTable, Ghost(list): Ghost<Seq<(int, int, int)>>, n: usize) -> (out: (
    Vec<(usize, usize)>,
    Vec<(usize, usize)>,
))
    requires
        table.holds_uses(list, table.at@.len() as int),
        forall|i: int| 0 <= i < list.len() ==> 0 <= (#[trigger] list[i]).0 < n,
        n <= MOST_FACES,
    ensures
        edge_list(out.0@) == seam_pairs(seams(list)),
        edge_list(out.1@) == sides(seams(list)),
        forall|e: int|
            0 <= e < out.0@.len() ==> (#[trigger] out.0@[e]).0 < n && out.0@[e].1 < n,
        forall|e: int|
            0 <= e < out.1@.len() ==> (#[trigger] out.1@[e]).0 < 2 * n && out.1@[e].1 < 2 * n,
{
    let ghost all = edges_of(list);
    let mut base: Vec<(usize, usize)> = Vec::new();
    let mut both: Vec<(usize, usize)> = Vec::new();
    let mut k: usize = 0;
    proof {
        assert(all.take(0).len() == 0);
        assert(edge_list(base@) =~= seam_pairs(seams_among(all.take(0), list)));
        assert(edge_list(both@) =~= sides(seams_among(all.take(0), list)));
    }
    while k < table.edges.len()
        invariant
            k <= table.edges@.len(),
            n <= MOST_FACES,
            all == edges_of(list),
            table.holds_uses(list, table.at@.len() as int),
            forall|i: int| 0 <= i < list.len() ==> 0 <= (#[trigger] list[i]).0 < n,
            edge_list(base@) == seam_pairs(seams_among(all.take(k as int), list)),
            edge_list(both@) == sides(seams_among(all.take(k as int), list)),
            forall|e: int|
                0 <= e < base@.len() ==> (#[trigger] base@[e]).0 < n && base@[e].1 < n,
            forall|e: int|
                0 <= e < both@.len() ==> (#[trigger] both@[e]).0 < 2 * n && both@[e].1 < 2 * n,
        decreases table.edges@.len() - k,
    {
        let e = &table.edges[k];
        let ghost known = seams_among(all.take(k as int), list);
        let ghost uses = held(*e);
        proof {
            assert(all_ends(table.edges@)[k as int] == ends(*e));
            assert(all.take(k + 1).drop_last() =~= all.take(k as int));
            assert(all.take(k + 1).last() == ends(*e));
            assert(held(table.edges@[k as int]) == uses_on(list, ends(*e)));
            assert(uses.len() == e.uses@.len());
            lemma_uses_on(list, ends(*e));
        }
        if e.uses.len() == 2 {
            let i: usize = e.uses[0].0;
            let j: usize = e.uses[1].0;
            proof {
                assert(uses[0].0 == i && uses[1].0 == j);
                assert(list.contains(uses[0]) && list.contains(uses[1]));
                let x = choose|x: int| 0 <= x < list.len() && list[x] == uses[0];
                let y = choose|y: int| 0 <= y < list.len() && list[y] == uses[1];
                assert(list[x].0 < n && list[y].0 < n);
            }
            let ghost before = base@;
            let ghost sides_before = both@;
            let ghost s = seam(uses);
            base.push((i, j));
            if e.uses[0].1 != e.uses[1].1 {
                both.push((2 * i, 2 * j));
                both.push((2 * i + 1, 2 * j + 1));
            } else {
                both.push((2 * i, 2 * j + 1));
                both.push((2 * i + 1, 2 * j));
            }
            proof {
                assert(uses[0].1 == e.uses@[0].1 && uses[1].1 == e.uses@[1].1);
                assert(s.2 == (e.uses@[0].1 != e.uses@[1].1));
                assert(known.push(s).drop_last() =~= known);
                assert(edge_list(base@) =~= edge_list(before).push((i as int, j as int)));
                assert(seam_pairs(known.push(s)) =~= seam_pairs(known).push((s.0, s.1)));
                assert(edge_list(both@) =~= sides(known.push(s)));
            }
        }
        k += 1;
    }
    proof {
        assert(all_ends(table.edges@).len() == table.edges@.len());
        assert(all.take(all.len() as int) =~= all);
    }
    (base, both)
}

/// A triangle of each piece: the first.
fn roots_of(parts: &Groups, n: usize) -> (roots: Vec<usize>)
    requires
        parts.label@.len() == n,
        forall|a: int| 0 <= a < n ==> (#[trigger] parts.label@[a]) < parts.count,
        forall|g: int|
            0 <= g < parts.count ==> #[trigger] crate::graph::has_label(parts.label@, g),
    ensures
        roots@.len() == parts.count,
        forall|g: int|
            0 <= g < parts.count ==> (#[trigger] roots@[g]) < n && parts.label@[roots@[g] as int]
                == g,
        forall|a: int| 0 <= a < n ==> roots@[(#[trigger] parts.label@[a]) as int] <= a,
{
    let mut roots: Vec<usize> = Vec::new();
    let mut g: usize = 0;
    while g < parts.count
        invariant
            g <= parts.count,
            roots@.len() == g,
            forall|k: int| 0 <= k < g ==> (#[trigger] roots@[k]) == n,
        decreases parts.count - g,
    {
        roots.push(n);
        g += 1;
    }
    let mut i: usize = 0;
    while i < n
        invariant
            i <= n,
            parts.label@.len() == n,
            roots@.len() == parts.count,
            forall|a: int| 0 <= a < n ==> (#[trigger] parts.label@[a]) < parts.count,
            forall|k: int|
                0 <= k < roots@.len() && (#[trigger] roots@[k]) != n ==> roots@[k] < i
                    && parts.label@[roots@[k] as int] == k,
            forall|a: int|
                0 <= a < i ==> roots@[(#[trigger] parts.label@[a]) as int] <= a,
        decreases n - i,
    {
        let label: usize = parts.label[i];
        let ghost before = roots@;
        if roots[label] == n {
            roots[label] = i;
        }
        proof {
            assert forall|a: int| 0 <= a < i + 1 implies roots@[(
            #[trigger] parts.label@[a]) as int] <= a by {
                if a < i {
                    assert(before[parts.label@[a] as int] <= a);
                }
            }
        }
        i += 1;
    }
    proof {
        assert forall|k: int| 0 <= k < parts.count implies (#[trigger] roots@[k]) < n
            && parts.label@[roots@[k] as int] == k by {
            assert(crate::graph::has_label(parts.label@, k));
            let a = choose|a: int| 0 <= a < parts.label@.len() && (#[trigger] parts.label@[a]) == k;
            assert(roots@[parts.label@[a] as int] <= a);
        }
    }
    roots
}

/// Which triangles to turn over so that neighbours agree, where they can.
fn settle(base: &Groups, both: &Groups, n: usize, Ghost(faces): Ghost<Seq<Face>>) -> (
    turns: Vec<bool>)
    requires
        n <= MOST_FACES,
        n == faces.len(),
        are_groups(*base, n as int, seam_pairs(seams(uses_of(faces)))),
        are_groups(*both, 2 * n, sides(seams(uses_of(faces)))),
    ensures
        turns@ == agreed(faces),
{
    let ghost list = uses_of(faces);
    let ghost edges = seam_pairs(seams(list));
    let roots = roots_of(base, n);
    let mut turns: Vec<bool> = Vec::new();
    let mut i: usize = 0;
    while i < n
        invariant
            i <= n,
            n <= MOST_FACES,
            n == faces.len(),
            list == uses_of(faces),
            edges == seam_pairs(seams(list)),
            are_groups(*base, n as int, edges),
            are_groups(*both, 2 * n, sides(seams(list))),
            roots@.len() == base.count,
            forall|g: int|
                0 <= g < base.count ==> (#[trigger] roots@[g]) < n && base.label@[roots@[g] as int]
                    == g,
            forall|a: int| 0 <= a < n ==> roots@[(#[trigger] base.label@[a]) as int] <= a,
            turns@.len() == i,
            forall|a: int| 0 <= a < i ==> (#[trigger] turns@[a]) == agreed(faces)[a],
        decreases n - i,
    {
        let root: usize = roots[base.label[i]];
        proof {
            lemma_lead(edges, i as int);
            let first = lead(by_edges(edges), i as int, 0);
            assert(base.label@[root as int] == base.label@[i as int]);
            assert(base.label@[first] == base.label@[i as int]);
            assert(roots@[base.label@[first] as int] <= first);
            assert(linked(by_edges(edges), root as int, i as int));
            assert(root == first);
        }
        turns.push(both.label[2 * i] != both.label[2 * root]);
        i += 1;
    }
    proof {
        assert(turns@ =~= agreed(faces));
    }
    turns
}

proof fn lemma_lead_from(edges: Seq<(int, int)>, a: int, from: int)
    requires
        0 <= from <= a,
    ensures
        ({
            let first = lead(by_edges(edges), a, from);
            &&& from <= first <= a
            &&& linked(by_edges(edges), first, a)
            &&& forall|i: int| from <= i < first ==> !#[trigger] linked(by_edges(edges), i, a)
        }),
    decreases a - from,
{
    if from >= a {
        lemma_linked_reflexive(by_edges(edges), a);
    } else if !linked(by_edges(edges), from, a) {
        lemma_lead_from(edges, a, from + 1);
    }
}

proof fn lemma_lead(edges: Seq<(int, int)>, a: int)
    requires
        0 <= a,
    ensures
        ({
            let first = lead(by_edges(edges), a, 0);
            &&& 0 <= first <= a
            &&& linked(by_edges(edges), first, a)
            &&& forall|i: int| 0 <= i < first ==> !#[trigger] linked(by_edges(edges), i, a)
        }),
{
    lemma_lead_from(edges, a, 0);
}

/// Triangles in one piece have the same first one.
proof fn lemma_same_lead(edges: Seq<(int, int)>, a: int, b: int)
    requires
        0 <= a,
        0 <= b,
        linked(by_edges(edges), a, b),
    ensures
        lead(by_edges(edges), a, 0) == lead(by_edges(edges), b, 0),
{
    let walk = by_edges(edges);
    lemma_lead(edges, a);
    lemma_lead(edges, b);
    lemma_linked_both_ways(edges, a, b);
    lemma_linked_transitive(walk, lead(walk, a, 0), a, b);
    lemma_linked_transitive(walk, lead(walk, b, 0), b, a);
}

/// Neighbours agree in every piece in which they can.
proof fn lemma_agreed_settles(faces: Seq<Face>, r: int)
    requires
        0 <= r < faces.len(),
        can_settle(uses_of(faces), faces.len() as int, r),
    ensures
        settles_piece(uses_of(faces), agreed(faces), r),
{
    let list = uses_of(faces);
    let n = faces.len() as int;
    let turns = agreed(faces);
    let f = choose|f: Seq<bool>| f.len() == n && #[trigger] settles_piece(list, f, r);
    let all = seams(list);
    let edges = seam_pairs(all);
    let walk = by_edges(edges);
    let step = by_edges(sides(all));
    let value = side_value(walk, f, r);
    lemma_uses_numbers(faces);
    lemma_seam_bounds(edges_of(list), list, n);
    lemma_sides_kept(all, f, r);
    assert forall|a: int| 0 <= a < n && linked(walk, r, a) implies #[trigger] turns[a] == (f[a]
        != f[lead(walk, a, 0)]) by {
        let t = lead(walk, a, 0);
        lemma_lead(edges, a);
        lemma_same_piece(edges, r, a, t);
        let m = choose|m: nat| within(walk, t, a, m);
        lemma_way_between_sides(all, t, a, m);
        assert((2 * a) / 2 == a && (2 * a + 1) / 2 == a && (2 * t) / 2 == t);
        assert((2 * a) % 2 == 0 && (2 * a + 1) % 2 == 1 && (2 * t) % 2 == 0);
        if turns[a] {
            lemma_linked_kept(step, value, 2 * t, 2 * a + 1);
        } else {
            lemma_linked_kept(step, value, 2 * t, 2 * a);
        }
    }
    assert forall|k: int| 0 <= k < all.len() && linked(across(list), r, all[k].0) implies ((
    #[trigger] all[k]).2 <==> turns[all[k].0] == turns[all[k].1]) by {
        let i = all[k].0;
        let j = all[k].1;
        lemma_seam_within(all, k, r);
        lemma_linked_reflexive(walk, i);
        lemma_same_piece(edges, r, i, i);
        lemma_linked_transitive(walk, i, r, j);
        lemma_same_lead(edges, i, j);
        assert(all[k].2 <==> f[i] == f[j]);
    }
}

/// Triangles in one piece lie over the same volume.
proof fn lemma_same_volume(
    points: Seq<Point3>,
    faces: Seq<Face>,
    edges: Seq<(int, int)>,
    a: int,
    b: int,
    upto: int,
)
    requires
        linked(by_edges(edges), a, b),
    ensures
        piece_volume(points, faces, by_edges(edges), a, upto) == piece_volume(
            points,
            faces,
            by_edges(edges),
            b,
            upto,
        ),
    decreases upto,
{
    let walk = by_edges(edges);
    if upto > 0 {
        lemma_same_volume(points, faces, edges, a, b, upto - 1);
        let j = upto - 1;
        lemma_linked_both_ways(edges, a, b);
        if linked(walk, a, j) {
            lemma_linked_transitive(walk, b, a, j);
        }
        if linked(walk, b, j) {
            lemma_linked_transitive(walk, a, b, j);
        }
    }
}

proof fn lemma_piece_over(
    points: Seq<Point3>,
    faces: Seq<Face>,
    out: Seq<Face>,
    step: spec_fn(int, int) -> bool,
    i: int,
    over: bool,
    upto: int,
)
    requires
        0 <= upto <= faces.len(),
        faces.len() == out.len(),
        forall|k: int|
            0 <= k < faces.len() && linked(step, i, k) ==> #[trigger] out[k] == (if over {
                turned(faces[k])
            } else {
                faces[k]
            }),
    ensures
        piece_volume(points, out, step, i, upto) == (if over {
            -piece_volume(points, faces, step, i, upto)
        } else {
            piece_volume(points, faces, step, i, upto)
        }),
    decreases upto,
{
    if upto > 0 {
        lemma_piece_over(points, faces, out, step, i, over, upto - 1);
        lemma_turned_volume(points, faces[upto - 1]);
        if linked(step, i, upto - 1) {
            assert(out[upto - 1] == (if over {
                turned(faces[upto - 1])
            } else {
                faces[upto - 1]
            }));
        }
    }
}

/// Triangles that are turned outward agree with their neighbours in every piece in which
/// they can, and no piece is inside out.
pub proof fn lemma_outward(points: Seq<Point3>, faces: Seq<Face>)
    ensures
        is_outward(points, faces, outward(points, faces), outward_turns(points, faces)),
{
    let list = uses_of(faces);
    let n = faces.len() as int;
    let all = seams(list);
    let edges = seam_pairs(all);
    let walk = by_edges(edges);
    let turns = outward_turns(points, faces);
    let first = turned_by(faces, agreed(faces));
    let out = outward(points, faces);
    lemma_uses_numbers(faces);
    lemma_seam_bounds(edges_of(list), list, n);
    assert forall|r: int| 0 <= r < n && #[trigger] can_settle(
        list,
        n,
        r,
    ) implies settles_piece(list, turns, r) by {
        lemma_agreed_settles(faces, r);
        assert forall|k: int| 0 <= k < all.len() && linked(across(list), r, all[k].0) implies ((
        #[trigger] all[k]).2 <==> turns[all[k].0] == turns[all[k].1]) by {
            let a = all[k].0;
            let b = all[k].1;
            assert(edges[k] == (a, b));
            assert(joined(edges, a, b));
            lemma_step_linked(walk, a, b);
            lemma_same_volume(points, first, edges, a, b, n);
            assert(all[k].2 <==> agreed(faces)[a] == agreed(faces)[b]);
        }
    }
    assert forall|i: int| 0 <= i < n implies #[trigger] piece_volume(
        points,
        out,
        across(list),
        i,
        n,
    ) >= 0 by {
        let over = piece_volume(points, first, walk, i, n) < 0;
        assert forall|k: int| 0 <= k < n && linked(walk, i, k) implies #[trigger] out[k] == (if over {
            turned(first[k])
        } else {
            first[k]
        }) by {
            lemma_same_volume(points, first, edges, i, k, n);
            assert(turned(turned(faces[k])) == faces[k]);
        }
        lemma_piece_over(points, first, out, walk, i, over, n);
    }
}

/// Six times the volume under those of the first `upto` triangles that carry a
/// label.
spec fn label_volume(
    points: Seq<Point3>,
    faces: Seq<Face>,
    label: Seq<usize>,
    g: int,
    upto: int,
) -> int
    decreases upto,
{
    if upto <= 0 {
        0
    } else {
        label_volume(points, faces, label, g, upto - 1) + if label[upto - 1] == g {
            face_volume(points, faces[upto - 1])
        } else {
            0
        }
    }
}

fn label_volumes(points: &Vec<Point3>, faces: &Vec<Face>, parts: &Groups) -> (out: Vec<i128>)
    requires
        all_in_reach(points@),
        all_fit(faces@, points@.len() as int),
        faces@.len() <= MOST_FACES,
        parts.label@.len() == faces@.len(),
        forall|a: int| 0 <= a < faces@.len() ==> (#[trigger] parts.label@[a]) < parts.count,
    ensures
        out@.len() == parts.count,
        forall|g: int|
            0 <= g < parts.count ==> (#[trigger] out@[g]) == label_volume(
                points@,
                faces@,
                parts.label@,
                g,
                faces@.len() as int,
            ),
{
    let mut out: Vec<i128> = Vec::new();
    let mut g: usize = 0;
    while g < parts.count
        invariant
            g <= parts.count,
            out@.len() == g,
            forall|k: int| 0 <= k < g ==> (#[trigger] out@[k]) == 0,
        decreases parts.count - g,
    {
        out.push(0);
        g += 1;
    }
    let mut i: usize = 0;
    while i < faces.len()
        invariant
            i <= faces@.len() <= MOST_FACES,
            all_in_reach(points@),
            all_fit(faces@, points@.len() as int),
            parts.label@.len() == faces@.len(),
            forall|a: int| 0 <= a < faces@.len() ==> (#[trigger] parts.label@[a]) < parts.count,
            out@.len() == parts.count,
            forall|k: int|
                0 <= k < parts.count ==> -(MOST_VOLUME * i) <= (#[trigger] out@[k]) <= MOST_VOLUME
                    * i && out@[k] == label_volume(points@, faces@, parts.label@, k, i as int),
        decreases faces@.len() - i,
    {
        let label: usize = parts.label[i];
        let v: i128 = volume_under(points, &faces[i]);
        let ghost before = out@;
        out[label] = out[label] + v;
        proof {
            assert forall|k: int| 0 <= k < parts.count implies -(MOST_VOLUME * (i + 1)) <= (
            #[trigger] out@[k]) <= MOST_VOLUME * (i + 1) && out@[k] == label_volume(
                points@,
                faces@,
                parts.label@,
                k,
                i + 1,
            ) by {
                assert(before[k] == label_volume(points@, faces@, parts.label@, k, i as int));
            }
        }
        i += 1;
    }
    out
}

proof fn lemma_label_piece(
    points: Seq<Point3>,
    faces: Seq<Face>,
    parts: Groups,
    pairs: Seq<(int, int)>,
    i: int,
    upto: int,
)
    requires
        are_groups(parts, faces.len() as int, pairs),
        0 <= i < faces.len(),
        0 <= upto <= faces.len(),
    ensures
        label_volume(points, faces, parts.label@, parts.label@[i] as int, upto) == piece_volume(
            points,
            faces,
            by_edges(pairs),
            i,
            upto,
        ),
    decreases upto,
{
    if upto > 0 {
        lemma_label_piece(points, faces, parts, pairs, i, upto - 1);
        assert(parts.label@[i] == parts.label@[upto - 1] <==> linked(
            by_edges(pairs),
            i,
            upto - 1,
        ));
    }
}

fn turn_chosen(faces: &Vec<Face>, turns: &Vec<bool>, Ghost(n): Ghost<int>) -> (out: Vec<Face>)
    requires
        turns@.len() == faces@.len(),
        all_fit(faces@, n),
    ensures
        out@ == turned_by(faces@, turns@),
        all_fit(out@, n),
{
    let mut out: Vec<Face> = Vec::new();
    let mut i: usize = 0;
    while i < faces.len()
        invariant
            i <= faces@.len(),
            turns@.len() == faces@.len(),
            all_fit(faces@, n),
            out@.len() == i,
            forall|k: int|
                0 <= k < i ==> #[trigger] out@[k] == turned_by(faces@, turns@)[k] && fits(out@[k], n),
        decreases faces@.len() - i,
    {
        proof {
            assert(fits(faces@[i as int], n));
        }
        if turns[i] {
            out.push(turn(&faces[i]));
        } else {
            out.push(faces[i]);
        }
        i += 1;
    }
    proof {
        assert(out@ =~= turned_by(faces@, turns@));
    }
    out
}

proof fn lemma_seam_bounds(edges: Seq<(int, int)>, list: Seq<(int, int, int)>, n: int)
    requires
        forall|i: int| 0 <= i < list.len() ==> 0 <= (#[trigger] list[i]).0 < n,
    ensures
        forall|k: int|
            0 <= k < seams_among(edges, list).len() ==> 0 <= (
            #[trigger] seams_among(edges, list)[k]).0 < n && 0 <= seams_among(edges, list)[k].1
                < n,
    decreases edges.len(),
{
    if edges.len() > 0 {
        lemma_seam_bounds(edges.drop_last(), list, n);
        let uses = uses_on(list, edges.last());
        lemma_uses_on(list, edges.last());
        let known = seams_among(edges.drop_last(), list);
        let out = seams_among(edges, list);
        if uses.len() == 2 {
            assert(list.contains(uses[0]) && list.contains(uses[1]));
            let x = choose|x: int| 0 <= x < list.len() && list[x] == uses[0];
            let y = choose|y: int| 0 <= y < list.len() && list[y] == uses[1];
            assert(0 <= list[x].0 < n && 0 <= list[y].0 < n);
        }
        assert forall|k: int| 0 <= k < out.len() implies 0 <= (#[trigger] out[k]).0 < n && 0
            <= out[k].1 < n by {
            if k < known.len() {
                assert(out[k] == known[k]);
            } else {
                assert(out[k] == seam(uses));
            }
        }
    }
}

/// Turns triangles over so that neighbours agree where they can, and so that no
/// piece of the surface is inside out.
pub fn orient(points: &Vec<Point3>, faces: &Vec<Face>) -> (out: Vec<Face>)
    requires
        all_in_reach(points@),
        all_fit(faces@, points@.len() as int),
        faces@.len() <= MOST_FACES,
    ensures
        all_fit(out@, points@.len() as int),
        out@ == outward(points@, faces@),
{
    let n: usize = faces.len();
    let ghost size = points@.len() as int;
    let table = edge_table(faces, points.len());
    let ghost list = uses_of(faces@);
    let ghost all = seams(list);
    proof {
        lemma_uses_bounds(faces@, size);
        lemma_seam_bounds(edges_of(list), list, n as int);
    }
    let (base_pairs, side_pairs) = read_seams(&table, Ghost(list), n);
    let base = groups(n, &base_pairs);
    let both = groups(2 * n, &side_pairs);
    let turns = settle(&base, &both, n, Ghost(faces@));
    let first = turn_chosen(faces, &turns, Ghost(size));
    let volumes = label_volumes(points, &first, &base);
    let mut last: Vec<bool> = Vec::new();
    let mut i: usize = 0;
    while i < n
        invariant
            i <= n,
            turns@.len() == n,
            base.label@.len() == n,
            volumes@.len() == base.count,
            forall|a: int| 0 <= a < n ==> (#[trigger] base.label@[a]) < base.count,
            last@.len() == i,
            forall|a: int|
                0 <= a < i ==> (#[trigger] last@[a]) == (turns@[a] != (volumes@[base.label@[a] as int]
                    < 0)),
        decreases n - i,
    {
        last.push(turns[i] != (volumes[base.label[i]] < 0));
        i += 1;
    }
    proof {
        assert forall|a: int| 0 <= a < n implies last@[a] == outward_turns(points@, faces@)[a] by {
            lemma_label_piece(points@, first@, base, seam_pairs(all), a, n as int);
            assert(volumes@[base.label@[a] as int] == label_volume(
                points@,
                first@,
                base.label@,
                base.label@[a] as int,
                n as int,
            ));
        }
        assert(last@ =~= outward_turns(points@, faces@));
    }
    turn_chosen(faces, &last, Ghost(size))
}

/// Turning triangles over leaves them three different corners.
pub proof fn lemma_turned_proper(faces: Seq<Face>, turns: Seq<bool>)
    requires
        all_proper(faces),
    ensures
        all_proper(turned_by(faces, turns)),
{
    let out = turned_by(faces, turns);
    assert forall|i: int| 0 <= i < out.len() implies is_proper(#[trigger] out[i]) by {
        assert(is_proper(faces[i]));
    }
}

proof fn lemma_edges_listed(list: Seq<(int, int, int)>, e: (int, int))
    ensures
        edges_of(list).contains(e) == (uses_on(list, e).len() > 0),
{
    lemma_edges_of(list);
    lemma_uses_on(list, e);
    if edges_of(list).contains(e) {
        let k = choose|k: int| 0 <= k < edges_of(list).len() && edges_of(list)[k] == e;
        assert(uses_on(list, edges_of(list)[k]).len() > 0);
    }
    if uses_on(list, e).len() > 0 {
        let u = uses_on(list, e)[0];
        assert(list.contains(u));
        let x = choose|x: int| 0 <= x < list.len() && list[x] == u;
        assert(edges_of(list).contains(use_edge(list[x])));
    }
}

/// Turning triangles over opens no edge and crowds none.
pub proof fn lemma_turned_kinds(faces: Seq<Face>, turns: Seq<bool>)
    requires
        all_proper(faces),
        turns.len() == faces.len(),
        edges_of_kind(uses_of(faces), EdgeKind::Open).len() == 0,
        edges_of_kind(uses_of(faces), EdgeKind::Crowded).len() == 0,
    ensures
        edges_of_kind(uses_of(turned_by(faces, turns)), EdgeKind::Open).len() == 0,
        edges_of_kind(uses_of(turned_by(faces, turns)), EdgeKind::Crowded).len() == 0,
{
    let list = uses_of(faces);
    let out = uses_of(turned_by(faces, turns));
    let open = edges_of_kind(out, EdgeKind::Open);
    if open.len() > 0 {
        let e = open[0];
        assert(open.contains(e));
        lemma_edges_among(edges_of(out), out, EdgeKind::Open, e);
        lemma_turned_uses(faces, turns, e);
        lemma_edges_listed(list, e);
        lemma_edges_listed(out, e);
        lemma_edges_among(edges_of(list), list, EdgeKind::Open, e);
        assert(edges_of_kind(list, EdgeKind::Open).contains(e));
    }
    let crowded = edges_of_kind(out, EdgeKind::Crowded);
    if crowded.len() > 0 {
        let e = crowded[0];
        assert(crowded.contains(e));
        lemma_edges_among(edges_of(out), out, EdgeKind::Crowded, e);
        lemma_turned_uses(faces, turns, e);
        lemma_edges_listed(list, e);
        lemma_edges_listed(out, e);
        lemma_edges_among(edges_of(list), list, EdgeKind::Crowded, e);
        assert(edges_of_kind(list, EdgeKind::Crowded).contains(e));
    }
}

proof fn lemma_seam_from(edges: Seq<(int, int)>, list: Seq<(int, int, int)>, k: int) -> (e: (int, int))
    requires
        0 <= k < seams_among(edges, list).len(),
    ensures
        edges.contains(e),
        uses_on(list, e).len() == 2,
        seams_among(edges, list)[k] == seam(uses_on(list, e)),
    decreases edges.len(),
{
    let front = edges.drop_last();
    let known = seams_among(front, list);
    if k < known.len() {
        let e = lemma_seam_from(front, list, k);
        let x = choose|x: int| 0 <= x < front.len() && front[x] == e;
        assert(edges[x] == e);
        e
    } else {
        assert(edges[edges.len() - 1] == edges.last());
        edges.last()
    }
}

proof fn lemma_same_seams(faces: Seq<Face>, turns: Seq<bool>, i: int, j: int)
    requires
        all_proper(faces),
        turns.len() == faces.len(),
        joined(seam_pairs(seams(uses_of(faces))), i, j),
    ensures
        joined(seam_pairs(seams(uses_of(turned_by(faces, turns)))), i, j),
{
    let list = uses_of(faces);
    let out = uses_of(turned_by(faces, turns));
    let all = seam_pairs(seams(list));
    let k = choose|k: int|
        0 <= k < all.len() && ((#[trigger] all[k]) == (i, j) || all[k] == (j, i));
    let e = lemma_seam_from(edges_of(list), list, k);
    lemma_turned_uses(faces, turns, e);
    lemma_edges_listed(out, e);
    lemma_seam_listed(edges_of(out), out, e);
    let s = seam(uses_on(out, e));
    let m = choose|m: int| 0 <= m < seams(out).len() && seams(out)[m] == s;
    assert(uses_on(out, e)[0] == use_turned(uses_on(list, e)[0], turns));
    assert(uses_on(out, e)[1] == use_turned(uses_on(list, e)[1], turns));
    assert(seam_pairs(seams(out))[m] == (s.0, s.1));
}

/// Turning triangles over leaves the pieces of a surface what they were.
pub proof fn lemma_turned_across(faces: Seq<Face>, turns: Seq<bool>)
    requires
        all_proper(faces),
        turns.len() == faces.len(),
    ensures
        across(uses_of(turned_by(faces, turns))) == across(uses_of(faces)),
{
    let out = turned_by(faces, turns);
    let a = across(uses_of(faces));
    let b = across(uses_of(out));
    lemma_turned_proper(faces, turns);
    assert(turned_by(out, turns) =~= faces) by {
        assert forall|i: int| 0 <= i < faces.len() implies turned_by(out, turns)[i]
            == #[trigger] faces[i] by {
            assert(turned(turned(faces[i])) == faces[i]);
        }
    }
    assert forall|i: int, j: int| #[trigger] a(i, j) == b(i, j) by {
        if joined(seam_pairs(seams(uses_of(faces))), i, j) {
            lemma_same_seams(faces, turns, i, j);
        }
        if joined(seam_pairs(seams(uses_of(out))), i, j) {
            lemma_same_seams(out, turns, i, j);
        }
    }
    assert(a =~= b);
}

/// Whether a way leads to a triangle from one of the first `t`.
spec fn reached(step: spec_fn(int, int) -> bool, t: int, j: int) -> bool {
    exists|i: int| 0 <= i < t && #[trigger] linked(step, i, j)
}

/// Six times the volume under those of the first `upto` triangles that ways lead to
/// from one of the first `t`.
spec fn reached_volume(
    points: Seq<Point3>,
    faces: Seq<Face>,
    step: spec_fn(int, int) -> bool,
    t: int,
    upto: int,
) -> int
    decreases upto,
{
    if upto <= 0 {
        0
    } else {
        reached_volume(points, faces, step, t, upto - 1) + if reached(step, t, upto - 1) {
            face_volume(points, faces[upto - 1])
        } else {
            0
        }
    }
}

proof fn lemma_linked_both_ways(edges: Seq<(int, int)>, a: int, b: int)
    ensures
        linked(by_edges(edges), a, b) == linked(by_edges(edges), b, a),
{
    let walk = by_edges(edges);
    assert forall|x: int, y: int| #[trigger] walk(x, y) implies walk(y, x) by {
        lemma_joined_symmetric(edges, x, y);
    }
    if linked(walk, a, b) {
        lemma_linked_symmetric(walk, a, b);
    }
    if linked(walk, b, a) {
        lemma_linked_symmetric(walk, b, a);
    }
}

/// One more start reaches a piece more, or nothing new.
proof fn lemma_reached_more(
    points: Seq<Point3>,
    faces: Seq<Face>,
    edges: Seq<(int, int)>,
    t: int,
    upto: int,
)
    requires
        0 <= t,
    ensures
        ({
            let step = by_edges(edges);
            reached_volume(points, faces, step, t + 1, upto) == reached_volume(
                points,
                faces,
                step,
                t,
                upto,
            ) + if reached(step, t, t) {
                0
            } else {
                piece_volume(points, faces, step, t, upto)
            }
        }),
    decreases upto,
{
    let step = by_edges(edges);
    if upto > 0 {
        let j = upto - 1;
        lemma_reached_more(points, faces, edges, t, j);
        if reached(step, t, j) {
            let i = choose|i: int| 0 <= i < t && #[trigger] linked(step, i, j);
            assert(linked(step, i, j) && i < t + 1);
            assert(reached(step, t + 1, j));
            if !reached(step, t, t) && linked(step, t, j) {
                lemma_linked_both_ways(edges, t, j);
                lemma_linked_transitive(step, i, j, t);
                assert(reached(step, t, t));
            }
        } else {
            if reached(step, t, t) && linked(step, t, j) {
                let i = choose|i: int| 0 <= i < t && #[trigger] linked(step, i, t);
                lemma_linked_transitive(step, i, t, j);
                assert(reached(step, t, j));
            }
            if reached(step, t + 1, j) {
                let i = choose|i: int| 0 <= i < t + 1 && #[trigger] linked(step, i, j);
                assert(i == t);
            }
            if linked(step, t, j) {
                assert(reached(step, t + 1, j));
            }
        }
    }
}

proof fn lemma_reached_grows(
    points: Seq<Point3>,
    faces: Seq<Face>,
    edges: Seq<(int, int)>,
    t: int,
    n: int,
    w: int,
)
    requires
        0 <= t <= n,
        forall|i: int|
            0 <= i < n ==> #[trigger] piece_volume(points, faces, by_edges(edges), i, n) >= 0,
        0 <= w < n,
        piece_volume(points, faces, by_edges(edges), w, n) > 0,
    ensures
        reached_volume(points, faces, by_edges(edges), t, n) >= 0,
        w < t ==> reached_volume(points, faces, by_edges(edges), t, n) > 0,
    decreases t,
{
    let step = by_edges(edges);
    if t > 0 {
        lemma_reached_grows(points, faces, edges, t - 1, n, w);
        lemma_reached_more(points, faces, edges, t - 1, n);
        assert(piece_volume(points, faces, step, t - 1, n) >= 0);
        if w == t - 1 && reached(step, t - 1, t - 1) {
            let i = choose|i: int| 0 <= i < t - 1 && #[trigger] linked(step, i, t - 1);
            lemma_same_volume(points, faces, edges, i, w, n);
            lemma_reached_grows(points, faces, edges, t - 1, n, i);
        }
    } else {
        lemma_reached_none(points, faces, step, n);
    }
}

proof fn lemma_reached_none(
    points: Seq<Point3>,
    faces: Seq<Face>,
    step: spec_fn(int, int) -> bool,
    upto: int,
)
    ensures
        reached_volume(points, faces, step, 0, upto) == 0,
    decreases upto,
{
    if upto > 0 {
        lemma_reached_none(points, faces, step, upto - 1);
    }
}

proof fn lemma_reached_all(
    points: Seq<Point3>,
    faces: Seq<Face>,
    step: spec_fn(int, int) -> bool,
    upto: int,
)
    requires
        0 <= upto <= faces.len(),
    ensures
        reached_volume(points, faces, step, faces.len() as int, upto) == volume(
            points,
            faces.take(upto),
        ),
    decreases upto,
{
    if upto > 0 {
        lemma_reached_all(points, faces, step, upto - 1);
        lemma_linked_reflexive(step, upto - 1);
        assert(reached(step, faces.len() as int, upto - 1));
        assert(faces.take(upto).drop_last() =~= faces.take(upto - 1));
        assert(faces.take(upto).last() == faces[upto - 1]);
    }
}

/// Where no piece of a surface is inside out and one encloses a volume, so does the
/// whole.
pub proof fn lemma_pieces_add_up(
    points: Seq<Point3>,
    faces: Seq<Face>,
    edges: Seq<(int, int)>,
    n: int,
    w: int,
)
    requires
        n == faces.len(),
        forall|i: int|
            0 <= i < n ==> #[trigger] piece_volume(points, faces, by_edges(edges), i, n) >= 0,
        0 <= w < n,
        piece_volume(points, faces, by_edges(edges), w, n) > 0,
    ensures
        volume(points, faces) > 0,
{
    lemma_reached_grows(points, faces, edges, n, n, w);
    lemma_reached_all(points, faces, by_edges(edges), n);
    assert(faces.take(n) =~= faces);
}

/// Where neighbours agree, nothing is turned over for them to agree.
proof fn lemma_nothing_to_agree(faces: Seq<Face>)
    requires
        edges_of_kind(uses_of(faces), EdgeKind::Flipped).len() == 0,
    ensures
        forall|a: int| 0 <= a < faces.len() ==> !#[trigger] agreed(faces)[a],
{
    let list = uses_of(faces);
    let all = seams(list);
    let edges = seam_pairs(all);
    let walk = by_edges(edges);
    let step = by_edges(sides(all));
    let value = |x: int| x % 2;
    assert forall|k: int| 0 <= k < all.len() implies (#[trigger] all[k]).2 by {
        let e = lemma_seam_from(edges_of(list), list, k);
        if !all[k].2 {
            lemma_edges_among(edges_of(list), list, EdgeKind::Flipped, e);
            assert(edges_of_kind(list, EdgeKind::Flipped).contains(e));
        }
    }
    lemma_sides(all);
    assert(kept(step, value)) by {
        assert forall|a: int, b: int| #[trigger] step(a, b) implies value(a) == value(b) by {
            let pairs = sides(all);
            assert(joined(pairs, a, b));
            let e = choose|e: int|
                0 <= e < pairs.len() && ((#[trigger] pairs[e]) == (a, b) || pairs[e] == (b, a));
            let k = e / 2;
            assert(0 <= k < all.len());
            assert(all[k].2);
            assert(e == 2 * k || e == 2 * k + 1);
        }
    }
    assert forall|a: int| 0 <= a < faces.len() implies !#[trigger] agreed(faces)[a] by {
        lemma_lead(edges, a);
        let t = lead(walk, a, 0);
        let m = choose|m: nat| within(walk, t, a, m);
        lemma_way_between_sides(all, t, a, m);
        if linked(step, 2 * t, 2 * a + 1) {
            lemma_linked_kept(step, value, 2 * t, 2 * a + 1);
            assert((2 * t) % 2 == 0 && (2 * a + 1) % 2 == 1);
        }
    }
}

/// A surface whose neighbours agree and no piece of which is inside out stays as it is
/// when it is turned outward.
pub proof fn lemma_settled_stays(points: Seq<Point3>, faces: Seq<Face>)
    requires
        edges_of_kind(uses_of(faces), EdgeKind::Flipped).len() == 0,
        forall|i: int|
            0 <= i < faces.len() ==> #[trigger] piece_volume(
                points,
                faces,
                across(uses_of(faces)),
                i,
                faces.len() as int,
            ) >= 0,
    ensures
        outward(points, faces) == faces,
{
    lemma_nothing_to_agree(faces);
    assert(turned_by(faces, agreed(faces)) =~= faces);
    assert forall|a: int| 0 <= a < faces.len() implies !#[trigger] outward_turns(
        points,
        faces,
    )[a] by {
        assert(!agreed(faces)[a]);
        assert(piece_volume(points, faces, across(uses_of(faces)), a, faces.len() as int) >= 0);
    }
    assert(outward(points, faces) =~= faces);
}

} // verus!
