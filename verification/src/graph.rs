//! What hangs together: the connected groups of a graph.

use vstd::prelude::*;

verus! {

/// Whether an edge joins `a` and `b`.
pub open spec fn joined(edges: Seq<(int, int)>, a: int, b: int) -> bool {
    exists|e: int|
        0 <= e < edges.len() && ((#[trigger] edges[e]) == (a, b) || edges[e] == (b, a))
}

/// What the edges join, as a relation.
pub open spec fn by_edges(edges: Seq<(int, int)>) -> spec_fn(int, int) -> bool {
    |a: int, b: int| joined(edges, a, b)
}

/// Whether a way of at most `steps` steps leads from `a` to `b`.
pub open spec fn within<N>(step: spec_fn(N, N) -> bool, a: N, b: N, steps: nat) -> bool
    decreases steps,
{
    if steps == 0 {
        a == b
    } else {
        within(step, a, b, (steps - 1) as nat) || exists|c: N|
            within(step, a, c, (steps - 1) as nat) && #[trigger] step(c, b)
    }
}

/// Whether a way leads from `a` to `b`.
pub open spec fn linked<N>(step: spec_fn(N, N) -> bool, a: N, b: N) -> bool {
    exists|steps: nat| within(step, a, b, steps)
}

pub proof fn lemma_joined_symmetric(edges: Seq<(int, int)>, a: int, b: int)
    ensures
        joined(edges, a, b) == joined(edges, b, a),
{
}

/// Everything is linked to itself.
pub proof fn lemma_linked_reflexive<N>(step: spec_fn(N, N) -> bool, a: N)
    ensures
        linked(step, a, a),
{
    assert(within(step, a, a, 0));
}

/// What one step joins is linked.
pub proof fn lemma_step_linked<N>(step: spec_fn(N, N) -> bool, a: N, b: N)
    requires
        step(a, b),
    ensures
        linked(step, a, b),
{
    assert(within(step, a, a, 0));
    assert(within(step, a, b, 1));
}

proof fn lemma_within_transitive<N>(
    step: spec_fn(N, N) -> bool,
    a: N,
    b: N,
    c: N,
    m: nat,
    n: nat,
)
    requires
        within(step, a, b, m),
        within(step, b, c, n),
    ensures
        within(step, a, c, m + n),
    decreases n,
{
    if n > 0 {
        if within(step, b, c, (n - 1) as nat) {
            lemma_within_transitive(step, a, b, c, m, (n - 1) as nat);
        } else {
            let d = choose|d: N| within(step, b, d, (n - 1) as nat) && #[trigger] step(d, c);
            lemma_within_transitive(step, a, b, d, m, (n - 1) as nat);
            assert(within(step, a, d, (m + n - 1) as nat) && step(d, c));
        }
    }
}

/// Links can be followed one after another.
pub proof fn lemma_linked_transitive<N>(step: spec_fn(N, N) -> bool, a: N, b: N, c: N)
    requires
        linked(step, a, b),
        linked(step, b, c),
    ensures
        linked(step, a, c),
{
    let m = choose|m: nat| within(step, a, b, m);
    let n = choose|n: nat| within(step, b, c, n);
    lemma_within_transitive(step, a, b, c, m, n);
}

proof fn lemma_within_symmetric<N>(step: spec_fn(N, N) -> bool, a: N, b: N, steps: nat)
    requires
        within(step, a, b, steps),
        forall|x: N, y: N| #[trigger] step(x, y) ==> step(y, x),
    ensures
        linked(step, b, a),
    decreases steps,
{
    if steps == 0 {
        lemma_linked_reflexive(step, a);
    } else if within(step, a, b, (steps - 1) as nat) {
        lemma_within_symmetric(step, a, b, (steps - 1) as nat);
    } else {
        let c = choose|c: N| within(step, a, c, (steps - 1) as nat) && #[trigger] step(c, b);
        lemma_within_symmetric(step, a, c, (steps - 1) as nat);
        lemma_step_linked(step, b, c);
        lemma_linked_transitive(step, b, c, a);
    }
}

/// Where every step can be taken back, a link can be followed both ways.
pub proof fn lemma_linked_symmetric<N>(step: spec_fn(N, N) -> bool, a: N, b: N)
    requires
        linked(step, a, b),
        forall|x: N, y: N| #[trigger] step(x, y) ==> step(y, x),
    ensures
        linked(step, b, a),
{
    let n = choose|n: nat| within(step, a, b, n);
    lemma_within_symmetric(step, a, b, n);
}

/// Whether labels agree along every edge.
spec fn closed_under(labels: Seq<int>, edges: Seq<(int, int)>) -> bool {
    forall|e: int|
        0 <= e < edges.len() ==> labels[(#[trigger] edges[e]).0] == labels[edges[e].1]
}

proof fn lemma_labels_follow(labels: Seq<int>, edges: Seq<(int, int)>, a: int, b: int, steps: nat)
    requires
        closed_under(labels, edges),
        within(by_edges(edges), a, b, steps),
    ensures
        labels[a] == labels[b],
    decreases steps,
{
    if steps > 0 {
        if within(by_edges(edges), a, b, (steps - 1) as nat) {
            lemma_labels_follow(labels, edges, a, b, (steps - 1) as nat);
        } else {
            let c = choose|c: int|
                within(by_edges(edges), a, c, (steps - 1) as nat) && #[trigger] by_edges(edges)(
                    c,
                    b,
                );
            lemma_labels_follow(labels, edges, a, c, (steps - 1) as nat);
            let e = choose|e: int|
                0 <= e < edges.len() && ((#[trigger] edges[e]) == (c, b) || edges[e] == (b, c));
            assert(labels[edges[e].0] == labels[edges[e].1]);
        }
    }
}

/// The edges of a list, as pairs of numbers.
pub open spec fn edge_list(edges: Seq<(usize, usize)>) -> Seq<(int, int)> {
    edges.map_values(|e: (usize, usize)| (e.0 as int, e.1 as int))
}

/// The connected groups of a graph.
pub struct Groups {
    /// The number of the group that each node belongs to.
    pub label: Vec<usize>,
    /// How many groups there are.
    pub count: usize,
}

/// Whether the labels tell apart exactly what is not linked, and the groups are
/// numbered from nothing up without a gap.
pub open spec fn are_groups(groups: Groups, nodes: int, edges: Seq<(int, int)>) -> bool {
    &&& groups.label@.len() == nodes
    &&& forall|a: int, b: int|
        0 <= a < nodes && 0 <= b < nodes ==> ((#[trigger] groups.label@[a])
            == #[trigger] groups.label@[b] <==> linked(by_edges(edges), a, b))
    &&& forall|a: int| 0 <= a < nodes ==> (#[trigger] groups.label@[a]) < groups.count
    &&& forall|g: int| 0 <= g < groups.count ==> #[trigger] has_label(groups.label@, g)
}

/// Whether some node belongs to the group of number `g`.
pub open spec fn has_label(label: Seq<usize>, g: int) -> bool {
    exists|a: int| 0 <= a < label.len() && (#[trigger] label[a]) == g
}

fn neighbours(nodes: usize, edges: &Vec<(usize, usize)>) -> (out: Vec<Vec<usize>>)
    requires
        forall|e: int|
            0 <= e < edges@.len() ==> (#[trigger] edges@[e]).0 < nodes && edges@[e].1 < nodes,
    ensures
        out@.len() == nodes,
        forall|a: int, b: usize|
            0 <= a < nodes ==> ((#[trigger] out@[a])@.contains(b) <==> #[trigger] joined(
                edge_list(edges@),
                a,
                b as int,
            )),
        forall|a: int, i: int|
            0 <= a < nodes && 0 <= i < out@[a]@.len() ==> (#[trigger] out@[a]@[i]) < nodes,
{
    let mut out: Vec<Vec<usize>> = Vec::new();
    let mut k: usize = 0;
    while k < nodes
        invariant
            k <= nodes,
            out@.len() == k,
            forall|a: int| 0 <= a < k ==> (#[trigger] out@[a])@.len() == 0,
        decreases nodes - k,
    {
        out.push(Vec::new());
        k += 1;
    }
    let ghost all = edge_list(edges@);
    let mut e: usize = 0;
    while e < edges.len()
        invariant
            e <= edges.len(),
            all == edge_list(edges@),
            out@.len() == nodes,
            forall|e: int|
                0 <= e < edges@.len() ==> (#[trigger] edges@[e]).0 < nodes && edges@[e].1 < nodes,
            forall|a: int, b: usize|
                0 <= a < nodes ==> ((#[trigger] out@[a])@.contains(b) <==> #[trigger] joined(
                    all.take(e as int),
                    a,
                    b as int,
                )),
            forall|a: int, i: int|
                0 <= a < nodes && 0 <= i < out@[a]@.len() ==> (#[trigger] out@[a]@[i]) < nodes,
        decreases edges.len() - e,
    {
        let a: usize = edges[e].0;
        let b: usize = edges[e].1;
        let ghost before = out@;
        let mut list_a: Vec<usize> = Vec::new();
        std::mem::swap(&mut list_a, &mut out[a]);
        list_a.push(b);
        std::mem::swap(&mut list_a, &mut out[a]);
        let ghost mid = out@;
        let mut list_b: Vec<usize> = Vec::new();
        std::mem::swap(&mut list_b, &mut out[b]);
        list_b.push(a);
        std::mem::swap(&mut list_b, &mut out[b]);
        proof {
            assert(mid =~= before.update(a as int, mid[a as int]));
            assert(mid[a as int]@ == before[a as int]@.push(b));
            assert(out@ =~= mid.update(b as int, out@[b as int]));
            assert(out@[b as int]@ == mid[b as int]@.push(a));
            let now = all.take(e + 1);
            let then_ = all.take(e as int);
            assert(now =~= then_.push((a as int, b as int)));
            assert forall|x: int, y: usize| 0 <= x < nodes implies ((#[trigger] out@[x])@.contains(
                y,
            ) <==> #[trigger] joined(now, x, y as int)) by {
                lemma_push_contains(before[x]@, b, y);
                lemma_push_contains(mid[x]@, a, y);
                if joined(then_, x, y as int) {
                    let i = choose|i: int|
                        0 <= i < then_.len() && ((#[trigger] then_[i]) == (x, y as int) || then_[i]
                            == (y as int, x));
                    assert(now[i] == then_[i]);
                }
                if joined(now, x, y as int) {
                    let i = choose|i: int|
                        0 <= i < now.len() && ((#[trigger] now[i]) == (x, y as int) || now[i] == (
                            y as int,
                            x,
                        ));
                    if i < e {
                        assert(then_[i] == now[i]);
                    }
                }
                assert(now[e as int] == (a as int, b as int));
            }
            assert forall|x: int, i: int|
                0 <= x < nodes && 0 <= i < out@[x]@.len() implies (#[trigger] out@[x]@[i])
                < nodes by {
                if x == b {
                    if i < mid[x]@.len() {
                        if x == a && i == before[x]@.len() {
                        } else {
                            assert(mid[x]@[i] == before[x]@[i]);
                        }
                    }
                } else if x == a {
                    if i < before[x]@.len() {
                        assert(out@[x]@[i] == before[x]@[i]);
                    }
                } else {
                    assert(out@[x]@[i] == before[x]@[i]);
                }
            }
        }
        e += 1;
    }
    proof {
        assert(all.take(all.len() as int) =~= all);
    }
    out
}

proof fn lemma_push_contains(list: Seq<usize>, x: usize, y: usize)
    ensures
        list.push(x).contains(y) <==> list.contains(y) || x == y,
{
    let out = list.push(x);
    if list.contains(y) {
        let i = choose|i: int| 0 <= i < list.len() && list[i] == y;
        assert(out[i] == y);
    }
    if x == y {
        assert(out[list.len() as int] == y);
    }
    if out.contains(y) {
        let i = choose|i: int| 0 <= i < out.len() && out[i] == y;
        if i < list.len() {
            assert(list[i] == y);
        }
    }
}

/// The connected groups of the graph that the edges make on as many nodes. Groups
/// are numbered in the order of their least nodes.
pub fn groups(nodes: usize, edges: &Vec<(usize, usize)>) -> (out: Groups)
    requires
        forall|e: int|
            0 <= e < edges@.len() ==> (#[trigger] edges@[e]).0 < nodes && edges@[e].1 < nodes,
    ensures
        are_groups(out, nodes as int, edge_list(edges@)),
{
    let near = neighbours(nodes, edges);
    let ghost all = edge_list(edges@);
    let mut label: Vec<usize> = Vec::new();
    let mut k: usize = 0;
    while k < nodes
        invariant
            k <= nodes,
            label@.len() == k,
            forall|a: int| 0 <= a < k ==> (#[trigger] label@[a]) == nodes,
        decreases nodes - k,
    {
        label.push(nodes);
        k += 1;
    }
    let mut count: usize = 0;
    let mut s: usize = 0;
    while s < nodes
        invariant
            s <= nodes,
            count <= s,
            near@.len() == nodes,
            label@.len() == nodes,
            all == edge_list(edges@),
            forall|a: int, b: usize|
                0 <= a < nodes ==> ((#[trigger] near@[a])@.contains(b) <==> #[trigger] joined(
                    all,
                    a,
                    b as int,
                )),
            forall|a: int, i: int|
                0 <= a < nodes && 0 <= i < near@[a]@.len() ==> (#[trigger] near@[a]@[i]) < nodes,
            forall|a: int| 0 <= a < s ==> (#[trigger] label@[a]) < count,
            forall|a: int|
                0 <= a < nodes ==> (#[trigger] label@[a]) < count || label@[a] == nodes,
            forall|a: int, b: int|
                0 <= a < nodes && 0 <= b < nodes && (#[trigger] label@[a]) < count && label@[a]
                    == #[trigger] label@[b] ==> linked(by_edges(all), a, b),
            forall|a: int, b: usize|
                0 <= a < nodes && b < nodes && label@[a] < count && #[trigger] joined(
                    all,
                    a,
                    b as int,
                ) ==> label@[b as int] == label@[a],
            forall|g: int| 0 <= g < count ==> #[trigger] has_label(label@, g),
        decreases nodes - s,
    {
        if label[s] == nodes {
            let ghost before = label@;
            label[s] = count;
            let mut todo: Vec<usize> = Vec::new();
            todo.push(s);
            proof {
                lemma_linked_reflexive(by_edges(all), s as int);
                assert(todo@[0] == s);
                assert(todo@.contains(s));
            }
            while todo.len() > 0
                invariant
                    s < nodes,
                    count <= s,
                    near@.len() == nodes,
                    label@.len() == nodes,
                    before.len() == nodes,
                    all == edge_list(edges@),
                    label@[s as int] == count,
                    forall|a: int, b: usize|
                        0 <= a < nodes ==> ((#[trigger] near@[a])@.contains(b)
                            <==> #[trigger] joined(all, a, b as int)),
                    forall|a: int, i: int|
                        0 <= a < nodes && 0 <= i < near@[a]@.len() ==> (#[trigger] near@[a]@[i])
                            < nodes,
                    forall|a: int|
                        0 <= a < nodes ==> (#[trigger] before[a]) < count || before[a] == nodes,
                    forall|a: int|
                        0 <= a < nodes && before[a] < count ==> (#[trigger] label@[a]) == before[a],
                    forall|a: int|
                        0 <= a < nodes && before[a] == nodes ==> (#[trigger] label@[a]) == nodes
                            || label@[a] == count,
                    forall|a: int|
                        0 <= a < nodes && (#[trigger] label@[a]) == count ==> linked(
                            by_edges(all),
                            s as int,
                            a,
                        ),
                    forall|i: int|
                        0 <= i < todo@.len() ==> (#[trigger] todo@[i]) < nodes
                            && label@[todo@[i] as int] == count,
                    forall|a: int, b: usize|
                        0 <= a < nodes && b < nodes && label@[a] == count && !todo@.contains(
                            a as usize,
                        ) && #[trigger] joined(all, a, b as int) ==> label@[b as int] == count,
                    forall|a: int, b: usize|
                        0 <= a < nodes && b < nodes && before[a] < count && #[trigger] joined(
                            all,
                            a,
                            b as int,
                        ) ==> before[b as int] == before[a],
                decreases unlabelled(label@, nodes as int) + todo@.len(),
            {
                let v: usize = todo[todo.len() - 1];
                let ghost full = todo@;
                todo.pop();
                proof {
                    assert(full[full.len() - 1] == v);
                    assert(full =~= todo@.push(v));
                }
                let ghost start_label = label@;
                let ghost start_todo = todo@;
                let mut i: usize = 0;
                while i < near[v as usize].len()
                    invariant
                        v < nodes,
                        s < nodes,
                        count <= s,
                        i <= near@[v as int]@.len(),
                        near@.len() == nodes,
                        label@.len() == nodes,
                        before.len() == nodes,
                        start_label.len() == nodes,
                        all == edge_list(edges@),
                        label@[s as int] == count,
                        start_label[v as int] == count,
                        linked(by_edges(all), s as int, v as int),
                        forall|a: int, b: usize|
                            0 <= a < nodes ==> ((#[trigger] near@[a])@.contains(b)
                                <==> #[trigger] joined(all, a, b as int)),
                        forall|a: int, i: int|
                            0 <= a < nodes && 0 <= i < near@[a]@.len() ==> (
                            #[trigger] near@[a]@[i]) < nodes,
                        forall|a: int|
                            0 <= a < nodes ==> (#[trigger] before[a]) < count || before[a]
                                == nodes,
                        forall|a: int|
                            0 <= a < nodes && before[a] < count ==> (#[trigger] label@[a])
                                == before[a],
                        forall|a: int|
                            0 <= a < nodes && before[a] == nodes ==> (#[trigger] label@[a])
                                == nodes || label@[a] == count,
                        forall|a: int|
                            0 <= a < nodes && (#[trigger] label@[a]) == count ==> linked(
                                by_edges(all),
                                s as int,
                                a,
                            ),
                        forall|a: int|
                            0 <= a < nodes && start_label[a] == count ==> (#[trigger] label@[a])
                                == count,
                        forall|a: int|
                            0 <= a < nodes && (#[trigger] label@[a]) == count && start_label[a]
                                != count ==> todo@.contains(a as usize),
                        forall|a: usize| start_todo.contains(a) ==> #[trigger] todo@.contains(a),
                        forall|j: int|
                            0 <= j < todo@.len() ==> (#[trigger] todo@[j]) < nodes
                                && label@[todo@[j] as int] == count,
                        forall|j: int|
                            0 <= j < i ==> label@[(#[trigger] near@[v as int]@[j]) as int] == count,
                        unlabelled(label@, nodes as int) + todo@.len() == unlabelled(
                            start_label,
                            nodes as int,
                        ) + start_todo.len(),
                        forall|a: int, b: usize|
                            0 <= a < nodes && b < nodes && before[a] < count && #[trigger] joined(
                                all,
                                a,
                                b as int,
                            ) ==> before[b as int] == before[a],
                    decreases near@[v as int]@.len() - i,
                {
                    let w: usize = near[v][i];
                    proof {
                        assert(near@[v as int]@[i as int] == w);
                        assert(near@[v as int]@.contains(w));
                        assert(joined(all, v as int, w as int));
                    }
                    if label[w] == nodes {
                        let ghost old_label = label@;
                        let ghost old_todo = todo@;
                        label[w] = count;
                        todo.push(w);
                        proof {
                            lemma_unlabelled_set(old_label, nodes as int, w as int, count);
                            lemma_step_linked(by_edges(all), v as int, w as int);
                            lemma_linked_transitive(by_edges(all), s as int, v as int, w as int);
                            assert forall|a: usize| start_todo.contains(a) implies #[trigger]
                            todo@.contains(a) by {
                                assert(old_todo.contains(a));
                                let j = choose|j: int| 0 <= j < old_todo.len() && old_todo[j] == a;
                                assert(todo@[j] == a);
                            }
                            assert forall|a: int|
                                0 <= a < nodes && (#[trigger] label@[a]) == count && start_label[a]
                                    != count implies todo@.contains(a as usize) by {
                                if a == w {
                                    assert(todo@[todo@.len() - 1] == w);
                                } else {
                                    assert(old_todo.contains(a as usize));
                                    let j = choose|j: int|
                                        0 <= j < old_todo.len() && old_todo[j] == a as usize;
                                    assert(todo@[j] == a as usize);
                                }
                            }
                        }
                    } else {
                        proof {
                            if before[w as int] < count {
                                lemma_joined_symmetric(all, v as int, w as int);
                                assert(joined(all, w as int, v as int));
                                assert(before[v as int] == before[w as int]);
                                assert(label@[v as int] == before[v as int]);
                            }
                        }
                    }
                    i += 1;
                }
                proof {
                    assert forall|a: int, b: usize|
                        0 <= a < nodes && b < nodes && label@[a] == count && !todo@.contains(
                            a as usize,
                        ) && #[trigger] joined(all, a, b as int) implies label@[b as int]
                        == count by {
                        if a == v {
                            assert(near@[v as int]@.contains(b));
                            let j = choose|j: int|
                                0 <= j < near@[v as int]@.len() && near@[v as int]@[j] == b;
                            assert(label@[near@[v as int]@[j] as int] == count);
                        } else {
                            if start_label[a] == count {
                                assert(!full.contains(a as usize)) by {
                                    if full.contains(a as usize) {
                                        let j = choose|j: int|
                                            0 <= j < full.len() && full[j] == a as usize;
                                        assert(j < start_todo.len());
                                        assert(start_todo[j] == a as usize);
                                        assert(start_todo.contains(a as usize));
                                    }
                                }
                                assert(start_label[b as int] == count);
                            }
                        }
                    }
                }
            }
            proof {
                assert forall|a: int, b: int|
                    0 <= a < nodes && 0 <= b < nodes && (#[trigger] label@[a]) < count + 1
                        && label@[a] == #[trigger] label@[b] implies linked(by_edges(all), a, b) by {
                    if label@[a] == count {
                        lemma_linked_symmetric(by_edges(all), s as int, a);
                        lemma_linked_transitive(by_edges(all), a, s as int, b);
                    } else {
                        assert(before[a] == label@[a]);
                        assert(before[b] == label@[b]);
                    }
                }
                assert forall|a: int, b: usize|
                    0 <= a < nodes && b < nodes && label@[a] < count + 1 && #[trigger] joined(
                        all,
                        a,
                        b as int,
                    ) implies label@[b as int] == label@[a] by {
                    if label@[a] == count {
                        assert(!todo@.contains(a as usize));
                    } else {
                        assert(before[a] == label@[a]);
                        assert(before[b as int] == before[a]);
                    }
                }
                assert forall|g: int| 0 <= g < count + 1 implies #[trigger] has_label(
                    label@,
                    g,
                ) by {
                    if g == count {
                        assert(label@[s as int] == g);
                    } else {
                        assert(has_label(before, g));
                        let a = choose|a: int| 0 <= a < nodes && (#[trigger] before[a]) == g;
                        assert(label@[a] == g);
                    }
                }
            }
            count += 1;
        }
        s += 1;
    }
    proof {
        let numbers = label@.map_values(|l: usize| l as int);
        assert(closed_under(numbers, all)) by {
            assert forall|e: int| 0 <= e < all.len() implies numbers[(#[trigger] all[e]).0]
                == numbers[all[e].1] by {
                let x: usize = edges@[e].0;
                let y: usize = edges@[e].1;
                assert(all[e] == (x as int, y as int));
                assert(joined(all, x as int, y as int));
            }
        }
        assert forall|a: int, b: int| 0 <= a < nodes && 0 <= b < nodes implies ((
        #[trigger] label@[a]) == #[trigger] label@[b] <==> linked(by_edges(all), a, b)) by {
            if linked(by_edges(all), a, b) {
                let n = choose|n: nat| within(by_edges(all), a, b, n);
                lemma_labels_follow(numbers, all, a, b, n);
                assert(numbers[a] == label@[a]);
                assert(numbers[b] == label@[b]);
            }
        }
    }
    Groups { label, count }
}

/// How many of the first `upto` nodes have no label yet.
spec fn unlabelled_upto(label: Seq<usize>, nodes: int, upto: int) -> nat
    decreases upto,
{
    if upto <= 0 {
        0
    } else {
        unlabelled_upto(label, nodes, upto - 1) + (if label[upto - 1] == nodes {
            1nat
        } else {
            0nat
        })
    }
}

spec fn unlabelled(label: Seq<usize>, nodes: int) -> nat {
    unlabelled_upto(label, nodes, nodes)
}

proof fn lemma_unlabelled_upto_set(
    label: Seq<usize>,
    nodes: int,
    w: int,
    c: usize,
    upto: int,
)
    requires
        0 <= w < label.len(),
        label.len() == nodes,
        0 <= upto <= nodes,
        label[w] == nodes,
        c != nodes,
    ensures
        unlabelled_upto(label.update(w, c), nodes, upto) == unlabelled_upto(label, nodes, upto)
            - (if w < upto {
            1int
        } else {
            0int
        }),
    decreases upto,
{
    if upto > 0 {
        lemma_unlabelled_upto_set(label, nodes, w, c, upto - 1);
    }
}

proof fn lemma_unlabelled_set(label: Seq<usize>, nodes: int, w: int, c: usize)
    requires
        0 <= w < label.len(),
        label.len() == nodes,
        label[w] == nodes,
        c != nodes,
    ensures
        unlabelled(label.update(w, c), nodes) == unlabelled(label, nodes) - 1,
{
    lemma_unlabelled_upto_set(label, nodes, w, c, nodes);
}

/// Whether the edges, read as pairs of nodes, take exactly the given steps.
pub open spec fn takes_steps<N>(
    edges: Seq<(int, int)>,
    nodes: Seq<N>,
    step: spec_fn(N, N) -> bool,
) -> bool {
    &&& forall|e: int|
        0 <= e < edges.len() ==> 0 <= (#[trigger] edges[e]).0 < nodes.len() && 0 <= edges[e].1
            < nodes.len()
    &&& forall|e: int|
        0 <= e < edges.len() ==> step(nodes[(#[trigger] edges[e]).0], nodes[edges[e].1])
            && step(nodes[edges[e].1], nodes[edges[e].0])
    &&& forall|x: N, y: N| #[trigger]
        step(x, y) ==> exists|e: int|
            0 <= e < edges.len() && ((nodes[(#[trigger] edges[e]).0] == x && nodes[edges[e].1] == y)
                || (nodes[edges[e].1] == x && nodes[edges[e].0] == y))
    &&& forall|i: int, j: int|
        0 <= i < j < nodes.len() ==> #[trigger] nodes[i] != #[trigger] nodes[j]
}

proof fn lemma_within_up<N>(
    edges: Seq<(int, int)>,
    nodes: Seq<N>,
    step: spec_fn(N, N) -> bool,
    i: int,
    j: int,
    n: nat,
)
    requires
        takes_steps(edges, nodes, step),
        0 <= i < nodes.len(),
        within(by_edges(edges), i, j, n),
    ensures
        0 <= j < nodes.len(),
        within(step, nodes[i], nodes[j], n),
    decreases n,
{
    if n > 0 {
        if within(by_edges(edges), i, j, (n - 1) as nat) {
            lemma_within_up(edges, nodes, step, i, j, (n - 1) as nat);
        } else {
            let c = choose|c: int|
                within(by_edges(edges), i, c, (n - 1) as nat) && #[trigger] by_edges(edges)(c, j);
            lemma_within_up(edges, nodes, step, i, c, (n - 1) as nat);
            let e = choose|e: int|
                0 <= e < edges.len() && ((#[trigger] edges[e]) == (c, j) || edges[e] == (j, c));
            assert(step(nodes[edges[e].0], nodes[edges[e].1]));
            assert(step(nodes[c], nodes[j]));
        }
    }
}

proof fn lemma_within_down<N>(
    edges: Seq<(int, int)>,
    nodes: Seq<N>,
    step: spec_fn(N, N) -> bool,
    i: int,
    y: N,
    n: nat,
) -> (j: int)
    requires
        takes_steps(edges, nodes, step),
        0 <= i < nodes.len(),
        within(step, nodes[i], y, n),
    ensures
        0 <= j < nodes.len(),
        nodes[j] == y,
        within(by_edges(edges), i, j, n),
    decreases n,
{
    if n == 0 {
        i
    } else if within(step, nodes[i], y, (n - 1) as nat) {
        lemma_within_down(edges, nodes, step, i, y, (n - 1) as nat)
    } else {
        let c = choose|c: N| within(step, nodes[i], c, (n - 1) as nat) && #[trigger] step(c, y);
        let k = lemma_within_down(edges, nodes, step, i, c, (n - 1) as nat);
        let e = choose|e: int|
            0 <= e < edges.len() && ((nodes[(#[trigger] edges[e]).0] == c && nodes[edges[e].1] == y)
                || (nodes[edges[e].1] == c && nodes[edges[e].0] == y));
        if nodes[edges[e].0] == c && nodes[edges[e].1] == y {
            assert(edges[e].0 == k);
            assert(by_edges(edges)(k, edges[e].1));
            edges[e].1
        } else {
            assert(edges[e].1 == k);
            assert(edges[e] == (edges[e].0, k));
            assert(by_edges(edges)(k, edges[e].0));
            edges[e].0
        }
    }
}

/// What the numbers of two nodes are linked by is what the nodes are linked by.
pub proof fn lemma_linked_nodes<N>(
    edges: Seq<(int, int)>,
    nodes: Seq<N>,
    step: spec_fn(N, N) -> bool,
    i: int,
    j: int,
)
    requires
        takes_steps(edges, nodes, step),
        0 <= i < nodes.len(),
        0 <= j < nodes.len(),
    ensures
        linked(by_edges(edges), i, j) <==> linked(step, nodes[i], nodes[j]),
{
    if linked(by_edges(edges), i, j) {
        let n = choose|n: nat| within(by_edges(edges), i, j, n);
        lemma_within_up(edges, nodes, step, i, j, n);
    }
    if linked(step, nodes[i], nodes[j]) {
        let n = choose|n: nat| within(step, nodes[i], nodes[j], n);
        let k = lemma_within_down(edges, nodes, step, i, nodes[j], n);
        assert(k == j);
    }
}

/// Whatever is linked to a node is a node.
pub proof fn lemma_linked_is_node<N>(
    edges: Seq<(int, int)>,
    nodes: Seq<N>,
    step: spec_fn(N, N) -> bool,
    i: int,
    y: N,
) -> (j: int)
    requires
        takes_steps(edges, nodes, step),
        0 <= i < nodes.len(),
        linked(step, nodes[i], y),
    ensures
        0 <= j < nodes.len(),
        nodes[j] == y,
        linked(by_edges(edges), i, j),
{
    let n = choose|n: nat| within(step, nodes[i], y, n);
    lemma_within_down(edges, nodes, step, i, y, n)
}

} // verus!
