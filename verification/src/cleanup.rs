//! Traces that lead to no pad.

use crate::fields::{read_xy, xy_nanometres};
use crate::graph::{
    are_groups, edge_list, groups, lemma_linked_is_node, lemma_linked_nodes, lemma_linked_reflexive,
    lemma_linked_symmetric, lemma_linked_transitive, lemma_step_linked, linked, takes_steps,
};
use crate::schematic::{field_marker, read_field};
use crate::sexpr::{
    ascending, cut_lines, lemma_named, named, named_blocks, pair, pairs, quoted_after,
    without_lines, Span,
};
use crate::strings::strings;
use crate::tables::{listed, lemma_table_list, place, put, TextMap};
use crate::text::{same_str, to_chars, to_text};
use crate::wires::{cell, cell_of};
use vstd::prelude::*;
use vstd::slice::slice_subrange;

verus! {

/// The cell, five micrometres wide, that a coordinate in nanometres falls in. Cells
/// take up what rounding leaves of a coordinate, and keep apart what a board keeps
/// apart.
pub fn coord_key(v: i64) -> (n: i64)
    ensures
        n == cell(v as int, 5000),
{
    cell_of(v, 5000)
}

/// The cells that a point falls in.
pub open spec fn spot(p: (int, int)) -> (int, int) {
    (cell(p.0, 5000), cell(p.1, 5000))
}

/// The cells that a point falls in.
pub fn point_key(x: i64, y: i64) -> (k: (i64, i64))
    ensures
        (k.0 as int, k.1 as int) == spot((x as int, y as int)),
{
    (coord_key(x), coord_key(y))
}

/// A trace: where it stands in the text, the cells of its ends, and its layer.
pub struct TraceSegment {
    pub span: Span,
    pub a: (i64, i64),
    pub b: (i64, i64),
    pub layer: String,
}

/// A trace in numbers and texts.
pub struct TraceModel {
    pub span: (int, int),
    pub a: (int, int),
    pub b: (int, int),
    pub layer: Seq<char>,
}

pub open spec fn trace_model(s: TraceSegment) -> TraceModel {
    TraceModel {
        span: pair(s.span),
        a: (s.a.0 as int, s.a.1 as int),
        b: (s.b.0 as int, s.b.1 as int),
        layer: s.layer@,
    }
}

pub open spec fn trace_models(list: Seq<TraceSegment>) -> Seq<TraceModel> {
    list.map_values(|s: TraceSegment| trace_model(s))
}

/// The traces among the given blocks: those that give both ends.
pub open spec fn traces_among(text: Seq<char>, blocks: Seq<(int, int)>) -> Seq<TraceModel>
    decreases blocks.len(),
{
    if blocks.len() == 0 {
        Seq::empty()
    } else {
        let known = traces_among(text, blocks.drop_last());
        let span = blocks.last();
        let block = text.subrange(span.0, span.1);
        match (xy_nanometres(block, "(start "@), xy_nanometres(block, "(end "@)) {
            (Some(p), Some(q)) => known.push(
                TraceModel {
                    span,
                    a: spot(p),
                    b: spot(q),
                    layer: match quoted_after(block, field_marker("layer"@)) {
                        Some(l) => l,
                        None => Seq::empty(),
                    },
                },
            ),
            _ => known,
        }
    }
}

/// The traces of a board.
pub open spec fn traces(text: Seq<char>) -> Seq<TraceModel> {
    traces_among(text, named(text, "(segment"@))
}

proof fn lemma_traces_among(text: Seq<char>, blocks: Seq<(int, int)>, len: int)
    requires
        ascending(blocks, len),
    ensures
        ({
            let list = traces_among(text, blocks);
            &&& list.len() <= blocks.len()
            &&& forall|i: int|
                0 <= i < list.len() ==> 0 <= (#[trigger] list[i]).span.0 < list[i].span.1 <= len
                    && list[i].span.1 <= blocks.last().1
            &&& forall|i: int, j: int|
                0 <= i < j < list.len() ==> (#[trigger] list[i]).span.1 <= (
                #[trigger] list[j]).span.0
        }),
    decreases blocks.len(),
{
    if blocks.len() > 0 {
        let front = blocks.drop_last();
        assert forall|i: int, j: int| 0 <= i < j < front.len() implies (#[trigger] front[i]).1 <= (
        #[trigger] front[j]).0 by {
            assert(front[i] == blocks[i]);
            assert(front[j] == blocks[j]);
        }
        assert forall|i: int| 0 <= i < front.len() implies 0 <= (#[trigger] front[i]).0
            < front[i].1 <= len by {
            assert(front[i] == blocks[i]);
        }
        lemma_traces_among(text, front, len);
        let known = traces_among(text, front);
        let list = traces_among(text, blocks);
        let last = blocks[blocks.len() - 1];
        assert(0 <= last.0 < last.1 <= len);
        assert forall|i: int| 0 <= i < known.len() implies (#[trigger] known[i]).span.1
            <= last.0 by {
            assert(front.last() == blocks[front.len() - 1]);
            assert(blocks[front.len() - 1].1 <= blocks[blocks.len() - 1].0);
        }
        assert forall|i: int| 0 <= i < list.len() implies 0 <= (#[trigger] list[i]).span.0
            < list[i].span.1 <= len && list[i].span.1 <= blocks.last().1 by {
            if i < known.len() {
                assert(list[i] == known[i]);
            }
        }
        assert forall|i: int, j: int| 0 <= i < j < list.len() implies (
        #[trigger] list[i]).span.1 <= (#[trigger] list[j]).span.0 by {
            assert(list[i] == known[i]);
            if j < known.len() {
                assert(list[j] == known[j]);
            }
        }
    }
}

/// The traces of a board.
pub fn parse_segments(content: &str) -> (out: Vec<TraceSegment>)
    ensures
        trace_models(out@) == traces(content@),
{
    let text = to_chars(content);
    proof {
        reveal_strlit("(segment");
    }
    let blocks = named_blocks(text.as_slice(), "(segment");
    let ghost all = pairs(blocks@);
    let start_mark = to_chars("(start ");
    let end_mark = to_chars("(end ");
    let mut out: Vec<TraceSegment> = Vec::new();
    let mut i: usize = 0;
    proof {
        assert(all.take(0).len() == 0);
        assert(trace_models(out@) =~= Seq::<TraceModel>::empty());
    }
    while i < blocks.len()
        invariant
            i <= blocks.len(),
            all == pairs(blocks@),
            start_mark@ == "(start "@,
            end_mark@ == "(end "@,
            forall|j: int|
                0 <= j < blocks@.len() ==> (#[trigger] blocks@[j]).start < blocks@[j].end
                    <= text@.len(),
            trace_models(out@) == traces_among(text@, all.take(i as int)),
        decreases blocks.len() - i,
    {
        let span: Span = blocks[i];
        proof {
            assert(all.take(i + 1).drop_last() =~= all.take(i as int));
            assert(all.take(i + 1).last() == pair(span));
        }
        let block = slice_subrange(text.as_slice(), span.start, span.end);
        match (read_xy(block, start_mark.as_slice()), read_xy(block, end_mark.as_slice())) {
            (Some(p), Some(q)) => {
                let layer: String = match read_field(block, "layer") {
                    Some(l) => to_text(l.as_slice()),
                    None => String::new(),
                };
                let trace = TraceSegment {
                    span,
                    a: point_key(p.0, p.1),
                    b: point_key(q.0, q.1),
                    layer,
                };
                let ghost done = out@;
                out.push(trace);
                proof {
                    assert(trace_models(out@) =~= trace_models(done).push(trace_model(trace)));
                }
            },
            _ => {},
        }
        i += 1;
    }
    proof {
        assert(all.take(all.len() as int) =~= all);
    }
    out
}

/// Whether a trace runs between two cells.
pub open spec fn runs_between(list: Seq<TraceModel>, p: (int, int), q: (int, int)) -> bool {
    exists|i: int|
        0 <= i < list.len() && (((#[trigger] list[i]).a == p && list[i].b == q) || (list[i].a == q
            && list[i].b == p))
}

/// One step along a trace, as a relation between cells.
pub open spec fn along(list: Seq<TraceModel>) -> spec_fn((int, int), (int, int)) -> bool {
    |p: (int, int), q: (int, int)| runs_between(list, p, q)
}

pub open spec fn apart(a: int, b: int) -> int {
    if a >= b {
        a - b
    } else {
        b - a
    }
}

/// Whether a pad is no farther from a cell than two cells each way.
pub open spec fn near_pad(p: (int, int), pads: Seq<(int, int)>) -> bool {
    exists|i: int|
        0 <= i < pads.len() && apart(p.0, (#[trigger] pads[i]).0) <= 2 && apart(p.1, pads[i].1) <= 2
}

/// Whether the traces lead from a cell to a pad.
pub open spec fn leads_to_pad(
    list: Seq<TraceModel>,
    pads: Seq<(int, int)>,
    p: (int, int),
) -> bool {
    exists|q: (int, int)| #[trigger] linked(along(list), p, q) && near_pad(q, pads)
}

/// Whether a trace leads to a pad.
pub open spec fn is_live(list: Seq<TraceModel>, pads: Seq<(int, int)>, i: int) -> bool {
    leads_to_pad(list, pads, list[i].a)
}

proof fn lemma_along_symmetric(list: Seq<TraceModel>)
    ensures
        forall|p: (int, int), q: (int, int)| #[trigger]
            along(list)(p, q) ==> along(list)(q, p),
{
    assert forall|p: (int, int), q: (int, int)| #[trigger] along(list)(p, q) implies along(list)(
        q,
        p,
    ) by {
        let i = choose|i: int|
            0 <= i < list.len() && (((#[trigger] list[i]).a == p && list[i].b == q) || (list[i].a
                == q && list[i].b == p));
        assert(list[i].a == p || list[i].a == q);
    }
}

/// A trace that ends at a pad leads to it.
pub proof fn lemma_trace_at_pad_is_live(list: Seq<TraceModel>, pads: Seq<(int, int)>, i: int)
    requires
        0 <= i < list.len(),
        near_pad(list[i].a, pads) || near_pad(list[i].b, pads),
    ensures
        is_live(list, pads, i),
{
    lemma_linked_reflexive(along(list), list[i].a);
    assert(runs_between(list, list[i].a, list[i].b));
    lemma_step_linked(along(list), list[i].a, list[i].b);
}

/// Traces that share an end lead to a pad both or neither.
pub proof fn lemma_touching_traces_live_together(
    list: Seq<TraceModel>,
    pads: Seq<(int, int)>,
    i: int,
    j: int,
)
    requires
        0 <= i < list.len(),
        0 <= j < list.len(),
        list[i].a == list[j].a || list[i].a == list[j].b || list[i].b == list[j].a || list[i].b
            == list[j].b,
    ensures
        is_live(list, pads, i) == is_live(list, pads, j),
{
    let step = along(list);
    assert(runs_between(list, list[i].a, list[i].b));
    assert(runs_between(list, list[j].a, list[j].b));
    lemma_along_symmetric(list);
    lemma_linked_reflexive(step, list[i].a);
    lemma_linked_reflexive(step, list[j].a);
    lemma_step_linked(step, list[i].a, list[i].b);
    lemma_step_linked(step, list[j].a, list[j].b);
    lemma_linked_symmetric(step, list[i].a, list[i].b);
    lemma_linked_symmetric(step, list[j].a, list[j].b);
    let meet = if list[i].a == list[j].a || list[i].a == list[j].b {
        list[i].a
    } else {
        list[i].b
    };
    lemma_linked_transitive(step, list[i].a, meet, list[j].a);
    lemma_linked_symmetric(step, list[i].a, list[j].a);
    if is_live(list, pads, i) {
        let q = choose|q: (int, int)| #[trigger] linked(step, list[i].a, q) && near_pad(q, pads);
        lemma_linked_transitive(step, list[j].a, list[i].a, q);
    }
    if is_live(list, pads, j) {
        let q = choose|q: (int, int)| #[trigger] linked(step, list[j].a, q) && near_pad(q, pads);
        lemma_linked_transitive(step, list[i].a, list[j].a, q);
    }
}

pub open spec fn spots(points: Seq<(i64, i64)>) -> Seq<(int, int)> {
    points.map_values(|p: (i64, i64)| spot((p.0 as int, p.1 as int)))
}

pub open spec fn cells_of(list: Seq<(i64, i64)>) -> Seq<(int, int)> {
    list.map_values(|k: (i64, i64)| (k.0 as int, k.1 as int))
}

spec fn all_distinct(list: Seq<(i64, i64)>) -> bool {
    forall|i: int, j: int| 0 <= i < j < list.len() ==> #[trigger] list[i] != #[trigger] list[j]
}

/// The place of a cell in the list, where it is put if it is not there yet.
fn node_of(nodes: &mut Vec<(i64, i64)>, k: (i64, i64)) -> (at: usize)
    requires
        all_distinct(old(nodes)@),
    ensures
        all_distinct(final(nodes)@),
        at < final(nodes)@.len(),
        final(nodes)@[at as int] == k,
        old(nodes)@.len() <= final(nodes)@.len(),
        final(nodes)@.take(old(nodes)@.len() as int) == old(nodes)@,
{
    let mut i: usize = 0;
    while i < nodes.len()
        invariant
            i <= nodes.len(),
            nodes@ == old(nodes)@,
            all_distinct(nodes@),
            forall|j: int| 0 <= j < i ==> #[trigger] nodes@[j] != k,
        decreases nodes.len() - i,
    {
        if nodes[i].0 == k.0 && nodes[i].1 == k.1 {
            proof {
                assert(nodes@.take(nodes@.len() as int) =~= nodes@);
            }
            return i;
        }
        i += 1;
    }
    nodes.push(k);
    proof {
        assert(nodes@.take(old(nodes)@.len() as int) =~= old(nodes)@);
    }
    i
}

fn is_near_pad(p: (i64, i64), pads: &Vec<(i64, i64)>) -> (yes: bool)
    ensures
        yes == near_pad((p.0 as int, p.1 as int), cells_of(pads@)),
{
    let ghost list = cells_of(pads@);
    let mut i: usize = 0;
    while i < pads.len()
        invariant
            i <= pads.len(),
            list == cells_of(pads@),
            forall|j: int|
                0 <= j < i ==> !(apart(p.0 as int, (#[trigger] list[j]).0) <= 2 && apart(
                    p.1 as int,
                    list[j].1,
                ) <= 2),
        decreases pads.len() - i,
    {
        let dx: i128 = p.0 as i128 - pads[i].0 as i128;
        let dy: i128 = p.1 as i128 - pads[i].1 as i128;
        if -2 <= dx && dx <= 2 && -2 <= dy && dy <= 2 {
            proof {
                assert(list[i as int] == (pads@[i as int].0 as int, pads@[i as int].1 as int));
            }
            return true;
        }
        i += 1;
    }
    false
}

/// Which traces lead to a pad.
fn live_traces(list: &Vec<TraceSegment>, pads: &Vec<(i64, i64)>) -> (live: Vec<bool>)
    ensures
        live@.len() == list@.len(),
        forall|i: int|
            0 <= i < list@.len() ==> (#[trigger] live@[i]) == is_live(
                trace_models(list@),
                cells_of(pads@),
                i,
            ),
{
    let ghost models = trace_models(list@);
    let ghost spots_ = cells_of(pads@);
    let mut nodes: Vec<(i64, i64)> = Vec::new();
    let mut edges: Vec<(usize, usize)> = Vec::new();
    let mut i: usize = 0;
    while i < list.len()
        invariant
            i <= list.len(),
            all_distinct(nodes@),
            edges@.len() == i,
            forall|e: int|
                0 <= e < i ==> {
                    &&& (#[trigger] edges@[e]).0 < nodes@.len()
                    &&& edges@[e].1 < nodes@.len()
                    &&& nodes@[edges@[e].0 as int] == list@[e].a
                    &&& nodes@[edges@[e].1 as int] == list@[e].b
                },
        decreases list.len() - i,
    {
        let ghost before = nodes@;
        let a: usize = node_of(&mut nodes, list[i].a);
        let ghost mid = nodes@;
        let b: usize = node_of(&mut nodes, list[i].b);
        edges.push((a, b));
        proof {
            assert forall|k: int| 0 <= k < before.len() implies nodes@[k] == #[trigger] before[k] by {
                assert(mid.take(before.len() as int)[k] == mid[k]);
                assert(nodes@.take(mid.len() as int)[k] == nodes@[k]);
            }
            assert(nodes@.take(mid.len() as int)[a as int] == nodes@[a as int]);
            assert forall|e: int| 0 <= e < i + 1 implies {
                &&& (#[trigger] edges@[e]).0 < nodes@.len()
                &&& edges@[e].1 < nodes@.len()
                &&& nodes@[edges@[e].0 as int] == list@[e].a
                &&& nodes@[edges@[e].1 as int] == list@[e].b
            } by {
                if e < i {
                    assert(before[edges@[e].0 as int] == list@[e].a);
                    assert(before[edges@[e].1 as int] == list@[e].b);
                }
            }
        }
        i += 1;
    }
    let parts = groups(nodes.len(), &edges);
    let ghost cells = cells_of(nodes@);
    let ghost step = along(models);
    let ghost links = edge_list(edges@);
    proof {
        assert forall|e: int| 0 <= e < links.len() implies 0 <= (#[trigger] links[e]).0
            < cells.len() && 0 <= links[e].1 < cells.len() && cells[links[e].0] == models[e].a
            && cells[links[e].1] == models[e].b by {
            assert(links[e] == (edges@[e].0 as int, edges@[e].1 as int));
            assert(models[e] == trace_model(list@[e]));
        }
        assert forall|e: int| 0 <= e < links.len() implies step(
            cells[(#[trigger] links[e]).0],
            cells[links[e].1],
        ) && step(cells[links[e].1], cells[links[e].0]) by {
            assert(models[e].a == cells[links[e].0]);
        }
        assert forall|x: (int, int), y: (int, int)| #[trigger] step(x, y) implies exists|e: int|
            0 <= e < links.len() && ((cells[(#[trigger] links[e]).0] == x && cells[links[e].1] == y)
                || (cells[links[e].1] == x && cells[links[e].0] == y)) by {
            let e = choose|e: int|
                0 <= e < models.len() && (((#[trigger] models[e]).a == x && models[e].b == y) || (
                models[e].a == y && models[e].b == x));
            assert(cells[links[e].0] == models[e].a);
        }
        assert forall|p: int, q: int| 0 <= p < q < cells.len() implies #[trigger] cells[p]
            != #[trigger] cells[q] by {
            assert(nodes@[p] != nodes@[q]);
        }
        assert(takes_steps(links, cells, step));
    }
    let mut lit: Vec<bool> = Vec::new();
    let mut g: usize = 0;
    while g < parts.count
        invariant
            g <= parts.count,
            lit@.len() == g,
            forall|k: int| 0 <= k < g ==> (#[trigger] lit@[k]) == false,
        decreases parts.count - g,
    {
        lit.push(false);
        g += 1;
    }
    let mut n: usize = 0;
    while n < nodes.len()
        invariant
            n <= nodes.len(),
            cells == cells_of(nodes@),
            spots_ == cells_of(pads@),
            lit@.len() == parts.count,
            parts.label@.len() == nodes@.len(),
            forall|a: int| 0 <= a < nodes@.len() ==> (#[trigger] parts.label@[a]) < parts.count,
            forall|k: int|
                0 <= k < lit@.len() ==> ((#[trigger] lit@[k]) <==> exists|m: int|
                    0 <= m < n && parts.label@[m] == k && near_pad(#[trigger] cells[m], spots_)),
        decreases nodes.len() - n,
    {
        let near: bool = is_near_pad(nodes[n], pads);
        let ghost before = lit@;
        proof {
            assert(cells[n as int] == (nodes@[n as int].0 as int, nodes@[n as int].1 as int));
        }
        let label: usize = parts.label[n];
        if near {
            lit[label] = true;
        }
        proof {
            assert forall|k: int| 0 <= k < lit@.len() implies ((#[trigger] lit@[k])
                <==> exists|m: int|
                0 <= m < n + 1 && parts.label@[m] == k && near_pad(#[trigger] cells[m], spots_)) by {
                if before[k] {
                    let m = choose|m: int|
                        0 <= m < n && parts.label@[m] == k && near_pad(#[trigger] cells[m], spots_);
                    assert(near_pad(cells[m], spots_));
                }
                if near && k == label {
                    assert(near_pad(cells[n as int], spots_));
                }
                if exists|m: int|
                    0 <= m < n + 1 && parts.label@[m] == k && near_pad(
                        #[trigger] cells[m],
                        spots_,
                    ) {
                    let m = choose|m: int|
                        0 <= m < n + 1 && parts.label@[m] == k && near_pad(
                            #[trigger] cells[m],
                            spots_,
                        );
                    if m < n {
                        assert(near_pad(cells[m], spots_));
                        assert(before[k]);
                    }
                }
            }
        }
        n += 1;
    }
    let mut live: Vec<bool> = Vec::new();
    let mut t: usize = 0;
    while t < list.len()
        invariant
            t <= list.len(),
            edges@.len() == list@.len(),
            models == trace_models(list@),
            spots_ == cells_of(pads@),
            cells == cells_of(nodes@),
            step == along(models),
            links == edge_list(edges@),
            takes_steps(links, cells, step),
            are_groups(parts, nodes@.len() as int, links),
            lit@.len() == parts.count,
            forall|e: int|
                0 <= e < edges@.len() ==> (#[trigger] edges@[e]).0 < nodes@.len()
                    && nodes@[edges@[e].0 as int] == list@[e].a,
            forall|k: int|
                0 <= k < lit@.len() ==> ((#[trigger] lit@[k]) <==> exists|m: int|
                    0 <= m < nodes@.len() && parts.label@[m] == k && near_pad(
                        #[trigger] cells[m],
                        spots_,
                    )),
            live@.len() == t,
            forall|j: int| 0 <= j < t ==> (#[trigger] live@[j]) == is_live(models, spots_, j),
        decreases list.len() - t,
    {
        let at: usize = edges[t].0;
        let label: usize = parts.label[at];
        live.push(lit[label]);
        proof {
            let ghost_at = at as int;
            assert(cells[ghost_at] == models[t as int].a) by {
                assert(models[t as int] == trace_model(list@[t as int]));
            }
            if lit@[label as int] {
                let m = choose|m: int|
                    0 <= m < nodes@.len() && parts.label@[m] == label && near_pad(
                        #[trigger] cells[m],
                        spots_,
                    );
                assert(parts.label@[ghost_at] == parts.label@[m]);
                lemma_linked_nodes(links, cells, step, ghost_at, m);
                assert(linked(step, models[t as int].a, cells[m]));
            }
            if is_live(models, spots_, t as int) {
                let q = choose|q: (int, int)| #[trigger]
                    linked(along(models), models[t as int].a, q) && near_pad(q, spots_);
                let m = lemma_linked_is_node(links, cells, step, ghost_at, q);
                assert(parts.label@[ghost_at] == parts.label@[m]);
                assert(near_pad(cells[m], spots_));
            }
        }
        t += 1;
    }
    live
}

/// Whether a layer is meant: any if no layers are named, else one of those named.
pub open spec fn is_meant(layer: Seq<char>, layers: Option<Seq<Seq<char>>>) -> bool {
    match layers {
        None => true,
        Some(list) => list.contains(layer),
    }
}

/// The first `upto` traces that lead to no pad and are meant.
pub open spec fn orphans(
    list: Seq<TraceModel>,
    pads: Seq<(int, int)>,
    layers: Option<Seq<Seq<char>>>,
    upto: int,
) -> Seq<TraceModel>
    decreases upto,
{
    if upto <= 0 {
        Seq::empty()
    } else {
        let rest = orphans(list, pads, layers, upto - 1);
        if is_meant(list[upto - 1].layer, layers) && !is_live(list, pads, upto - 1) {
            rest.push(list[upto - 1])
        } else {
            rest
        }
    }
}

/// How many of the traces are on each layer, in the order in which the layers first
/// come.
pub open spec fn layer_counts(list: Seq<TraceModel>) -> Seq<(Seq<char>, usize)>
    decreases list.len(),
{
    if list.len() == 0 {
        Seq::empty()
    } else {
        let known = layer_counts(list.drop_last());
        let layer = list.last().layer;
        let so_far: int = match place(known, layer) {
            Some(i) => known[i].1 as int,
            None => 0,
        };
        put(known, layer, (so_far + 1) as usize)
    }
}

pub open spec fn trace_spans(list: Seq<TraceModel>) -> Seq<(int, int)> {
    list.map_values(|t: TraceModel| t.span)
}

proof fn lemma_counts_small(list: Seq<TraceModel>)
    requires
        list.len() <= usize::MAX,
    ensures
        forall|i: int|
            0 <= i < layer_counts(list).len() ==> (#[trigger] layer_counts(list)[i]).1
                <= list.len(),
    decreases list.len(),
{
    if list.len() > 0 {
        lemma_counts_small(list.drop_last());
        let known = layer_counts(list.drop_last());
        crate::tables::lemma_place_bounds(known, list.last().layer);
    }
}

proof fn lemma_orphans_ascending(
    list: Seq<TraceModel>,
    pads: Seq<(int, int)>,
    layers: Option<Seq<Seq<char>>>,
    upto: int,
    len: int,
)
    requires
        0 <= upto <= list.len(),
        forall|i: int|
            0 <= i < list.len() ==> 0 <= (#[trigger] list[i]).span.0 < list[i].span.1 <= len,
        forall|i: int, j: int|
            0 <= i < j < list.len() ==> (#[trigger] list[i]).span.1 <= (#[trigger] list[j]).span.0,
    ensures
        ascending(trace_spans(orphans(list, pads, layers, upto)), len),
        orphans(list, pads, layers, upto).len() <= upto,
        forall|i: int|
            0 <= i < orphans(list, pads, layers, upto).len() ==> exists|j: int|
                0 <= j < upto && #[trigger] orphans(list, pads, layers, upto)[i] == list[j],
    decreases upto,
{
    if upto > 0 {
        lemma_orphans_ascending(list, pads, layers, upto - 1, len);
        let rest = orphans(list, pads, layers, upto - 1);
        let out = orphans(list, pads, layers, upto);
        let last = list[upto - 1];
        assert(0 <= last.span.0 < last.span.1 <= len);
        assert forall|i: int| 0 <= i < out.len() implies exists|j: int|
            0 <= j < upto && #[trigger] out[i] == list[j] by {
            if i < rest.len() {
                assert(out[i] == rest[i]);
                let j = choose|j: int| 0 <= j < upto - 1 && rest[i] == list[j];
                assert(out[i] == list[j]);
            } else {
                assert(out[i] == list[upto - 1]);
            }
        }
        let spans = trace_spans(out);
        assert forall|i: int, j: int| 0 <= i < j < spans.len() implies (#[trigger] spans[i]).1 <= (
        #[trigger] spans[j]).0 by {
            assert(out[i] == rest[i]);
            if j < rest.len() {
                assert(out[j] == rest[j]);
                assert(trace_spans(rest)[i].1 <= trace_spans(rest)[j].0);
            } else {
                let k = choose|k: int| 0 <= k < upto - 1 && rest[i] == list[k];
                assert(list[k].span.1 <= list[upto - 1].span.0);
            }
        }
        assert forall|i: int| 0 <= i < spans.len() implies 0 <= (#[trigger] spans[i]).0
            < spans[i].1 <= len by {
            if i < rest.len() {
                assert(trace_spans(rest)[i] == spans[i]);
            }
        }
    }
}

/// What naming layers asks for.
pub open spec fn named_layers(layers: Option<&Vec<String>>) -> Option<Seq<Seq<char>>> {
    match layers {
        Some(list) => Some(strings(list@)),
        None => None,
    }
}

fn layer_is_meant(layer: &str, layers: Option<&Vec<String>>) -> (yes: bool)
    ensures
        yes == is_meant(layer@, named_layers(layers)),
{
    match layers {
        None => true,
        Some(list) => {
            let mut i: usize = 0;
            while i < list.len()
                invariant
                    i <= list.len(),
                    layers == Some(list),
                    forall|j: int| 0 <= j < i ==> #[trigger] strings(list@)[j] != layer@,
                decreases list.len() - i,
            {
                if same_str(list[i].as_str(), layer) {
                    proof {
                        assert(strings(list@)[i as int] == layer@);
                        assert(strings(list@).contains(layer@));
                    }
                    return true;
                }
                i += 1;
            }
            false
        },
    }
}

/// Removes the traces that lead to no pad; only those on the named layers if any
/// are named. `pads` holds where pads are, in nanometres. Gives the board that is
/// left, how many traces went, and how many went from each layer.
pub fn remove_orphaned_segments(
    content: &str,
    layer_filter: Option<&Vec<String>>,
    pads: &Vec<(i64, i64)>,
) -> (out: (String, usize, TextMap<usize>))
    ensures
        ({
            let list = traces(content@);
            let lost = orphans(
                list,
                spots(pads@),
                named_layers(layer_filter),
                list.len() as int,
            );
            &&& out.0@ == without_lines(content@, trace_spans(lost))
            &&& out.1 == lost.len()
            &&& out.2.well_formed()
            &&& listed(out.2.entries@) == layer_counts(lost)
        }),
{
    let list = parse_segments(content);
    let ghost models = traces(content@);
    let ghost layers = named_layers(layer_filter);
    let mut keys: Vec<(i64, i64)> = Vec::new();
    let mut p: usize = 0;
    while p < pads.len()
        invariant
            p <= pads.len(),
            keys@.len() == p,
            forall|j: int|
                0 <= j < p ==> ((#[trigger] keys@[j]).0 as int, keys@[j].1 as int) == spot(
                    (pads@[j].0 as int, pads@[j].1 as int),
                ),
        decreases pads.len() - p,
    {
        keys.push(point_key(pads[p].0, pads[p].1));
        p += 1;
    }
    let ghost at = spots(pads@);
    proof {
        assert(cells_of(keys@) =~= at);
    }
    let live = live_traces(&list, &keys);
    let mut runs: Vec<Span> = Vec::new();
    let mut counts: TextMap<usize> = TextMap::new();
    let mut i: usize = 0;
    proof {
        assert(models.len() == list@.len()) by {
            assert(trace_models(list@).len() == list@.len());
        }
        assert(pairs(runs@) =~= trace_spans(orphans(models, at, layers, 0)));
        assert(listed(counts.entries@) =~= layer_counts(orphans(models, at, layers, 0)));
        reveal_strlit("(segment");
        lemma_named(content@, "(segment"@);
        lemma_traces_among(
            content@,
            named(content@, "(segment"@),
            content@.len() as int,
        );
    }
    while i < list.len()
        invariant
            i <= list.len(),
            models == traces(content@),
            models == trace_models(list@),
            models.len() == list@.len(),
            layers == named_layers(layer_filter),
            live@.len() == list@.len(),
            forall|j: int| 0 <= j < list@.len() ==> (#[trigger] live@[j]) == is_live(models, at, j),
            forall|j: int|
                0 <= j < models.len() ==> 0 <= (#[trigger] models[j]).span.0 < models[j].span.1
                    <= content@.len(),
            forall|j: int, k: int|
                0 <= j < k < models.len() ==> (#[trigger] models[j]).span.1 <= (
                #[trigger] models[k]).span.0,
            counts.well_formed(),
            pairs(runs@) == trace_spans(orphans(models, at, layers, i as int)),
            listed(counts.entries@) == layer_counts(orphans(models, at, layers, i as int)),
        decreases list.len() - i,
    {
        let ghost so_far = orphans(models, at, layers, i as int);
        proof {
            assert(models[i as int] == trace_model(list@[i as int]));
            lemma_orphans_ascending(models, at, layers, i as int, content@.len() as int);
            lemma_counts_small(so_far);
        }
        if layer_is_meant(list[i].layer.as_str(), layer_filter) && !live[i] {
            let span: Span = list[i].span;
            let ghost done = runs@;
            runs.push(span);
            let layer: String = list[i].layer.clone();
            proof {
                lemma_table_list(&counts, layer@);
                assert(so_far.push(models[i as int]).drop_last() =~= so_far);
                assert(pairs(runs@) =~= pairs(done).push(pair(span)));
                assert(trace_spans(so_far.push(models[i as int])) =~= trace_spans(so_far).push(
                    pair(span),
                ));
            }
            let known: usize = match counts.get(layer.as_str()) {
                Some(n) => *n,
                None => 0,
            };
            proof {
                if let Some(k) = place(listed(counts.entries@), layer@) {
                    assert(listed(counts.entries@)[k].1 == counts.entries@[k].1);
                }
            }
            counts.insert(layer, known + 1);
        }
        i += 1;
    }
    proof {
        lemma_orphans_ascending(models, at, layers, models.len() as int, content@.len() as int);
        assert(pairs(runs@).len() == runs@.len());
    }
    let text = to_chars(content);
    let kept = cut_lines(text.as_slice(), &runs);
    (to_text(kept.as_slice()), runs.len(), counts)
}

} // verus!
