//! What copper connects: whether traces and vias lead from one pad to another.

use crate::cleanup::{point_key, spot};
use crate::graph::{
    are_groups, edge_list, groups, lemma_linked_is_node, lemma_linked_nodes, lemma_linked_symmetric,
    linked, takes_steps, within, Groups,
};
use crate::fields::{read_xy, xy_nanometres};
use crate::pads::{layers_of, parse_layers_field, PcbPad};
use crate::sexpr::{named, named_blocks, pair, pairs, Span};
use crate::strings::{before, comes_before, decimal, lemma_before_total, number, strings};
use crate::text::{extend, extend_str, same_str, to_chars, to_text};
use crate::traces::{segment_model, segment_models, PcbSegment, SegmentModel};
use vstd::prelude::*;
use vstd::slice::slice_subrange;

verus! {

/// A via: where it is, in nanometres, and the layers that it joins.
#[derive(Debug)]
pub struct PcbVia {
    pub x: i64,
    pub y: i64,
    pub layers: Vec<String>,
}

/// A via in numbers and texts.
#[verifier::ext_equal]
pub struct ViaModel {
    pub at: (int, int),
    pub layers: Seq<Seq<char>>,
}

pub open spec fn via_model(v: PcbVia) -> ViaModel {
    ViaModel { at: (v.x as int, v.y as int), layers: strings(v.layers@) }
}

pub open spec fn via_models(list: Seq<PcbVia>) -> Seq<ViaModel> {
    list.map_values(|v: PcbVia| via_model(v))
}

/// The vias among blocks: those that say where they are.
pub open spec fn vias_among(text: Seq<char>, blocks: Seq<(int, int)>) -> Seq<ViaModel>
    decreases blocks.len(),
{
    if blocks.len() == 0 {
        Seq::empty()
    } else {
        let known = vias_among(text, blocks.drop_last());
        let block = text.subrange(blocks.last().0, blocks.last().1);
        match xy_nanometres(block, "(at "@) {
            Some(p) => known.push(ViaModel { at: p, layers: layers_of(block) }),
            None => known,
        }
    }
}

/// The vias of a board: the blocks one indent deep that are named so.
pub open spec fn vias(text: Seq<char>) -> Seq<ViaModel> {
    vias_among(text, named(text, "(via"@))
}

/// The vias of a board.
pub fn parse_pcb_vias(content: &str) -> (out: Vec<PcbVia>)
    ensures
        via_models(out@) == vias(content@),
{
    let text = to_chars(content);
    proof {
        reveal_strlit("(via");
    }
    let blocks = named_blocks(text.as_slice(), "(via");
    let ghost all = pairs(blocks@);
    let at_mark = to_chars("(at ");
    let mut out: Vec<PcbVia> = Vec::new();
    let mut i: usize = 0;
    proof {
        assert(all.take(0).len() == 0);
        assert(via_models(out@) =~= Seq::<ViaModel>::empty());
    }
    while i < blocks.len()
        invariant
            i <= blocks@.len(),
            all == pairs(blocks@),
            at_mark@ == "(at "@,
            forall|j: int|
                0 <= j < blocks@.len() ==> (#[trigger] blocks@[j]).start < blocks@[j].end
                    <= text@.len(),
            via_models(out@) == vias_among(text@, all.take(i as int)),
        decreases blocks@.len() - i,
    {
        let span: Span = blocks[i];
        proof {
            assert(all.take(i + 1).drop_last() =~= all.take(i as int));
            assert(all.take(i + 1).last() == pair(span));
        }
        let block = slice_subrange(text.as_slice(), span.start, span.end);
        match read_xy(block, at_mark.as_slice()) {
            Some(p) => {
                let inner = to_text(block);
                let via = PcbVia {
                    x: p.0,
                    y: p.1,
                    layers: parse_layers_field(inner.as_str()),
                };
                let ghost done = out@;
                out.push(via);
                proof {
                    assert(via_models(out@) =~= via_models(done).push(via_model(via)));
                }
            },
            None => {},
        }
        i += 1;
    }
    proof {
        assert(all.take(all.len() as int) =~= all);
    }
    out
}

/// A place on a layer: the cells that a point falls in, and the layer.
pub open spec fn node(at: (int, int), layer: Seq<char>) -> (int, int, Seq<char>) {
    (spot(at).0, spot(at).1, layer)
}

/// Whether a trace runs between two places.
pub open spec fn trace_joins(
    traces: Seq<SegmentModel>,
    a: (int, int, Seq<char>),
    b: (int, int, Seq<char>),
) -> bool {
    exists|i: int|
        0 <= i < traces.len() && ((node((#[trigger] traces[i]).from, traces[i].layer) == a && node(
            traces[i].to,
            traces[i].layer,
        ) == b) || (node(traces[i].from, traces[i].layer) == b && node(
            traces[i].to,
            traces[i].layer,
        ) == a))
}

/// Whether a via joins two places: they are one above the other, on two of its
/// layers.
pub open spec fn via_joins(
    vias: Seq<ViaModel>,
    a: (int, int, Seq<char>),
    b: (int, int, Seq<char>),
) -> bool {
    &&& a.2 != b.2
    &&& exists|i: int|
        0 <= i < vias.len() && node((#[trigger] vias[i]).at, a.2) == a && node(vias[i].at, b.2) == b
            && vias[i].layers.contains(a.2) && vias[i].layers.contains(b.2)
}

/// One step along copper, as a relation between places.
pub open spec fn copper(traces: Seq<SegmentModel>, vias: Seq<ViaModel>) -> spec_fn(
    (int, int, Seq<char>),
    (int, int, Seq<char>),
) -> bool {
    |a: (int, int, Seq<char>), b: (int, int, Seq<char>)|
        trace_joins(traces, a, b) || via_joins(vias, a, b)
}

/// Whether any copper starts at a place.
pub open spec fn has_copper(
    traces: Seq<SegmentModel>,
    vias: Seq<ViaModel>,
    a: (int, int, Seq<char>),
) -> bool {
    exists|b: (int, int, Seq<char>)| #[trigger] copper(traces, vias)(a, b)
}

/// Whether copper leads from a place to some layer of a point.
pub open spec fn reaches(
    traces: Seq<SegmentModel>,
    vias: Seq<ViaModel>,
    a: (int, int, Seq<char>),
    to: (int, int),
) -> bool {
    &&& has_copper(traces, vias, a)
    &&& exists|b: (int, int, Seq<char>)| #[trigger]
        linked(copper(traces, vias), a, b) && (b.0, b.1) == spot(to)
}

/// Whether copper leads from one point to another, starting on either outer layer.
pub open spec fn connected(
    traces: Seq<SegmentModel>,
    vias: Seq<ViaModel>,
    from: (int, int),
    to: (int, int),
) -> bool {
    reaches(traces, vias, node(from, "F.Cu"@), to) || reaches(
        traces,
        vias,
        node(from, "B.Cu"@),
        to,
    )
}

proof fn lemma_copper_symmetric(traces: Seq<SegmentModel>, vias: Seq<ViaModel>)
    ensures
        forall|x: (int, int, Seq<char>), y: (int, int, Seq<char>)| #[trigger]
            copper(traces, vias)(x, y) ==> copper(traces, vias)(y, x),
{
    assert forall|x: (int, int, Seq<char>), y: (int, int, Seq<char>)| #[trigger]
        copper(traces, vias)(x, y) implies copper(traces, vias)(y, x) by {
        if trace_joins(traces, x, y) {
            let i = choose|i: int|
                0 <= i < traces.len() && ((node((#[trigger] traces[i]).from, traces[i].layer) == x
                    && node(traces[i].to, traces[i].layer) == y) || (node(
                    traces[i].from,
                    traces[i].layer,
                ) == y && node(traces[i].to, traces[i].layer) == x));
            assert(traces[i] == traces[i]);
            assert(trace_joins(traces, y, x));
        } else {
            let i = choose|i: int|
                0 <= i < vias.len() && node((#[trigger] vias[i]).at, x.2) == x && node(
                    vias[i].at,
                    y.2,
                ) == y && vias[i].layers.contains(x.2) && vias[i].layers.contains(y.2);
            assert(vias[i] == vias[i]);
            assert(via_joins(vias, y, x));
        }
    }
}

proof fn lemma_way_ends_on_copper(
    traces: Seq<SegmentModel>,
    vias: Seq<ViaModel>,
    a: (int, int, Seq<char>),
    b: (int, int, Seq<char>),
    steps: nat,
)
    requires
        within(copper(traces, vias), a, b, steps),
        has_copper(traces, vias, a),
    ensures
        has_copper(traces, vias, b),
    decreases steps,
{
    let step = copper(traces, vias);
    if steps > 0 {
        if within(step, a, b, (steps - 1) as nat) {
            lemma_way_ends_on_copper(traces, vias, a, b, (steps - 1) as nat);
        } else {
            let c = choose|c: (int, int, Seq<char>)|
                within(step, a, c, (steps - 1) as nat) && #[trigger] step(c, b);
            lemma_copper_symmetric(traces, vias);
            assert(step(b, c));
        }
    }
}

/// Whether a layer is one of the two outer ones.
pub open spec fn is_outer(layer: Seq<char>) -> bool {
    layer == "F.Cu"@ || layer == "B.Cu"@
}

/// On a board with traces on the outer layers only and vias between those, a point
/// is connected to another exactly if that one is connected to it.
pub proof fn lemma_connected_both_ways(
    traces: Seq<SegmentModel>,
    vias: Seq<ViaModel>,
    a: (int, int),
    b: (int, int),
)
    requires
        forall|i: int| 0 <= i < traces.len() ==> is_outer((#[trigger] traces[i]).layer),
        forall|i: int, l: Seq<char>|
            0 <= i < vias.len() && #[trigger] vias[i].layers.contains(l) ==> is_outer(l),
    ensures
        connected(traces, vias, a, b) == connected(traces, vias, b, a),
{
    if connected(traces, vias, a, b) {
        lemma_connected_back(traces, vias, a, b);
    }
    if connected(traces, vias, b, a) {
        lemma_connected_back(traces, vias, b, a);
    }
}

proof fn lemma_connected_back(
    traces: Seq<SegmentModel>,
    vias: Seq<ViaModel>,
    a: (int, int),
    b: (int, int),
)
    requires
        forall|i: int| 0 <= i < traces.len() ==> is_outer((#[trigger] traces[i]).layer),
        forall|i: int, l: Seq<char>|
            0 <= i < vias.len() && #[trigger] vias[i].layers.contains(l) ==> is_outer(l),
        connected(traces, vias, a, b),
    ensures
        connected(traces, vias, b, a),
{
    let step = copper(traces, vias);
    let start = if reaches(traces, vias, node(a, "F.Cu"@), b) {
        node(a, "F.Cu"@)
    } else {
        node(a, "B.Cu"@)
    };
    assert(reaches(traces, vias, start, b));
    let end = choose|q: (int, int, Seq<char>)| #[trigger]
        linked(step, start, q) && (q.0, q.1) == spot(b);
    let n = choose|n: nat| within(step, start, end, n);
    lemma_way_ends_on_copper(traces, vias, start, end, n);
    lemma_copper_symmetric(traces, vias);
    lemma_linked_symmetric(step, start, end);
    let c = choose|c: (int, int, Seq<char>)| #[trigger] copper(traces, vias)(end, c);
    assert(is_outer(end.2)) by {
        if trace_joins(traces, end, c) {
            let i = choose|i: int|
                0 <= i < traces.len() && ((node((#[trigger] traces[i]).from, traces[i].layer)
                    == end && node(traces[i].to, traces[i].layer) == c) || (node(
                    traces[i].from,
                    traces[i].layer,
                ) == c && node(traces[i].to, traces[i].layer) == end));
            assert(is_outer(traces[i].layer));
        } else {
            let i = choose|i: int|
                0 <= i < vias.len() && node((#[trigger] vias[i]).at, end.2) == end && node(
                    vias[i].at,
                    c.2,
                ) == c && vias[i].layers.contains(end.2) && vias[i].layers.contains(c.2);
            assert(vias[i].layers.contains(end.2));
        }
    }
    assert(end == node(b, end.2));
    assert((start.0, start.1) == spot(a));
    assert(reaches(traces, vias, end, a));
}

/// A graph of places: the places, and which of them are joined.
struct Copper {
    nodes: Vec<(i64, i64, String)>,
    edges: Vec<(usize, usize)>,
}

spec fn place_of(n: (i64, i64, String)) -> (int, int, Seq<char>) {
    (n.0 as int, n.1 as int, n.2@)
}

spec fn places(nodes: Seq<(i64, i64, String)>) -> Seq<(int, int, Seq<char>)> {
    nodes.map_values(|n: (i64, i64, String)| place_of(n))
}

spec fn has_edge(edges: Seq<(usize, usize)>, n: int) -> bool {
    exists|e: int| 0 <= e < edges.len() && ((#[trigger] edges[e]).0 == n || edges[e].1 == n)
}

impl Copper {
    spec fn well_formed(&self) -> bool {
        let at = places(self.nodes@);
        &&& forall|e: int|
            0 <= e < self.edges@.len() ==> (#[trigger] self.edges@[e]).0 < at.len()
                && self.edges@[e].1 < at.len()
        &&& forall|i: int, j: int| 0 <= i < j < at.len() ==> #[trigger] at[i] != #[trigger] at[j]
        &&& forall|n: int| 0 <= n < at.len() ==> #[trigger] has_edge(self.edges@, n)
    }

    /// The joined places.
    spec fn joints(&self) -> Seq<((int, int, Seq<char>), (int, int, Seq<char>))> {
        self.edges@.map_values(
            |e: (usize, usize)|
                (places(self.nodes@)[e.0 as int], places(self.nodes@)[e.1 as int]),
        )
    }
}

fn find_node(nodes: &Vec<(i64, i64, String)>, k: (i64, i64), layer: &str) -> (found: Option<usize>)
    ensures
        match found {
            Some(i) => i < nodes@.len() && places(nodes@)[i as int] == (
                k.0 as int,
                k.1 as int,
                layer@,
            ),
            None => forall|i: int|
                0 <= i < nodes@.len() ==> #[trigger] places(nodes@)[i] != (
                    k.0 as int,
                    k.1 as int,
                    layer@,
                ),
        },
{
    let mut i: usize = 0;
    while i < nodes.len()
        invariant
            i <= nodes@.len(),
            forall|j: int|
                0 <= j < i ==> #[trigger] places(nodes@)[j] != (k.0 as int, k.1 as int, layer@),
        decreases nodes@.len() - i,
    {
        proof {
            assert(places(nodes@)[i as int] == place_of(nodes@[i as int]));
        }
        if nodes[i].0 == k.0 && nodes[i].1 == k.1 && same_str(nodes[i].2.as_str(), layer) {
            return Some(i);
        }
        i += 1;
    }
    None
}

fn node_index(nodes: &mut Vec<(i64, i64, String)>, k: (i64, i64), layer: &str) -> (at: usize)
    requires
        forall|i: int, j: int|
            0 <= i < j < old(nodes)@.len() ==> #[trigger] places(old(nodes)@)[i]
                != #[trigger] places(old(nodes)@)[j],
    ensures
        at < final(nodes)@.len(),
        places(final(nodes)@)[at as int] == (k.0 as int, k.1 as int, layer@),
        old(nodes)@.len() <= final(nodes)@.len() <= old(nodes)@.len() + 1,
        final(nodes)@.len() > old(nodes)@.len() ==> at == old(nodes)@.len(),
        forall|i: int|
            0 <= i < old(nodes)@.len() ==> #[trigger] places(final(nodes)@)[i] == places(
                old(nodes)@,
            )[i],
        forall|i: int, j: int|
            0 <= i < j < final(nodes)@.len() ==> #[trigger] places(final(nodes)@)[i]
                != #[trigger] places(final(nodes)@)[j],
{
    match find_node(nodes, k, layer) {
        Some(i) => i,
        None => {
            let at: usize = nodes.len();
            let ghost start = places(nodes@);
            nodes.push((k.0, k.1, layer.to_string()));
            proof {
                assert(places(nodes@) =~= start.push((k.0 as int, k.1 as int, layer@)));
            }
            at
        },
    }
}

fn join(graph: &mut Copper, a: (i64, i64), la: &str, b: (i64, i64), lb: &str)
    requires
        old(graph).well_formed(),
    ensures
        final(graph).well_formed(),
        final(graph).joints() == old(graph).joints().push(
            ((a.0 as int, a.1 as int, la@), (b.0 as int, b.1 as int, lb@)),
        ),
{
    let ghost before_nodes = places(graph.nodes@);
    let ghost before_edges = graph.edges@;
    let ghost before_joints = graph.joints();
    let i: usize = node_index(&mut graph.nodes, a, la);
    let ghost mid = places(graph.nodes@);
    let j: usize = node_index(&mut graph.nodes, b, lb);
    graph.edges.push((i, j));
    proof {
        let at = places(graph.nodes@);
        let edges = graph.edges@;
        assert(edges[edges.len() - 1] == (i, j));
        assert(at[i as int] == mid[i as int]);
        assert forall|n: int| 0 <= n < at.len() implies #[trigger] has_edge(edges, n) by {
            if n < before_nodes.len() {
                assert(has_edge(before_edges, n));
                let e = choose|e: int|
                    0 <= e < before_edges.len() && ((#[trigger] before_edges[e]).0 == n
                        || before_edges[e].1 == n);
                assert(edges[e] == before_edges[e]);
            } else {
                assert(n == i || n == j);
            }
        }
        assert forall|e: int| 0 <= e < edges.len() implies (#[trigger] edges[e]).0 < at.len()
            && edges[e].1 < at.len() by {
            if e < before_edges.len() {
                assert(edges[e] == before_edges[e]);
            }
        }
        assert forall|e: int| 0 <= e < before_edges.len() implies graph.joints()[e]
            == before_joints[e] by {
            assert(edges[e] == before_edges[e]);
            assert(at[before_edges[e].0 as int] == before_nodes[before_edges[e].0 as int]);
            assert(at[before_edges[e].1 as int] == before_nodes[before_edges[e].1 as int]);
        }
        assert(graph.joints() =~= before_joints.push(
            ((a.0 as int, a.1 as int, la@), (b.0 as int, b.1 as int, lb@)),
        ));
    }
}

/// Whether two places are among the joined ones.
spec fn covers(
    joints: Seq<((int, int, Seq<char>), (int, int, Seq<char>))>,
    a: (int, int, Seq<char>),
    b: (int, int, Seq<char>),
) -> bool {
    exists|e: int| 0 <= e < joints.len() && #[trigger] joints[e] == (a, b)
}

proof fn lemma_covers_more(
    joints: Seq<((int, int, Seq<char>), (int, int, Seq<char>))>,
    more: ((int, int, Seq<char>), (int, int, Seq<char>)),
)
    ensures
        forall|a: (int, int, Seq<char>), b: (int, int, Seq<char>)| #[trigger]
            covers(joints, a, b) ==> covers(joints.push(more), a, b),
        covers(joints.push(more), more.0, more.1),
{
    assert forall|a: (int, int, Seq<char>), b: (int, int, Seq<char>)| #[trigger]
        covers(joints, a, b) implies covers(joints.push(more), a, b) by {
        let e = choose|e: int| 0 <= e < joints.len() && #[trigger] joints[e] == (a, b);
        assert(joints.push(more)[e] == (a, b));
    }
    assert(joints.push(more)[joints.len() as int] == more);
}

/// Whether every joint is a step along copper.
spec fn sound(
    joints: Seq<((int, int, Seq<char>), (int, int, Seq<char>))>,
    traces: Seq<SegmentModel>,
    vias: Seq<ViaModel>,
) -> bool {
    forall|e: int|
        0 <= e < joints.len() ==> copper(traces, vias)(
            (#[trigger] joints[e]).0,
            joints[e].1,
        )
}

/// Whether the joints cover a via's layers, of the first `upto` each with all.
spec fn via_covered(
    joints: Seq<((int, int, Seq<char>), (int, int, Seq<char>))>,
    via: ViaModel,
    upto: int,
) -> bool {
    forall|i: int, j: int|
        0 <= i < upto && 0 <= j < via.layers.len() && before(
            #[trigger] via.layers[i],
            #[trigger] via.layers[j],
        ) ==> covers(joints, node(via.at, via.layers[i]), node(via.at, via.layers[j]))
}

spec fn vias_covered(
    joints: Seq<((int, int, Seq<char>), (int, int, Seq<char>))>,
    vias: Seq<ViaModel>,
    upto: int,
) -> bool {
    forall|v: int|
        0 <= v < upto ==> via_covered(joints, #[trigger] vias[v], vias[v].layers.len() as int)
}

spec fn traces_covered(
    joints: Seq<((int, int, Seq<char>), (int, int, Seq<char>))>,
    traces: Seq<SegmentModel>,
    upto: int,
) -> bool {
    forall|i: int|
        0 <= i < upto ==> covers(
            joints,
            node((#[trigger] traces[i]).from, traces[i].layer),
            node(traces[i].to, traces[i].layer),
        )
}

/// Joins the layers of a link.
fn join_via(graph: &mut Copper, link: &PcbVia, Ghost(traces): Ghost<Seq<SegmentModel>>, Ghost(
    vias,
): Ghost<Seq<ViaModel>>, Ghost(at): Ghost<int>)
    requires
        old(graph).well_formed(),
        0 <= at < vias.len(),
        vias[at] == via_model(*link),
        sound(old(graph).joints(), traces, vias),
        traces_covered(old(graph).joints(), traces, traces.len() as int),
        vias_covered(old(graph).joints(), vias, at),
    ensures
        final(graph).well_formed(),
        sound(final(graph).joints(), traces, vias),
        traces_covered(final(graph).joints(), traces, traces.len() as int),
        vias_covered(final(graph).joints(), vias, at + 1),
{
    let ghost model = via_model(*link);
    let key = point_key(link.x, link.y);
    let mut i: usize = 0;
    while i < link.layers.len()
        invariant
            i <= link.layers@.len(),
            graph.well_formed(),
            0 <= at < vias.len(),
            vias[at] == model,
            model == via_model(*link),
            (key.0 as int, key.1 as int) == spot(model.at),
            sound(graph.joints(), traces, vias),
            traces_covered(graph.joints(), traces, traces.len() as int),
            vias_covered(graph.joints(), vias, at),
            via_covered(graph.joints(), model, i as int),
        decreases link.layers@.len() - i,
    {
        let first = to_chars(link.layers[i].as_str());
        let mut j: usize = 0;
        while j < link.layers.len()
            invariant
                i < link.layers@.len(),
                j <= link.layers@.len(),
                first@ == link.layers@[i as int]@,
                graph.well_formed(),
                0 <= at < vias.len(),
                vias[at] == model,
                model == via_model(*link),
                (key.0 as int, key.1 as int) == spot(model.at),
                sound(graph.joints(), traces, vias),
                traces_covered(graph.joints(), traces, traces.len() as int),
                vias_covered(graph.joints(), vias, at),
                via_covered(graph.joints(), model, i as int),
                forall|k: int|
                    0 <= k < j && before(model.layers[i as int], #[trigger] model.layers[k])
                        ==> covers(
                        graph.joints(),
                        node(model.at, model.layers[i as int]),
                        node(model.at, model.layers[k]),
                    ),
            decreases link.layers@.len() - j,
        {
            let second = to_chars(link.layers[j].as_str());
            if comes_before(first.as_slice(), second.as_slice()) {
                let ghost joints = graph.joints();
                join(graph, key, link.layers[i].as_str(), key, link.layers[j].as_str());
                proof {
                    let a = model.layers[i as int];
                    let b = model.layers[j as int];
                    let more = (node(model.at, a), node(model.at, b));
                    assert(graph.joints() == joints.push(more));
                    lemma_covers_more(joints, more);
                    assert(a != b) by {
                        lemma_before_irreflexive(a);
                    }
                    assert(model.layers.contains(a));
                    assert(model.layers.contains(b));
                    assert(via_joins(vias, more.0, more.1)) by {
                        assert(vias[at].layers.contains(a));
                    }
                    assert(copper(traces, vias)(more.0, more.1));
                    assert forall|e: int| 0 <= e < graph.joints().len() implies copper(
                        traces,
                        vias,
                    )((#[trigger] graph.joints()[e]).0, graph.joints()[e].1) by {
                        if e < joints.len() {
                            assert(graph.joints()[e] == joints[e]);
                        }
                    }
                }
            }
            j += 1;
        }
        i += 1;
    }
}

proof fn lemma_before_irreflexive(a: Seq<char>)
    ensures
        !before(a, a),
    decreases a.len(),
{
    if a.len() > 0 {
        lemma_before_irreflexive(a.skip(1));
    }
}

fn build(segments: &Vec<PcbSegment>, vias: &Vec<PcbVia>) -> (graph: Copper)
    ensures
        graph.well_formed(),
        sound(graph.joints(), segment_models(segments@), via_models(vias@)),
        traces_covered(
            graph.joints(),
            segment_models(segments@),
            segments@.len() as int,
        ),
        vias_covered(graph.joints(), via_models(vias@), vias@.len() as int),
{
    let ghost traces = segment_models(segments@);
    let ghost all = via_models(vias@);
    let mut graph = Copper { nodes: Vec::new(), edges: Vec::new() };
    let mut i: usize = 0;
    while i < segments.len()
        invariant
            i <= segments@.len(),
            traces == segment_models(segments@),
            graph.well_formed(),
            sound(graph.joints(), traces, all),
            traces_covered(graph.joints(), traces, i as int),
        decreases segments@.len() - i,
    {
        let s = &segments[i];
        let ghost joints = graph.joints();
        join(
            &mut graph,
            point_key(s.x1, s.y1),
            s.layer.as_str(),
            point_key(s.x2, s.y2),
            s.layer.as_str(),
        );
        proof {
            let m = traces[i as int];
            assert(m == segment_model(*s));
            let more = (node(m.from, m.layer), node(m.to, m.layer));
            assert(graph.joints() == joints.push(more));
            lemma_covers_more(joints, more);
            assert(trace_joins(traces, more.0, more.1));
            assert(copper(traces, all)(more.0, more.1));
            assert forall|e: int| 0 <= e < graph.joints().len() implies copper(traces, all)(
                (#[trigger] graph.joints()[e]).0,
                graph.joints()[e].1,
            ) by {
                if e < joints.len() {
                    assert(graph.joints()[e] == joints[e]);
                }
            }
        }
        i += 1;
    }
    let mut v: usize = 0;
    while v < vias.len()
        invariant
            v <= vias@.len(),
            traces.len() == segments@.len(),
            all == via_models(vias@),
            graph.well_formed(),
            sound(graph.joints(), traces, all),
            traces_covered(graph.joints(), traces, traces.len() as int),
            vias_covered(graph.joints(), all, v as int),
        decreases vias@.len() - v,
    {
        proof {
            assert(all[v as int] == via_model(vias@[v as int]));
        }
        join_via(&mut graph, &vias[v], Ghost(traces), Ghost(all), Ghost(v as int));
        v += 1;
    }
    graph
}

proof fn lemma_graph_takes_steps(graph: Copper, traces: Seq<SegmentModel>, vias: Seq<ViaModel>)
    requires
        graph.well_formed(),
        sound(graph.joints(), traces, vias),
        traces_covered(graph.joints(), traces, traces.len() as int),
        vias_covered(graph.joints(), vias, vias.len() as int),
    ensures
        takes_steps(edge_list(graph.edges@), places(graph.nodes@), copper(traces, vias)),
{
    let links = edge_list(graph.edges@);
    let at = places(graph.nodes@);
    let step = copper(traces, vias);
    let joints = graph.joints();
    lemma_copper_symmetric(traces, vias);
    assert forall|e: int| 0 <= e < links.len() implies 0 <= (#[trigger] links[e]).0 < at.len() && 0
        <= links[e].1 < at.len() && joints[e] == (at[links[e].0], at[links[e].1]) by {
        assert(links[e] == (graph.edges@[e].0 as int, graph.edges@[e].1 as int));
    }
    assert forall|e: int| 0 <= e < links.len() implies step(
        at[(#[trigger] links[e]).0],
        at[links[e].1],
    ) && step(at[links[e].1], at[links[e].0]) by {
        assert(joints[e] == (at[links[e].0], at[links[e].1]));
        assert(step(joints[e].0, joints[e].1));
    }
    assert forall|x: (int, int, Seq<char>), y: (int, int, Seq<char>)| #[trigger]
        step(x, y) implies exists|e: int|
        0 <= e < links.len() && ((at[(#[trigger] links[e]).0] == x && at[links[e].1] == y) || (
        at[links[e].1] == x && at[links[e].0] == y)) by {
        assert(covers(joints, x, y) || covers(joints, y, x)) by {
            if trace_joins(traces, x, y) {
                let i = choose|i: int|
                    0 <= i < traces.len() && ((node((#[trigger] traces[i]).from, traces[i].layer)
                        == x && node(traces[i].to, traces[i].layer) == y) || (node(
                        traces[i].from,
                        traces[i].layer,
                    ) == y && node(traces[i].to, traces[i].layer) == x));
                assert(covers(
                    joints,
                    node(traces[i].from, traces[i].layer),
                    node(traces[i].to, traces[i].layer),
                ));
            } else {
                let v = choose|i: int|
                    0 <= i < vias.len() && node((#[trigger] vias[i]).at, x.2) == x && node(
                        vias[i].at,
                        y.2,
                    ) == y && vias[i].layers.contains(x.2) && vias[i].layers.contains(y.2);
                let layers = vias[v].layers;
                let i = choose|i: int| 0 <= i < layers.len() && layers[i] == x.2;
                let j = choose|j: int| 0 <= j < layers.len() && layers[j] == y.2;
                assert(via_covered(joints, vias[v], layers.len() as int));
                lemma_before_total(x.2, y.2);
                if before(layers[i], layers[j]) {
                    assert(covers(joints, x, y));
                } else {
                    assert(before(layers[j], layers[i]));
                    assert(covers(joints, y, x));
                }
            }
        }
        let e = choose|e: int|
            0 <= e < joints.len() && (#[trigger] joints[e] == (x, y) || joints[e] == (y, x));
        assert(joints[e] == (at[links[e].0], at[links[e].1]));
    }
}

/// Whether a way leads from a place to some layer of a point.
fn reach(graph: &Copper, parts: &Groups, from: (i64, i64), layer: &str, to: (i64, i64), Ghost(
    traces,
): Ghost<Seq<SegmentModel>>, Ghost(vias): Ghost<Seq<ViaModel>>, Ghost(a): Ghost<(int, int)>, Ghost(
    b,
): Ghost<(int, int)>) -> (yes: bool)
    requires
        graph.well_formed(),
        takes_steps(edge_list(graph.edges@), places(graph.nodes@), copper(traces, vias)),
        are_groups(*parts, graph.nodes@.len() as int, edge_list(graph.edges@)),
        (from.0 as int, from.1 as int) == spot(a),
        (to.0 as int, to.1 as int) == spot(b),
    ensures
        yes == reaches(traces, vias, node(a, layer@), b),
{
    let ghost links = edge_list(graph.edges@);
    let ghost at = places(graph.nodes@);
    let ghost step = copper(traces, vias);
    let ghost start = node(a, layer@);
    let s: usize = match find_node(&graph.nodes, from, layer) {
        None => {
            proof {
                if has_copper(traces, vias, start) {
                    let c = choose|c: (int, int, Seq<char>)| #[trigger] copper(traces, vias)(
                        start,
                        c,
                    );
                    assert(step(start, c));
                    let e = choose|e: int|
                        0 <= e < links.len() && ((at[(#[trigger] links[e]).0] == start
                            && at[links[e].1] == c) || (at[links[e].1] == start && at[links[e].0]
                            == c));
                    assert(at[links[e].0] == start || at[links[e].1] == start);
                }
            }
            return false;
        },
        Some(s) => s,
    };
    proof {
        assert(has_edge(graph.edges@, s as int));
        let e = choose|e: int|
            0 <= e < graph.edges@.len() && ((#[trigger] graph.edges@[e]).0 == s
                || graph.edges@[e].1 == s);
        assert(links[e] == (graph.edges@[e].0 as int, graph.edges@[e].1 as int));
        assert(step(at[links[e].0], at[links[e].1]));
        assert(step(at[links[e].1], at[links[e].0]));
        assert(has_copper(traces, vias, start));
    }
    let mut n: usize = 0;
    while n < graph.nodes.len()
        invariant
            n <= graph.nodes@.len(),
            s < graph.nodes@.len(),
            at == places(graph.nodes@),
            links == edge_list(graph.edges@),
            step == copper(traces, vias),
            start == node(a, layer@),
            at[s as int] == start,
            has_copper(traces, vias, start),
            takes_steps(links, at, step),
            are_groups(*parts, graph.nodes@.len() as int, links),
            (to.0 as int, to.1 as int) == spot(b),
            forall|m: int|
                0 <= m < n ==> !(parts.label@[m] == parts.label@[s as int] && (
                    (#[trigger] at[m]).0,
                    at[m].1,
                ) == spot(b)),
        decreases graph.nodes@.len() - n,
    {
        proof {
            assert(at[n as int] == place_of(graph.nodes@[n as int]));
        }
        if parts.label[n] == parts.label[s] && graph.nodes[n].0 == to.0 && graph.nodes[n].1
            == to.1 {
            proof {
                assert(parts.label@[s as int] == parts.label@[n as int]);
                lemma_linked_nodes(links, at, step, s as int, n as int);
                assert(linked(step, start, at[n as int]));
            }
            return true;
        }
        n += 1;
    }
    proof {
        if reaches(traces, vias, start, b) {
            let q = choose|q: (int, int, Seq<char>)| #[trigger]
                linked(copper(traces, vias), start, q) && (q.0, q.1) == spot(b);
            let m = lemma_linked_is_node(links, at, step, s as int, q);
            assert(parts.label@[s as int] == parts.label@[m]);
            assert(at[m] == q);
        }
    }
    false
}

/// Where the first pad with a reference and a number is, from `from` on.
pub open spec fn pad_point(
    pads: Seq<PcbPad>,
    reference: Seq<char>,
    pad_num: Seq<char>,
    from: int,
) -> Option<(int, int)>
    decreases pads.len() - from,
{
    if from < 0 || from >= pads.len() {
        None
    } else if pads[from].reference@ == reference && pads[from].pad_num@ == pad_num {
        Some((pads[from].x as int, pads[from].y as int))
    } else {
        pad_point(pads, reference, pad_num, from + 1)
    }
}

fn find_pad(pads: &Vec<PcbPad>, reference: &str, pad_num: &str) -> (point: Option<(i64, i64)>)
    ensures
        point is Some == pad_point(pads@, reference@, pad_num@, 0) is Some,
        point matches Some(p) ==> pad_point(pads@, reference@, pad_num@, 0) == Some(
            (p.0 as int, p.1 as int),
        ),
{
    let mut i: usize = 0;
    while i < pads.len()
        invariant
            i <= pads@.len(),
            pad_point(pads@, reference@, pad_num@, 0) == pad_point(
                pads@,
                reference@,
                pad_num@,
                i as int,
            ),
        decreases pads@.len() - i,
    {
        if same_str(pads[i].reference.as_str(), reference) && same_str(
            pads[i].pad_num.as_str(),
            pad_num,
        ) {
            return Some((pads[i].x, pads[i].y));
        }
        i += 1;
    }
    None
}

/// What is said of a pad that is not on the board.
pub open spec fn no_pad(reference: Seq<char>, pad_num: Seq<char>) -> Seq<char> {
    "pad "@ + reference + "/"@ + pad_num + " not found"@
}

fn say_no_pad(reference: &str, pad_num: &str) -> (out: String)
    ensures
        out@ == no_pad(reference@, pad_num@),
{
    let mut out = to_chars("pad ");
    extend_str(&mut out, reference);
    extend_str(&mut out, "/");
    extend_str(&mut out, pad_num);
    extend_str(&mut out, " not found");
    to_text(out.as_slice())
}

/// Whether traces and vias lead from one pad to another.
pub fn check_pad_connectivity(
    pads: &Vec<PcbPad>,
    segments: &Vec<PcbSegment>,
    vias: &Vec<PcbVia>,
    ref_a: &str,
    pad_a: &str,
    ref_b: &str,
    pad_b: &str,
) -> (found: Result<bool, String>)
    ensures
        match (pad_point(pads@, ref_a@, pad_a@, 0), pad_point(pads@, ref_b@, pad_b@, 0)) {
            (None, _) => found is Err && found->Err_0@ == no_pad(ref_a@, pad_a@),
            (Some(_), None) => found is Err && found->Err_0@ == no_pad(ref_b@, pad_b@),
            (Some(a), Some(b)) => found == Ok::<bool, String>(
                connected(segment_models(segments@), via_models(vias@), a, b),
            ),
        },
{
    let a = match find_pad(pads, ref_a, pad_a) {
        None => {
            return Err(say_no_pad(ref_a, pad_a));
        },
        Some(p) => p,
    };
    let b = match find_pad(pads, ref_b, pad_b) {
        None => {
            return Err(say_no_pad(ref_b, pad_b));
        },
        Some(p) => p,
    };
    let ghost traces = segment_models(segments@);
    let ghost all = via_models(vias@);
    let ghost pa = (a.0 as int, a.1 as int);
    let ghost pb = (b.0 as int, b.1 as int);
    let graph = build(segments, vias);
    proof {
        assert(traces.len() == segments@.len());
        assert(all.len() == vias@.len());
        lemma_graph_takes_steps(graph, traces, all);
        assert(places(graph.nodes@).len() == graph.nodes@.len());
    }
    let parts = groups(graph.nodes.len(), &graph.edges);
    let from = point_key(a.0, a.1);
    let to = point_key(b.0, b.1);
    let front: bool = reach(
        &graph,
        &parts,
        from,
        "F.Cu",
        to,
        Ghost(traces),
        Ghost(all),
        Ghost(pa),
        Ghost(pb),
    );
    if front {
        return Ok(true);
    }
    let back: bool = reach(
        &graph,
        &parts,
        from,
        "B.Cu",
        to,
        Ghost(traces),
        Ghost(all),
        Ghost(pa),
        Ghost(pb),
    );
    Ok(back)
}

/// The pads between which a connection is asked for.
pub open spec fn between(
    ref_a: Seq<char>,
    pad_a: Seq<char>,
    ref_b: Seq<char>,
    pad_b: Seq<char>,
) -> Seq<char> {
    ref_a + "/"@ + pad_a + " ↔ "@ + ref_b + "/"@ + pad_b
}

/// What is said of a connection.
pub open spec fn connection_text(
    found: Result<bool, String>,
    pads: Seq<char>,
    segments: nat,
    vias: nat,
) -> Seq<char> {
    match found {
        Ok(true) => "CONNECTED: "@ + pads
            + " are electrically connected by existing traces/vias.\n(Segments checked: "@ + decimal(
            segments,
        ) + ", Vias checked: "@ + decimal(vias) + ")"@,
        Ok(false) => "DISCONNECTED: "@ + pads
            + " have no trace path between them.\nA ratsnest line exists — routing is incomplete.\n(Segments checked: "@
            + decimal(segments) + ", Vias checked: "@ + decimal(vias) + ")"@,
        Err(e) => "Error: "@ + e@,
    }
}

/// Says whether traces and vias lead from one pad to another.
pub fn verify_connectivity(
    pads: &Vec<PcbPad>,
    segments: &Vec<PcbSegment>,
    vias: &Vec<PcbVia>,
    ref_a: &str,
    pad_a: &str,
    ref_b: &str,
    pad_b: &str,
) -> (out: String)
    ensures
        ({
            let asked = between(ref_a@, pad_a@, ref_b@, pad_b@);
            match (pad_point(pads@, ref_a@, pad_a@, 0), pad_point(pads@, ref_b@, pad_b@, 0)) {
                (None, _) => out@ == "Error: "@ + no_pad(ref_a@, pad_a@),
                (Some(_), None) => out@ == "Error: "@ + no_pad(ref_b@, pad_b@),
                (Some(a), Some(b)) => out@ == connection_text(
                    Ok(connected(segment_models(segments@), via_models(vias@), a, b)),
                    asked,
                    segments@.len(),
                    vias@.len(),
                ),
            }
        }),
        (pad_point(pads@, ref_a@, pad_a@, 0), pad_point(pads@, ref_b@, pad_b@, 0)) matches (
            Some(a),
            Some(b),
        ) ==> ({
            let joined = connected(segment_models(segments@), via_models(vias@), a, b);
            &&& joined == (out@.len() >= 11 && out@.take(11) == "CONNECTED: "@)
            &&& !joined == (out@.len() >= 14 && out@.take(14) == "DISCONNECTED: "@)
        }),
{
    proof {
        reveal_strlit("CONNECTED: ");
        reveal_strlit("DISCONNECTED: ");
    }
    let mut asked = to_chars(ref_a);
    extend_str(&mut asked, "/");
    extend_str(&mut asked, pad_a);
    extend_str(&mut asked, " ↔ ");
    extend_str(&mut asked, ref_b);
    extend_str(&mut asked, "/");
    extend_str(&mut asked, pad_b);
    let mut out: Vec<char> = Vec::new();
    match check_pad_connectivity(pads, segments, vias, ref_a, pad_a, ref_b, pad_b) {
        Err(e) => {
            let mut said = to_chars("Error: ");
            extend_str(&mut said, e.as_str());
            return to_text(said.as_slice());
        },
        Ok(true) => {
            out = to_chars("CONNECTED: ");
            extend(&mut out, asked.as_slice());
            extend_str(
                &mut out,
                " are electrically connected by existing traces/vias.\n(Segments checked: ",
            );
        },
        Ok(false) => {
            out = to_chars("DISCONNECTED: ");
            extend(&mut out, asked.as_slice());
            extend_str(
                &mut out,
                " have no trace path between them.\nA ratsnest line exists — routing is incomplete.\n(Segments checked: ",
            );
        },
    }
    extend(&mut out, number(segments.len()).as_slice());
    extend_str(&mut out, ", Vias checked: ");
    extend(&mut out, number(vias.len()).as_slice());
    extend_str(&mut out, ")");
    proof {
        if out@[0] == 'C' {
            assert(out@.take(11) =~= "CONNECTED: "@);
            if out@.len() >= 14 {
                assert(out@.take(14)[0] == 'C');
            }
        } else {
            assert(out@.take(14) =~= "DISCONNECTED: "@);
            assert(out@.take(11)[0] == 'D');
        }
    }
    to_text(out.as_slice())
}

} // verus!
