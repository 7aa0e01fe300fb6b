//! What it means that copper connects two pads: there is a way along traces and through
//! vias, and the answer says so.

use crate::cleanup::spot;
use crate::connect::{connected, connection_text, copper, node, pad_point, ViaModel};
use crate::graph::{
    lemma_linked_reflexive, lemma_linked_transitive, lemma_step_linked, linked, within,
};
use crate::pads::PcbPad;
use crate::traces::SegmentModel;
use vstd::prelude::*;

verus! {

/// A place on a layer, by its cells.
pub type Place = (int, int, Seq<char>);

/// Whether a trace has its ends at two places, on their layer.
pub open spec fn has_ends(s: SegmentModel, x: Place, y: Place) -> bool {
    &&& x.2 == s.layer
    &&& y.2 == s.layer
    &&& (spot(s.from) == (x.0, x.1) && spot(s.to) == (y.0, y.1)) || (spot(s.from) == (y.0, y.1)
        && spot(s.to) == (x.0, x.1))
}

/// Whether a via goes from one place to another, on two of its layers.
pub open spec fn goes_through(v: ViaModel, x: Place, y: Place) -> bool {
    &&& spot(v.at) == (x.0, x.1)
    &&& spot(v.at) == (y.0, y.1)
    &&& x.2 != y.2
    &&& v.layers.contains(x.2)
    &&& v.layers.contains(y.2)
}

/// Whether one trace or via leads from a place to another.
pub open spec fn is_step(traces: Seq<SegmentModel>, vias: Seq<ViaModel>, x: Place, y: Place) -> bool {
    ||| exists|i: int| 0 <= i < traces.len() && has_ends(#[trigger] traces[i], x, y)
    ||| exists|i: int| 0 <= i < vias.len() && goes_through(#[trigger] vias[i], x, y)
}

/// Whether each place of a way is one step from the next.
pub open spec fn is_way(traces: Seq<SegmentModel>, vias: Seq<ViaModel>, way: Seq<Place>) -> bool {
    forall|k: int|
        0 <= k < way.len() - 1 ==> is_step(traces, vias, #[trigger] way[k], way[k + 1])
}

/// Whether a way leads from a point on an outer layer to another point, starting on
/// copper.
pub open spec fn leads(
    traces: Seq<SegmentModel>,
    vias: Seq<ViaModel>,
    way: Seq<Place>,
    from: (int, int),
    to: (int, int),
) -> bool {
    &&& way.len() > 0
    &&& is_way(traces, vias, way)
    &&& (way[0].0, way[0].1) == spot(from)
    &&& way[0].2 == "F.Cu"@ || way[0].2 == "B.Cu"@
    &&& (way.last().0, way.last().1) == spot(to)
    &&& exists|y: Place| #[trigger] is_step(traces, vias, way[0], y)
}

proof fn lemma_step_is_copper(traces: Seq<SegmentModel>, vias: Seq<ViaModel>, x: Place, y: Place)
    ensures
        is_step(traces, vias, x, y) == copper(traces, vias)(x, y),
{
    if is_step(traces, vias, x, y) {
        if exists|i: int| 0 <= i < traces.len() && has_ends(#[trigger] traces[i], x, y) {
            let i = choose|i: int| 0 <= i < traces.len() && has_ends(#[trigger] traces[i], x, y);
            let l = traces[i].layer;
            assert(node(traces[i].from, l) == x || node(traces[i].from, l) == y);
            assert(crate::connect::trace_joins(traces, x, y));
        } else {
            let i = choose|i: int| 0 <= i < vias.len() && goes_through(#[trigger] vias[i], x, y);
            assert(node(vias[i].at, x.2) == x);
            assert(node(vias[i].at, y.2) == y);
            assert(crate::connect::via_joins(vias, x, y));
        }
    }
    if copper(traces, vias)(x, y) {
        if crate::connect::trace_joins(traces, x, y) {
            let i = choose|i: int|
                0 <= i < traces.len() && ((node((#[trigger] traces[i]).from, traces[i].layer) == x
                    && node(traces[i].to, traces[i].layer) == y) || (node(
                    traces[i].from,
                    traces[i].layer,
                ) == y && node(traces[i].to, traces[i].layer) == x));
            assert(has_ends(traces[i], x, y));
        } else {
            let i = choose|i: int|
                0 <= i < vias.len() && node((#[trigger] vias[i]).at, x.2) == x && node(
                    vias[i].at,
                    y.2,
                ) == y && vias[i].layers.contains(x.2) && vias[i].layers.contains(y.2);
            assert(goes_through(vias[i], x, y));
        }
    }
}

proof fn lemma_way_of(
    traces: Seq<SegmentModel>,
    vias: Seq<ViaModel>,
    a: Place,
    b: Place,
    steps: nat,
) -> (way: Seq<Place>)
    requires
        within(copper(traces, vias), a, b, steps),
    ensures
        way.len() > 0,
        way[0] == a,
        way.last() == b,
        is_way(traces, vias, way),
    decreases steps,
{
    let step = copper(traces, vias);
    if steps == 0 {
        seq![a]
    } else if within(step, a, b, (steps - 1) as nat) {
        lemma_way_of(traces, vias, a, b, (steps - 1) as nat)
    } else {
        let c = choose|c: Place| within(step, a, c, (steps - 1) as nat) && #[trigger] step(c, b);
        let front = lemma_way_of(traces, vias, a, c, (steps - 1) as nat);
        let way = front.push(b);
        lemma_step_is_copper(traces, vias, c, b);
        assert forall|k: int| 0 <= k < way.len() - 1 implies is_step(
            traces,
            vias,
            #[trigger] way[k],
            way[k + 1],
        ) by {
            if k < front.len() - 1 {
                assert(is_step(traces, vias, front[k], front[k + 1]));
            }
        }
        way
    }
}

proof fn lemma_way_links(traces: Seq<SegmentModel>, vias: Seq<ViaModel>, way: Seq<Place>, k: int)
    requires
        is_way(traces, vias, way),
        0 <= k < way.len(),
    ensures
        linked(copper(traces, vias), way[0], way[k]),
    decreases k,
{
    let step = copper(traces, vias);
    if k == 0 {
        lemma_linked_reflexive(step, way[0]);
    } else {
        lemma_way_links(traces, vias, way, k - 1);
        assert(is_step(traces, vias, way[k - 1], way[k - 1 + 1]));
        lemma_step_is_copper(traces, vias, way[k - 1], way[k]);
        lemma_step_linked(step, way[k - 1], way[k]);
        lemma_linked_transitive(step, way[0], way[k - 1], way[k]);
    }
}

/// Two points are connected exactly if there is a way from the one, on an outer layer,
/// to the other: each of its steps goes along a trace from end to end, on the layer of
/// the trace, or through a via from one of its layers to another.
pub proof fn lemma_connected_by_a_way(
    traces: Seq<SegmentModel>,
    vias: Seq<ViaModel>,
    from: (int, int),
    to: (int, int),
)
    ensures
        connected(traces, vias, from, to) == exists|way: Seq<Place>| #[trigger]
            leads(traces, vias, way, from, to),
{
    let step = copper(traces, vias);
    if connected(traces, vias, from, to) {
        let start = if crate::connect::reaches(traces, vias, node(from, "F.Cu"@), to) {
            node(from, "F.Cu"@)
        } else {
            node(from, "B.Cu"@)
        };
        assert(crate::connect::reaches(traces, vias, start, to));
        let end = choose|q: Place| #[trigger] linked(step, start, q) && (q.0, q.1) == spot(to);
        let n = choose|n: nat| within(step, start, end, n);
        let way = lemma_way_of(traces, vias, start, end, n);
        let y = choose|y: Place| #[trigger] copper(traces, vias)(start, y);
        lemma_step_is_copper(traces, vias, start, y);
        assert(leads(traces, vias, way, from, to));
    }
    if exists|way: Seq<Place>| #[trigger] leads(traces, vias, way, from, to) {
        let way = choose|way: Seq<Place>| #[trigger] leads(traces, vias, way, from, to);
        lemma_way_links(traces, vias, way, way.len() - 1);
        let y = choose|y: Place| #[trigger] is_step(traces, vias, way[0], y);
        lemma_step_is_copper(traces, vias, way[0], y);
        assert(way[0] == node(from, way[0].2));
        assert(linked(step, way[0], way.last()));
        assert(crate::connect::reaches(traces, vias, way[0], to));
    }
}

/// A trace on an outer layer connects its ends, and more copper never parts what is
/// connected.
pub proof fn lemma_trace_connects(
    traces: Seq<SegmentModel>,
    vias: Seq<ViaModel>,
    i: int,
    more: SegmentModel,
    via: ViaModel,
    from: (int, int),
    to: (int, int),
)
    requires
        0 <= i < traces.len(),
        traces[i].layer == "F.Cu"@ || traces[i].layer == "B.Cu"@,
    ensures
        connected(traces, vias, traces[i].from, traces[i].to),
        connected(traces, vias, traces[i].to, traces[i].from),
        connected(traces, vias, from, to) ==> connected(traces.push(more), vias.push(via), from, to),
{
    let s = traces[i];
    let x = node(s.from, s.layer);
    let y = node(s.to, s.layer);
    assert(has_ends(traces[i], x, y));
    assert(has_ends(traces[i], y, x));
    assert(is_step(traces, vias, x, y));
    assert(is_step(traces, vias, y, x));
    let there = seq![x, y];
    let back = seq![y, x];
    assert(leads(traces, vias, there, s.from, s.to));
    assert(leads(traces, vias, back, s.to, s.from));
    lemma_connected_by_a_way(traces, vias, s.from, s.to);
    lemma_connected_by_a_way(traces, vias, s.to, s.from);
    if connected(traces, vias, from, to) {
        lemma_connected_by_a_way(traces, vias, from, to);
        let way = choose|way: Seq<Place>| #[trigger] leads(traces, vias, way, from, to);
        let longer = traces.push(more);
        let wider = vias.push(via);
        assert forall|p: Place, q: Place| #[trigger] is_step(traces, vias, p, q) implies is_step(
            longer,
            wider,
            p,
            q,
        ) by {
            if exists|j: int| 0 <= j < traces.len() && has_ends(#[trigger] traces[j], p, q) {
                let j = choose|j: int| 0 <= j < traces.len() && has_ends(#[trigger] traces[j], p, q);
                assert(longer[j] == traces[j]);
            } else {
                let j = choose|j: int| 0 <= j < vias.len() && goes_through(#[trigger] vias[j], p, q);
                assert(wider[j] == vias[j]);
            }
        }
        assert(leads(longer, wider, way, from, to)) by {
            assert forall|k: int| 0 <= k < way.len() - 1 implies is_step(
                longer,
                wider,
                #[trigger] way[k],
                way[k + 1],
            ) by {
                assert(is_step(traces, vias, way[k], way[k + 1]));
            }
            let q = choose|q: Place| #[trigger] is_step(traces, vias, way[0], q);
            assert(is_step(longer, wider, way[0], q));
        }
        lemma_connected_by_a_way(longer, wider, from, to);
    }
}

/// Without a trace that ends at a point and without a via there, nothing is connected
/// to it.
pub proof fn lemma_bare_point_is_unconnected(
    traces: Seq<SegmentModel>,
    vias: Seq<ViaModel>,
    from: (int, int),
    to: (int, int),
)
    requires
        forall|i: int|
            0 <= i < traces.len() ==> spot((#[trigger] traces[i]).from) != spot(from) && spot(
                traces[i].to,
            ) != spot(from),
        forall|i: int| 0 <= i < vias.len() ==> spot((#[trigger] vias[i]).at) != spot(from),
    ensures
        !connected(traces, vias, from, to),
{
    lemma_connected_by_a_way(traces, vias, from, to);
    if connected(traces, vias, from, to) {
        let way = choose|way: Seq<Place>| #[trigger] leads(traces, vias, way, from, to);
        let y = choose|y: Place| #[trigger] is_step(traces, vias, way[0], y);
        if exists|i: int| 0 <= i < traces.len() && has_ends(#[trigger] traces[i], way[0], y) {
            let i = choose|i: int| 0 <= i < traces.len() && has_ends(#[trigger] traces[i], way[0], y);
            assert(spot(traces[i].from) != spot(from));
        } else {
            let i = choose|i: int|
                0 <= i < vias.len() && goes_through(#[trigger] vias[i], way[0], y);
            assert(spot(vias[i].at) != spot(from));
        }
    }
}

/// The answer starts with `CONNECTED: ` exactly if the pads are connected, with
/// `DISCONNECTED: ` exactly if they are not, and with `Error: ` exactly if they could
/// not be looked at; and it names the pads that were asked for.
pub proof fn lemma_answer_is_true(
    found: Result<bool, String>,
    pads: Seq<char>,
    segments: nat,
    vias: nat,
)
    ensures
        ({
            let text = connection_text(found, pads, segments, vias);
            let starts = |mark: Seq<char>|
                text.len() >= mark.len() && text.take(mark.len() as int) == mark;
            &&& starts("CONNECTED: "@) == (found == Ok::<bool, String>(true))
            &&& starts("DISCONNECTED: "@) == (found == Ok::<bool, String>(false))
            &&& starts("Error: "@) == (found is Err)
            &&& found == Ok::<bool, String>(true) ==> starts("CONNECTED: "@ + pads)
            &&& found == Ok::<bool, String>(false) ==> starts("DISCONNECTED: "@ + pads)
        }),
{
    reveal_strlit("CONNECTED: ");
    reveal_strlit("DISCONNECTED: ");
    reveal_strlit("Error: ");
    let text = connection_text(found, pads, segments, vias);
    match found {
        Ok(true) => {
            assert(text.take(11) =~= "CONNECTED: "@);
            assert(text.take(("CONNECTED: "@ + pads).len() as int) =~= "CONNECTED: "@ + pads);
            assert(text[0] == 'C');
            if text.len() >= 14 && text.take(14) == "DISCONNECTED: "@ {
                assert(text.take(14)[0] == 'D');
            }
            if text.take(7) == "Error: "@ {
                assert(text.take(7)[0] == 'E');
            }
        },
        Ok(false) => {
            assert(text.take(14) =~= "DISCONNECTED: "@);
            assert(text.take(("DISCONNECTED: "@ + pads).len() as int) =~= "DISCONNECTED: "@ + pads);
            assert(text[0] == 'D');
            if text.take(11) == "CONNECTED: "@ {
                assert(text.take(11)[0] == 'C');
            }
            if text.take(7) == "Error: "@ {
                assert(text.take(7)[0] == 'E');
            }
        },
        Err(_) => {
            assert(text.take(7) =~= "Error: "@);
            assert(text[0] == 'E');
            if text.len() >= 11 && text.take(11) == "CONNECTED: "@ {
                assert(text.take(11)[0] == 'C');
            }
            if text.len() >= 14 && text.take(14) == "DISCONNECTED: "@ {
                assert(text.take(14)[0] == 'D');
            }
        },
    }
}

/// The pad that is looked at is the first with the reference and the number that are
/// asked for, and none is found only if there is none.
pub proof fn lemma_pad_is_the_one(
    pads: Seq<PcbPad>,
    reference: Seq<char>,
    number: Seq<char>,
    from: int,
)
    requires
        0 <= from,
    ensures
        match pad_point(pads, reference, number, from) {
            Some(p) => exists|i: int|
                from <= i < pads.len() && (#[trigger] pads[i]).reference@ == reference
                    && pads[i].pad_num@ == number && p == (pads[i].x as int, pads[i].y as int)
                    && forall|j: int|
                    from <= j < i ==> !((#[trigger] pads[j]).reference@ == reference
                        && pads[j].pad_num@ == number),
            None => forall|i: int|
                from <= i < pads.len() ==> !((#[trigger] pads[i]).reference@ == reference
                    && pads[i].pad_num@ == number),
        },
    decreases pads.len() - from,
{
    if from < pads.len() {
        if pads[from].reference@ == reference && pads[from].pad_num@ == number {
            assert(pads[from].reference@ == reference);
        } else {
            lemma_pad_is_the_one(pads, reference, number, from + 1);
            if let Some(p) = pad_point(pads, reference, number, from + 1) {
                let i = choose|i: int|
                    from + 1 <= i < pads.len() && (#[trigger] pads[i]).reference@ == reference
                        && pads[i].pad_num@ == number && p == (pads[i].x as int, pads[i].y as int)
                        && forall|j: int|
                        from + 1 <= j < i ==> !((#[trigger] pads[j]).reference@ == reference
                            && pads[j].pad_num@ == number);
                assert(pads[i].reference@ == reference);
            }
        }
    }
}

} // verus!
