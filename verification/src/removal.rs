//! What is removed from a board or a schematic, and why: the traces that are asked for,
//! the traces that lead to no pad, and the wires with a loose end.

use crate::cleanup::{
    along, is_live, lemma_touching_traces_live_together, lemma_trace_at_pad_is_live, orphans,
    runs_between, TraceModel,
};
use crate::fields::xy_nanometres;
use crate::graph::{linked, within};
use crate::sexpr::{quoted_after, top_level};
use crate::text::matches_at;
use crate::traces::{
    match_of, match_spans, matches_among, matching_traces, trace_matches, TraceFilter,
};
use crate::wires::{dangling, dangling_among, ends_at, is_held, marked, wires, WireModel};
use vstd::prelude::*;

verus! {

/// Whether a trace meets all that is asked for. The net of a trace without one is empty.
/// A trace is in a region if the rectangle round it is not wholly to one side of it.
pub open spec fn is_asked_for(block: Seq<char>, filter: TraceFilter) -> bool {
    &&& filter.net is None || quoted_after(block, "(net \""@) == Some(filter.net->0@) || (
    quoted_after(block, "(net \""@) is None && filter.net->0@.len() == 0)
    &&& filter.layer is None || quoted_after(block, "(layer \""@) == Some(filter.layer->0@)
    &&& filter.uuid is None || exists|i: int| #[trigger] matches_at(block, filter.uuid->0@, i) && 0
        <= i
    &&& filter.region is None || ({
        let r = filter.region->0;
        &&& xy_nanometres(block, "(start "@) matches Some(p)
        &&& xy_nanometres(block, "(end "@) matches Some(q)
        &&& !(p.0 > r.x_max && q.0 > r.x_max)
        &&& !(p.0 < r.x_min && q.0 < r.x_min)
        &&& !(p.1 > r.y_max && q.1 > r.y_max)
        &&& !(p.1 < r.y_min && q.1 < r.y_min)
    })
}

proof fn lemma_asked(block: Seq<char>, filter: TraceFilter)
    ensures
        trace_matches(block, filter) == is_asked_for(block, filter),
{
    if let Some(n) = filter.net {
        if quoted_after(block, "(net \""@) is None && n@.len() == 0 {
            assert(n@ =~= Seq::<char>::empty());
        }
        if let Some(v) = quoted_after(block, "(net \""@) {
            assert((v == n@) == (Some(v) == Some(n@)));
        }
    }
    if let Some(u) = filter.uuid {
        crate::text::lemma_find_is_first(block, u@, 0);
    }
}

proof fn lemma_found(text: Seq<char>, blocks: Seq<(int, int)>, filter: TraceFilter, span: (int, int))
    ensures
        match_spans(matches_among(text, blocks, filter)).contains(span) == (blocks.contains(span)
            && is_asked_for(text.subrange(span.0, span.1), filter)),
    decreases blocks.len(),
{
    if blocks.len() > 0 {
        let front = blocks.drop_last();
        let last = blocks[blocks.len() - 1];
        lemma_found(text, front, filter, span);
        lemma_asked(text.subrange(last.0, last.1), filter);
        let known = matches_among(text, front, filter);
        let now = matches_among(text, blocks, filter);
        let before = match_spans(known);
        let after = match_spans(now);
        if trace_matches(text.subrange(last.0, last.1), filter) {
            assert(after =~= before.push(last)) by {
                assert(now == known.push(match_of(text, last)));
            }
        }
        if after.contains(span) {
            let j = choose|j: int| 0 <= j < after.len() && after[j] == span;
            if j < before.len() {
                assert(before[j] == span);
                let i = choose|i: int| 0 <= i < front.len() && front[i] == span;
                assert(blocks[i] == span);
            } else {
                assert(blocks[blocks.len() - 1] == span);
            }
        }
        if blocks.contains(span) && is_asked_for(text.subrange(span.0, span.1), filter) {
            let i = choose|i: int| 0 <= i < blocks.len() && blocks[i] == span;
            if i < front.len() {
                assert(front[i] == span);
                assert(before.contains(span));
                let j = choose|j: int| 0 <= j < before.len() && before[j] == span;
                assert(after[j] == span);
            } else {
                assert(after[after.len() - 1] == span);
            }
        }
    } else {
        assert(match_spans(matches_among(text, blocks, filter)).len() == 0);
    }
}

/// What is deleted is just the traces that meet every condition that is given: a trace of
/// another net or layer, without the identifier or off to one side of the region, stays.
pub proof fn lemma_only_what_is_asked_for_goes(text: Seq<char>, filter: TraceFilter, span: (int, int))
    ensures
        match_spans(matching_traces(text, filter)).contains(span) == (top_level(
            text,
            "(segment"@,
            0,
        ).contains(span) && is_asked_for(text.subrange(span.0, span.1), filter)),
{
    lemma_found(text, top_level(text, "(segment"@, 0), filter, span);
}

/// Whether two traces share an end.
pub open spec fn touch(s: TraceModel, t: TraceModel) -> bool {
    s.a == t.a || s.a == t.b || s.b == t.a || s.b == t.b
}

/// Whether a pad is within two cells of a point, each way.
pub open spec fn at_pad(p: (int, int), pads: Seq<(int, int)>) -> bool {
    exists|i: int|
        0 <= i < pads.len() && -2 <= p.0 - (#[trigger] pads[i]).0 <= 2 && -2 <= p.1 - pads[i].1 <= 2
}

/// Whether traces are an island: none of them ends at a pad, and what touches one of them
/// belongs to them too.
pub open spec fn is_island(list: Seq<TraceModel>, pads: Seq<(int, int)>, island: Set<int>) -> bool {
    &&& forall|i: int|
        0 <= i < list.len() && #[trigger] island.contains(i) ==> !at_pad(list[i].a, pads) && !at_pad(
            list[i].b,
            pads,
        )
    &&& forall|i: int, j: int|
        0 <= i < list.len() && 0 <= j < list.len() && #[trigger] island.contains(i) && touch(
            #[trigger] list[i],
            #[trigger] list[j],
        ) ==> island.contains(j)
}

proof fn lemma_near(p: (int, int), pads: Seq<(int, int)>)
    ensures
        at_pad(p, pads) == crate::cleanup::near_pad(p, pads),
{
    if at_pad(p, pads) {
        let i = choose|i: int|
            0 <= i < pads.len() && -2 <= p.0 - (#[trigger] pads[i]).0 <= 2 && -2 <= p.1 - pads[i].1
                <= 2;
        assert(crate::cleanup::apart(p.0, pads[i].0) <= 2);
    }
    if crate::cleanup::near_pad(p, pads) {
        let i = choose|i: int|
            0 <= i < pads.len() && crate::cleanup::apart(p.0, (#[trigger] pads[i]).0) <= 2
                && crate::cleanup::apart(p.1, pads[i].1) <= 2;
        assert(-2 <= p.0 - pads[i].0 <= 2);
    }
}

proof fn lemma_stays_on_island(
    list: Seq<TraceModel>,
    pads: Seq<(int, int)>,
    island: Set<int>,
    i: int,
    q: (int, int),
    steps: nat,
) -> (j: int)
    requires
        is_island(list, pads, island),
        0 <= i < list.len(),
        island.contains(i),
        within(along(list), list[i].a, q, steps),
    ensures
        0 <= j < list.len(),
        island.contains(j),
        list[j].a == q || list[j].b == q,
    decreases steps,
{
    let step = along(list);
    if steps == 0 {
        i
    } else if within(step, list[i].a, q, (steps - 1) as nat) {
        lemma_stays_on_island(list, pads, island, i, q, (steps - 1) as nat)
    } else {
        let c = choose|c: (int, int)|
            within(step, list[i].a, c, (steps - 1) as nat) && #[trigger] step(c, q);
        let j = lemma_stays_on_island(list, pads, island, i, c, (steps - 1) as nat);
        assert(runs_between(list, c, q));
        let k = choose|k: int|
            0 <= k < list.len() && (((#[trigger] list[k]).a == c && list[k].b == q) || (list[k].a
                == q && list[k].b == c));
        assert(touch(list[j], list[k]));
        assert(island.contains(k));
        k
    }
}

/// A trace leads to no pad exactly if it belongs to an island.
pub proof fn lemma_orphan_is_on_an_island(list: Seq<TraceModel>, pads: Seq<(int, int)>, i: int)
    requires
        0 <= i < list.len(),
    ensures
        !is_live(list, pads, i) == exists|island: Set<int>| #[trigger]
            is_island(list, pads, island) && island.contains(i),
{
    if !is_live(list, pads, i) {
        let island = Set::new(|j: int| 0 <= j < list.len() && !is_live(list, pads, j));
        assert forall|j: int| 0 <= j < list.len() && #[trigger] island.contains(j) implies !at_pad(
            list[j].a,
            pads,
        ) && !at_pad(list[j].b, pads) by {
            lemma_near(list[j].a, pads);
            lemma_near(list[j].b, pads);
            if at_pad(list[j].a, pads) || at_pad(list[j].b, pads) {
                lemma_trace_at_pad_is_live(list, pads, j);
            }
        }
        assert forall|j: int, k: int|
            0 <= j < list.len() && 0 <= k < list.len() && #[trigger] island.contains(j) && touch(
                #[trigger] list[j],
                #[trigger] list[k],
            ) implies island.contains(k) by {
            lemma_touching_traces_live_together(list, pads, j, k);
        }
        assert(is_island(list, pads, island) && island.contains(i));
    }
    if exists|island: Set<int>| #[trigger] is_island(list, pads, island) && island.contains(i) {
        let island = choose|island: Set<int>| #[trigger]
            is_island(list, pads, island) && island.contains(i);
        if is_live(list, pads, i) {
            let step = along(list);
            let q = choose|q: (int, int)| #[trigger]
                linked(step, list[i].a, q) && crate::cleanup::near_pad(q, pads);
            let n = choose|n: nat| within(step, list[i].a, q, n);
            let j = lemma_stays_on_island(list, pads, island, i, q, n);
            lemma_near(q, pads);
            assert(at_pad(q, pads));
        }
    }
}

proof fn lemma_orphans(
    list: Seq<TraceModel>,
    pads: Seq<(int, int)>,
    layers: Option<Seq<Seq<char>>>,
    upto: int,
    t: TraceModel,
)
    requires
        0 <= upto <= list.len(),
    ensures
        orphans(list, pads, layers, upto).contains(t) == exists|i: int|
            0 <= i < upto && #[trigger] list[i] == t && !is_live(list, pads, i) && (layers is None
                || layers->0.contains(t.layer)),
    decreases upto,
{
    if upto > 0 {
        lemma_orphans(list, pads, layers, upto - 1, t);
        let before = orphans(list, pads, layers, upto - 1);
        let now = orphans(list, pads, layers, upto);
        if now.contains(t) {
            let j = choose|j: int| 0 <= j < now.len() && now[j] == t;
            if j < before.len() {
                assert(before[j] == t);
            } else {
                assert(list[upto - 1] == t);
            }
        }
        if exists|i: int|
            0 <= i < upto && #[trigger] list[i] == t && !is_live(list, pads, i) && (layers is None
                || layers->0.contains(t.layer)) {
            let i = choose|i: int|
                0 <= i < upto && #[trigger] list[i] == t && !is_live(list, pads, i) && (layers
                    is None || layers->0.contains(t.layer));
            if i < upto - 1 {
                assert(list[i] == t);
                assert(before.contains(t));
                let j = choose|j: int| 0 <= j < before.len() && before[j] == t;
                assert(now[j] == t);
            } else {
                assert(now[now.len() - 1] == t);
            }
        }
    }
}

/// The traces that are cleaned up are just those on an island, on the layers that are
/// named or, if none is, on any.
pub proof fn lemma_islands_are_cleaned_up(
    list: Seq<TraceModel>,
    pads: Seq<(int, int)>,
    layers: Option<Seq<Seq<char>>>,
    t: TraceModel,
)
    ensures
        orphans(list, pads, layers, list.len() as int).contains(t) == exists|i: int|
            0 <= i < list.len() && #[trigger] list[i] == t && (layers is None
                || layers->0.contains(t.layer)) && exists|island: Set<int>| #[trigger]
                is_island(list, pads, island) && island.contains(i),
{
    lemma_orphans(list, pads, layers, list.len() as int, t);
    assert forall|i: int| 0 <= i < list.len() implies (!is_live(list, pads, i) == exists|
        island: Set<int>,
    | #[trigger]
        is_island(list, pads, island) && island.contains(i)) by {
        lemma_orphan_is_on_an_island(list, pads, i);
    }
    if orphans(list, pads, layers, list.len() as int).contains(t) {
        let i = choose|i: int|
            0 <= i < list.len() && #[trigger] list[i] == t && !is_live(list, pads, i) && (layers
                is None || layers->0.contains(t.layer));
        assert(list[i] == t);
    }
    if exists|i: int|
        0 <= i < list.len() && #[trigger] list[i] == t && (layers is None || layers->0.contains(
            t.layer,
        )) && exists|island: Set<int>| #[trigger]
            is_island(list, pads, island) && island.contains(i) {
        let i = choose|i: int|
            0 <= i < list.len() && #[trigger] list[i] == t && (layers is None || layers->0.contains(
                t.layer,
            )) && exists|island: Set<int>| #[trigger]
                is_island(list, pads, island) && island.contains(i);
        assert(!is_live(list, pads, i));
    }
}

/// Whether an end of a wire is held: by a pin, by a mark, or by an end of another wire.
pub open spec fn holds(
    text: Seq<char>,
    pins: Seq<(int, int)>,
    list: Seq<WireModel>,
    i: int,
    k: (int, int),
) -> bool {
    ||| pins.contains(k)
    ||| marked(text, k)
    ||| list[i].a == list[i].b
    ||| exists|j: int| 0 <= j < list.len() && j != i && ((#[trigger] list[j]).a == k || list[j].b == k)
}

proof fn lemma_ends(list: Seq<WireModel>, k: (int, int))
    ensures
        (ends_at(list, k) > 0) == exists|j: int|
            0 <= j < list.len() && ((#[trigger] list[j]).a == k || list[j].b == k),
    decreases list.len(),
{
    if list.len() > 0 {
        let front = list.drop_last();
        lemma_ends(front, k);
        if ends_at(front, k) > 0 {
            let j = choose|j: int|
                0 <= j < front.len() && ((#[trigger] front[j]).a == k || front[j].b == k);
            assert(list[j] == front[j]);
        } else if ends_at(list, k) > 0 {
            assert(list[list.len() - 1].a == k || list[list.len() - 1].b == k);
        }
        if exists|j: int| 0 <= j < list.len() && ((#[trigger] list[j]).a == k || list[j].b == k) {
            let j = choose|j: int|
                0 <= j < list.len() && ((#[trigger] list[j]).a == k || list[j].b == k);
            if j < front.len() {
                assert(front[j] == list[j]);
            }
        }
    }
}

proof fn lemma_shared(list: Seq<WireModel>, i: int, k: (int, int))
    requires
        0 <= i < list.len(),
        list[i].a == k || list[i].b == k,
    ensures
        (ends_at(list, k) > 1) == (list[i].a == list[i].b || exists|j: int|
            0 <= j < list.len() && j != i && ((#[trigger] list[j]).a == k || list[j].b == k)),
    decreases list.len(),
{
    let front = list.drop_last();
    lemma_ends(front, k);
    let last = list[list.len() - 1];
    if i == list.len() - 1 {
        if ends_at(front, k) > 0 {
            let j = choose|j: int|
                0 <= j < front.len() && ((#[trigger] front[j]).a == k || front[j].b == k);
            assert(list[j] == front[j]);
        }
        if exists|j: int|
            0 <= j < list.len() && j != i && ((#[trigger] list[j]).a == k || list[j].b == k) {
            let j = choose|j: int|
                0 <= j < list.len() && j != i && ((#[trigger] list[j]).a == k || list[j].b == k);
            assert(front[j] == list[j]);
        }
    } else {
        assert(front[i] == list[i]);
        lemma_shared(front, i, k);
        if ends_at(front, k) > 1 && front[i].a != front[i].b {
            let j = choose|j: int|
                0 <= j < front.len() && j != i && ((#[trigger] front[j]).a == k || front[j].b == k);
            assert(list[j] == front[j]);
        }
        if last.a == k || last.b == k {
            assert(list[list.len() - 1].a == k || list[list.len() - 1].b == k);
        } else if exists|j: int|
            0 <= j < list.len() && j != i && ((#[trigger] list[j]).a == k || list[j].b == k) {
            let j = choose|j: int|
                0 <= j < list.len() && j != i && ((#[trigger] list[j]).a == k || list[j].b == k);
            assert(j < front.len());
            assert(front[j] == list[j]);
        }
    }
}

proof fn lemma_dangling(
    text: Seq<char>,
    pins: Seq<(int, int)>,
    list: Seq<WireModel>,
    span: (int, int),
)
    ensures
        dangling_among(text, pins, list).contains(span) == exists|i: int|
            0 <= i < list.len() && (#[trigger] list[i]).span == span && !(is_held(
                text,
                pins,
                list[i].a,
            ) && is_held(text, pins, list[i].b)),
    decreases list.len(),
{
    if list.len() > 0 {
        let front = list.drop_last();
        lemma_dangling(text, pins, front, span);
        let before = dangling_among(text, pins, front);
        let now = dangling_among(text, pins, list);
        if now.contains(span) {
            let j = choose|j: int| 0 <= j < now.len() && now[j] == span;
            if j < before.len() {
                assert(before[j] == span);
                let i = choose|i: int|
                    0 <= i < front.len() && (#[trigger] front[i]).span == span && !(is_held(
                        text,
                        pins,
                        front[i].a,
                    ) && is_held(text, pins, front[i].b));
                assert(list[i] == front[i]);
            } else {
                assert(list[list.len() - 1].span == span);
            }
        }
        if exists|i: int|
            0 <= i < list.len() && (#[trigger] list[i]).span == span && !(is_held(
                text,
                pins,
                list[i].a,
            ) && is_held(text, pins, list[i].b)) {
            let i = choose|i: int|
                0 <= i < list.len() && (#[trigger] list[i]).span == span && !(is_held(
                    text,
                    pins,
                    list[i].a,
                ) && is_held(text, pins, list[i].b));
            if i < front.len() {
                assert(front[i] == list[i]);
                assert(before.contains(span));
                let j = choose|j: int| 0 <= j < before.len() && before[j] == span;
                assert(now[j] == span);
            } else {
                assert(now[now.len() - 1] == span);
            }
        }
    }
}

/// The wires that are removed are just those with an end that touches no pin, no mark and
/// no end of another wire.
pub proof fn lemma_loose_wires_go(text: Seq<char>, pins: Seq<(int, int)>, span: (int, int))
    ensures
        dangling(text, pins).contains(span) == exists|i: int|
            0 <= i < wires(text).len() && (#[trigger] wires(text)[i]).span == span && !(holds(
                text,
                pins,
                wires(text),
                i,
                wires(text)[i].a,
            ) && holds(text, pins, wires(text), i, wires(text)[i].b)),
{
    let list = wires(text);
    lemma_dangling(text, pins, list, span);
    assert forall|i: int| 0 <= i < list.len() implies is_held(text, pins, (#[trigger] list[i]).a)
        == holds(text, pins, list, i, list[i].a) && is_held(text, pins, list[i].b) == holds(
        text,
        pins,
        list,
        i,
        list[i].b,
    ) by {
        lemma_shared(list, i, list[i].a);
        lemma_shared(list, i, list[i].b);
    }
    if dangling(text, pins).contains(span) {
        let i = choose|i: int|
            0 <= i < list.len() && (#[trigger] list[i]).span == span && !(is_held(
                text,
                pins,
                list[i].a,
            ) && is_held(text, pins, list[i].b));
        assert(wires(text)[i].span == span);
    }
}

} // verus!
