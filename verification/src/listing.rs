//! What lists of pads, nets, traces, lines and parts hold: all that is asked for, in order,
//! and nothing else.

use crate::clearance::{
    given_points, pad_in_region, pad_names, pad_row, pad_rows, pad_sizes, pads_report, trace_in_region,
    trace_row, trace_rows, traces_report,
};
use crate::distance::point;
use crate::pads::{dashes, net_line, net_names, pads_on, PcbPad, RawPadModel};
use crate::strings::{decimal, joined, left, right, strings};
use crate::traces::SegmentModel;
use crate::units::thousandths;
use vstd::prelude::*;

verus! {

/// Whether places are, in order, all those below a bound where something holds.
pub open spec fn picks(at: Seq<int>, n: int, p: spec_fn(int) -> bool) -> bool {
    &&& forall|k: int| 0 <= k < at.len() ==> 0 <= #[trigger] at[k] < n && p(at[k])
    &&& forall|j: int, k: int| 0 <= j < k < at.len() ==> at[j] < at[k]
    &&& forall|i: int| 0 <= i < n && p(i) ==> #[trigger] at.contains(i)
}

/// What is picked one further on.
pub open spec fn picked_next(at: Seq<int>, n: int, p: spec_fn(int) -> bool) -> Seq<int> {
    if p(n) {
        at.push(n)
    } else {
        at
    }
}

pub proof fn lemma_picked_next(at: Seq<int>, n: int, p: spec_fn(int) -> bool, q: spec_fn(int) -> bool)
    requires
        picks(at, n, p),
        0 <= n,
        forall|i: int| 0 <= i < n ==> #[trigger] q(i) == p(i),
    ensures
        picks(picked_next(at, n, q), n + 1, q),
{
    let more = picked_next(at, n, q);
    assert forall|i: int| 0 <= i < n + 1 && q(i) implies #[trigger] more.contains(i) by {
        if i < n {
            assert(at.contains(i));
            let k = choose|k: int| 0 <= k < at.len() && at[k] == i;
            assert(more[k] == i);
        } else {
            assert(more[at.len() as int] == i);
        }
    }
}

/// The pads that are on a net.
pub open spec fn is_on_net(pads: Seq<RawPadModel>, net: Seq<char>) -> spec_fn(int) -> bool {
    |i: int| pads[i].net == net
}

/// The pads listed for a net are all those on it, in their order, each by its part and its
/// number.
pub proof fn lemma_net_lists_its_pads(pads: Seq<RawPadModel>, net: Seq<char>) -> (at: Seq<int>)
    ensures
        picks(at, pads.len() as int, is_on_net(pads, net)),
        pads_on(pads, net).len() == at.len(),
        forall|k: int|
            0 <= k < at.len() ==> #[trigger] pads_on(pads, net)[k] == pads[at[k]].reference + "/"@
                + pads[at[k]].pad_num,
    decreases pads.len(),
{
    if pads.len() == 0 {
        Seq::empty()
    } else {
        let front = pads.drop_last();
        let at = lemma_net_lists_its_pads(front, net);
        let n = pads.len() - 1;
        lemma_picked_next(at, n, is_on_net(front, net), is_on_net(pads, net));
        let more = picked_next(at, n, is_on_net(pads, net));
        assert forall|k: int| 0 <= k < more.len() implies #[trigger] pads_on(pads, net)[k]
            == pads[more[k]].reference + "/"@ + pads[more[k]].pad_num by {
            if k < at.len() {
                assert(pads_on(pads, net)[k] == pads_on(front, net)[k]);
                assert(front[at[k]] == pads[at[k]]);
            }
        }
        more
    }
}

/// A board has the nets that its pads are on, and each is listed once.
pub proof fn lemma_nets_are_those_of_pads(pads: Seq<RawPadModel>)
    ensures
        net_names(pads).no_duplicates(),
        forall|i: int| 0 <= i < pads.len() ==> net_names(pads).contains(#[trigger] pads[i].net),
        forall|k: int|
            0 <= k < net_names(pads).len() ==> exists|i: int|
                0 <= i < pads.len() && pads[i].net == #[trigger] net_names(pads)[k],
    decreases pads.len(),
{
    if pads.len() > 0 {
        let front = pads.drop_last();
        let known = net_names(front);
        let all = net_names(pads);
        lemma_nets_are_those_of_pads(front);
        assert forall|i: int| 0 <= i < pads.len() implies all.contains(#[trigger] pads[i].net) by {
            if i < front.len() {
                assert(front[i] == pads[i]);
                assert(known.contains(front[i].net));
                let k = choose|k: int| 0 <= k < known.len() && known[k] == front[i].net;
                assert(all[k] == pads[i].net);
            } else if !known.contains(pads[i].net) {
                assert(all[known.len() as int] == pads[i].net);
            }
        }
        assert forall|k: int| 0 <= k < all.len() implies exists|i: int|
            0 <= i < pads.len() && pads[i].net == #[trigger] all[k] by {
            if k < known.len() {
                assert(all[k] == known[k]);
                let i = choose|i: int| 0 <= i < front.len() && front[i].net == known[k];
                assert(pads[i].net == all[k]);
            } else {
                assert(pads[pads.len() - 1].net == all[k]);
            }
        }
    }
}

/// Whether a number lies between two others, in whichever order they stand.
pub open spec fn between(n: int, a: int, b: int) -> bool {
    a <= n <= b || b <= n <= a
}

/// Whether a pad is asked for: its middle lies between the corners, and it has the layer or
/// all copper layers.
pub open spec fn is_pad_asked_for(
    pad: PcbPad,
    a: (int, int),
    b: (int, int),
    layer: Option<&str>,
) -> bool {
    &&& between(pad.x as int, a.0, b.0)
    &&& between(pad.y as int, a.1, b.1)
    &&& layer matches Some(l) ==> exists|k: int|
        0 <= k < pad.layers@.len() && (#[trigger] pad.layers@[k]@ == l@ || pad.layers@[k]@ == "*.Cu"@)
}

pub open spec fn pads_asked_for(
    pads: Seq<PcbPad>,
    a: (int, int),
    b: (int, int),
    layer: Option<&str>,
) -> spec_fn(int) -> bool {
    |i: int| is_pad_asked_for(pads[i], a, b, layer)
}

proof fn lemma_pad_in_region(pad: PcbPad, a: (int, int), b: (int, int), layer: Option<&str>)
    ensures
        pad_in_region(pad, a, b, layer) == is_pad_asked_for(pad, a, b, layer),
{
    if let Some(l) = layer {
        let names = strings(pad.layers@);
        if names.contains(l@) {
            let k = choose|k: int| 0 <= k < names.len() && names[k] == l@;
            assert(pad.layers@[k]@ == l@);
        }
        if names.contains("*.Cu"@) {
            let k = choose|k: int| 0 <= k < names.len() && names[k] == "*.Cu"@;
            assert(pad.layers@[k]@ == "*.Cu"@);
        }
        assert forall|k: int|
            0 <= k < pad.layers@.len() && (#[trigger] pad.layers@[k]@ == l@ || pad.layers@[k]@
                == "*.Cu"@) implies names.contains(l@) || names.contains("*.Cu"@) by {
            assert(names[k] == pad.layers@[k]@);
        }
    }
}

/// The pads listed for a region are all those asked for, in their order, one line each.
pub proof fn lemma_region_lists_its_pads(
    pads: Seq<PcbPad>,
    a: (int, int),
    b: (int, int),
    layer: Option<&str>,
) -> (at: Seq<int>)
    ensures
        picks(at, pads.len() as int, pads_asked_for(pads, a, b, layer)),
        pad_rows(pads, a, b, layer).1 == at.len(),
        pad_rows(pads, a, b, layer).0 == at.map_values(|i: int| pad_row(pads[i])).flatten_alt(),
    decreases pads.len(),
{
    if pads.len() == 0 {
        let at = Seq::<int>::empty();
        assert(at.map_values(|i: int| pad_row(pads[i])).flatten_alt() =~= Seq::<char>::empty());
        at
    } else {
        let front = pads.drop_last();
        let at = lemma_region_lists_its_pads(front, a, b, layer);
        let n = pads.len() - 1;
        let p = pads_asked_for(pads, a, b, layer);
        lemma_pad_in_region(pads.last(), a, b, layer);
        lemma_picked_next(at, n, pads_asked_for(front, a, b, layer), p);
        let more = picked_next(at, n, p);
        let old = at.map_values(|i: int| pad_row(front[i]));
        let new = more.map_values(|i: int| pad_row(pads[i]));
        assert forall|k: int| 0 <= k < at.len() implies old[k] == new[k] by {
            assert(front[at[k]] == pads[at[k]]);
        }
        if p(n) {
            assert(new.drop_last() =~= old);
            assert(new.last() == pad_row(pads.last()));
        } else {
            assert(new =~= old);
        }
        more
    }
}

/// Whether what lies between two numbers meets what lies between two others.
pub open spec fn meet(u: int, v: int, a: int, b: int) -> bool {
    exists|n: int| #[trigger] between(n, u, v) && between(n, a, b)
}

proof fn lemma_meet(u: int, v: int, a: int, b: int)
    ensures
        meet(u, v, a, b) == !((u < a && v < a && u < b && v < b) || (u > a && v > a && u > b && v
            > b)),
{
    let low = if u < v {
        u
    } else {
        v
    };
    let high = if u < v {
        v
    } else {
        u
    };
    let n = if between(a, u, v) {
        a
    } else if between(b, u, v) {
        b
    } else {
        low
    };
    assert(between(n, u, v));
    if (u < a && v < a && u < b && v < b) || (u > a && v > a && u > b && v > b) {
        assert(forall|m: int| #[trigger] between(m, u, v) ==> !between(m, a, b));
    } else {
        assert(between(n, a, b));
    }
}

/// Whether a trace is asked for: the rectangle that its ends span meets the one that the
/// corners span, and it has the layer and the net.
pub open spec fn is_trace_asked_for(
    s: SegmentModel,
    a: (i64, i64),
    b: (i64, i64),
    layer: Option<&str>,
    net: Option<&str>,
) -> bool {
    &&& meet(s.from.0, s.to.0, a.0 as int, b.0 as int)
    &&& meet(s.from.1, s.to.1, a.1 as int, b.1 as int)
    &&& layer matches Some(l) ==> s.layer == l@
    &&& net matches Some(n) ==> s.net == n@
}

pub open spec fn traces_asked_for(
    list: Seq<SegmentModel>,
    a: (i64, i64),
    b: (i64, i64),
    layer: Option<&str>,
    net: Option<&str>,
) -> spec_fn(int) -> bool {
    |i: int| is_trace_asked_for(list[i], a, b, layer, net)
}

/// The traces listed for a region are all those asked for, in their order, one line each.
pub proof fn lemma_region_lists_its_traces(
    list: Seq<SegmentModel>,
    a: (i64, i64),
    b: (i64, i64),
    layer: Option<&str>,
    net: Option<&str>,
) -> (at: Seq<int>)
    ensures
        picks(at, list.len() as int, traces_asked_for(list, a, b, layer, net)),
        trace_rows(list, a, b, layer, net).1 == at.len(),
        trace_rows(list, a, b, layer, net).0 == at.map_values(
            |i: int| trace_row(list[i]),
        ).flatten_alt(),
    decreases list.len(),
{
    if list.len() == 0 {
        let at = Seq::<int>::empty();
        assert(at.map_values(|i: int| trace_row(list[i])).flatten_alt() =~= Seq::<char>::empty());
        at
    } else {
        let front = list.drop_last();
        let at = lemma_region_lists_its_traces(front, a, b, layer, net);
        let n = list.len() - 1;
        let p = traces_asked_for(list, a, b, layer, net);
        let s = list.last();
        lemma_meet(s.from.0, s.to.0, a.0 as int, b.0 as int);
        lemma_meet(s.from.1, s.to.1, a.1 as int, b.1 as int);
        assert(trace_in_region(s, a, b, layer, net) == is_trace_asked_for(s, a, b, layer, net));
        lemma_picked_next(at, n, traces_asked_for(front, a, b, layer, net), p);
        let more = picked_next(at, n, p);
        let old = at.map_values(|i: int| trace_row(front[i]));
        let new = more.map_values(|i: int| trace_row(list[i]));
        assert forall|k: int| 0 <= k < at.len() implies old[k] == new[k] by {
            assert(front[at[k]] == list[at[k]]);
        }
        if p(n) {
            assert(new.drop_last() =~= old);
            assert(new.last() == trace_row(list.last()));
        } else {
            assert(new =~= old);
        }
        more
    }
}

/// Whether a text stands at a place in another.
pub open spec fn stands(text: Seq<char>, at: int, part: Seq<char>) -> bool {
    0 <= at && at + part.len() <= text.len() && text.subrange(at, at + part.len()) == part
}

proof fn lemma_stands_in_front(a: Seq<char>, b: Seq<char>, at: int, part: Seq<char>)
    requires
        stands(a, at, part),
    ensures
        stands(a + b, at, part),
{
    assert((a + b).subrange(at, at + part.len()) =~= a.subrange(at, at + part.len()));
}

proof fn lemma_stands_behind(a: Seq<char>, b: Seq<char>, at: int, part: Seq<char>)
    requires
        stands(b, at, part),
    ensures
        stands(a + b, a.len() + at, part),
{
    assert((a + b).subrange(a.len() + at, a.len() + at + part.len()) =~= b.subrange(
        at,
        at + part.len(),
    ));
}

/// What stands in the left and in the right of a column.
proof fn lemma_column(a: Seq<char>, part: Seq<char>, width: int)
    requires
        part.len() <= width,
    ensures
        stands(a + left(part, width), a.len() as int, part),
        (a + left(part, width)).len() == a.len() + width,
        stands(a + right(part, width), a.len() + width - part.len(), part),
        (a + right(part, width)).len() == a.len() + width,
{
    assert(left(part, width).len() == width);
    assert(right(part, width).len() == width);
    assert(left(part, width).subrange(0, part.len() as int) =~= part);
    assert(right(part, width).subrange(width - part.len(), width) =~= part);
    lemma_stands_behind(a, left(part, width), 0, part);
    lemma_stands_behind(a, right(part, width), width - part.len(), part);
}

/// The line of a pad gives the pad under the heads of the columns: `Ref` from the left
/// edge, `Pad`, `Net`, then X, Y, the width and the height in millimetres up to the ends of
/// their columns, and how it is mounted.
#[verifier::rlimit(40)]
pub proof fn lemma_pad_row_is_in_columns(pad: PcbPad)
    requires
        pad.reference@.len() <= 10,
        pad.pad_num@.len() <= 6,
        pad.net@.len() <= 35,
        thousandths(pad.x as int).len() <= 8,
        thousandths(pad.y as int).len() <= 8,
        thousandths(pad.width as int).len() <= 6,
        thousandths(pad.height as int).len() <= 6,
    ensures
        stands(pad_row(pad), 0, pad.reference@),
        stands(pad_row(pad), 11, pad.pad_num@),
        stands(pad_row(pad), 18, pad.net@),
        stands(pad_row(pad), 62 - thousandths(pad.x as int).len(), thousandths(pad.x as int)),
        stands(pad_row(pad), 71 - thousandths(pad.y as int).len(), thousandths(pad.y as int)),
        stands(pad_row(pad), 78 - thousandths(pad.width as int).len(), thousandths(pad.width as int)),
        stands(
            pad_row(pad),
            85 - thousandths(pad.height as int).len(),
            thousandths(pad.height as int),
        ),
        stands(pad_row(pad), 87, "THT"@) == pad.is_thru_hole,
        stands(pad_row(pad), 87, "SMD"@) == !pad.is_thru_hole,
{
    reveal_strlit(" ");
    reveal_strlit("  ");
    reveal_strlit("THT");
    reveal_strlit("SMD");
    let x = thousandths(pad.x as int);
    let y = thousandths(pad.y as int);
    let w = thousandths(pad.width as int);
    let h = thousandths(pad.height as int);
    let none = Seq::<char>::empty();
    lemma_column(none, pad.reference@, 10);
    assert(none + left(pad.reference@, 10) =~= left(pad.reference@, 10));
    let n1 = left(pad.reference@, 10) + " "@;
    let n2 = n1 + left(pad.pad_num@, 6);
    let n3 = n2 + " "@;
    let n4 = n3 + left(pad.net@, 35);
    let names = n4 + " "@;
    lemma_stands_in_front(left(pad.reference@, 10), " "@, 0, pad.reference@);
    lemma_column(n1, pad.pad_num@, 6);
    lemma_column(n3, pad.net@, 35);
    lemma_stands_in_front(n1, left(pad.pad_num@, 6), 0, pad.reference@);
    lemma_stands_in_front(n2, " "@, 0, pad.reference@);
    lemma_stands_in_front(n2, " "@, 11, pad.pad_num@);
    lemma_stands_in_front(n3, left(pad.net@, 35), 0, pad.reference@);
    lemma_stands_in_front(n3, left(pad.net@, 35), 11, pad.pad_num@);
    lemma_stands_in_front(n4, " "@, 0, pad.reference@);
    lemma_stands_in_front(n4, " "@, 11, pad.pad_num@);
    lemma_stands_in_front(n4, " "@, 18, pad.net@);
    assert(names == pad_names(pad));
    assert(names.len() == 54);
    lemma_pad_sizes(pad);
    let sizes = pad_sizes(pad);
    let kind = if pad.is_thru_hole {
        "THT"@
    } else {
        "SMD"@
    };
    let both = names + sizes;
    lemma_stands_in_front(names, sizes, 0, pad.reference@);
    lemma_stands_in_front(names, sizes, 11, pad.pad_num@);
    lemma_stands_in_front(names, sizes, 18, pad.net@);
    lemma_stands_behind(names, sizes, 8 - x.len(), x);
    lemma_stands_behind(names, sizes, 17 - y.len(), y);
    lemma_stands_behind(names, sizes, 24 - w.len(), w);
    lemma_stands_behind(names, sizes, 31 - h.len(), h);
    let row = pad_row(pad);
    assert(row =~= both + (kind + "\n"@));
    let tail = kind + "\n"@;
    lemma_stands_in_front(both, tail, 0, pad.reference@);
    lemma_stands_in_front(both, tail, 11, pad.pad_num@);
    lemma_stands_in_front(both, tail, 18, pad.net@);
    lemma_stands_in_front(both, tail, 62 - x.len(), x);
    lemma_stands_in_front(both, tail, 71 - y.len(), y);
    lemma_stands_in_front(both, tail, 78 - w.len(), w);
    lemma_stands_in_front(both, tail, 85 - h.len(), h);
    assert(tail.subrange(0, 3) =~= kind);
    lemma_stands_behind(both, tail, 0, kind);
    assert(row.subrange(87, 90) == kind);
    assert(kind[0] == if pad.is_thru_hole {
        'T'
    } else {
        'S'
    });
    assert("THT"@[0] == 'T' && "SMD"@[0] == 'S');
}

#[verifier::rlimit(40)]
proof fn lemma_pad_sizes(pad: PcbPad)
    requires
        thousandths(pad.x as int).len() <= 8,
        thousandths(pad.y as int).len() <= 8,
        thousandths(pad.width as int).len() <= 6,
        thousandths(pad.height as int).len() <= 6,
    ensures
        pad_sizes(pad).len() == 33,
        stands(pad_sizes(pad), 8 - thousandths(pad.x as int).len(), thousandths(pad.x as int)),
        stands(pad_sizes(pad), 17 - thousandths(pad.y as int).len(), thousandths(pad.y as int)),
        stands(pad_sizes(pad), 24 - thousandths(pad.width as int).len(), thousandths(pad.width as int)),
        stands(
            pad_sizes(pad),
            31 - thousandths(pad.height as int).len(),
            thousandths(pad.height as int),
        ),
{
    reveal_strlit(" ");
    reveal_strlit("  ");
    let x = thousandths(pad.x as int);
    let y = thousandths(pad.y as int);
    let w = thousandths(pad.width as int);
    let h = thousandths(pad.height as int);
    let none = Seq::<char>::empty();
    lemma_column(none, x, 8);
    assert(none + right(x, 8) =~= right(x, 8));
    let s1 = right(x, 8) + " "@;
    let s2 = s1 + right(y, 8);
    let s3 = s2 + " "@;
    let s4 = s3 + right(w, 6);
    let s5 = s4 + " "@;
    let s6 = s5 + right(h, 6);
    lemma_stands_in_front(right(x, 8), " "@, 8 - x.len(), x);
    lemma_column(s1, y, 8);
    lemma_stands_in_front(s1, right(y, 8), 8 - x.len(), x);
    lemma_stands_in_front(s2, " "@, 8 - x.len(), x);
    lemma_stands_in_front(s2, " "@, 17 - y.len(), y);
    lemma_column(s3, w, 6);
    lemma_stands_in_front(s3, right(w, 6), 8 - x.len(), x);
    lemma_stands_in_front(s3, right(w, 6), 17 - y.len(), y);
    lemma_stands_in_front(s4, " "@, 8 - x.len(), x);
    lemma_stands_in_front(s4, " "@, 17 - y.len(), y);
    lemma_stands_in_front(s4, " "@, 24 - w.len(), w);
    lemma_column(s5, h, 6);
    lemma_stands_in_front(s5, right(h, 6), 8 - x.len(), x);
    lemma_stands_in_front(s5, right(h, 6), 17 - y.len(), y);
    lemma_stands_in_front(s5, right(h, 6), 24 - w.len(), w);
    lemma_stands_in_front(s6, "  "@, 8 - x.len(), x);
    lemma_stands_in_front(s6, "  "@, 17 - y.len(), y);
    lemma_stands_in_front(s6, "  "@, 24 - w.len(), w);
    lemma_stands_in_front(s6, "  "@, 31 - h.len(), h);
}

/// The line of a net gives its name in quotation marks, how many pads it has up to the
/// end of the second column, and the pads behind.
#[verifier::rlimit(40)]
pub proof fn lemma_net_line_is_in_columns(pads: Seq<RawPadModel>, net: Seq<char>)
    requires
        net.len() <= 43,
        decimal(pads_on(pads, net).len()).len() <= 5,
    ensures
        ({
            let n = decimal(pads_on(pads, net).len());
            let line = net_line(pads, net);
            &&& stands(line, 0, seq!['"'] + net + seq!['"'])
            &&& stands(line, 51 - n.len(), n)
            &&& stands(line, 53, joined(pads_on(pads, net), ", "@))
            &&& line.len() == 54 + joined(pads_on(pads, net), ", "@).len()
        }),
{
    reveal_strlit("\"");
    reveal_strlit(" ");
    reveal_strlit("  ");
    reveal_strlit("\n");
    let on = pads_on(pads, net);
    let n = decimal(on.len());
    let list = joined(on, ", "@);
    let name = "\""@ + net + "\""@;
    assert(name =~= seq!['"'] + net + seq!['"']);
    let none = Seq::<char>::empty();
    lemma_column(none, name, 45);
    assert(none + left(name, 45) =~= left(name, 45));
    let a = left(name, 45) + " "@;
    lemma_stands_in_front(left(name, 45), " "@, 0, name);
    lemma_column(a, n, 5);
    let b = a + right(n, 5);
    lemma_stands_in_front(a, right(n, 5), 0, name);
    lemma_stands_in_front(b, "  "@, 0, name);
    lemma_stands_in_front(b, "  "@, 51 - n.len(), n);
    let c = b + "  "@;
    lemma_stands_in_front(c, list, 0, name);
    lemma_stands_in_front(c, list, 51 - n.len(), n);
    assert(list.subrange(0, list.len() as int) =~= list);
    lemma_stands_behind(c, list, 0, list);
    let d = c + list;
    lemma_stands_in_front(d, "\n"@, 0, name);
    lemma_stands_in_front(d, "\n"@, 51 - n.len(), n);
    lemma_stands_in_front(d, "\n"@, 53, list);
}

/// The line of a trace gives the trace under the heads of the columns: its net, its layer,
/// where it starts, where it ends and how wide it is.
#[verifier::rlimit(40)]
pub proof fn lemma_trace_row_is_in_columns(s: SegmentModel)
    requires
        0 < s.net.len() <= 30,
        s.layer.len() <= 6,
        thousandths(s.from.0).len() <= 8,
        thousandths(s.from.1).len() <= 8,
        thousandths(s.to.0).len() <= 8,
        thousandths(s.to.1).len() <= 8,
        thousandths(s.width).len() <= 6,
    ensures
        stands(trace_row(s), 0, s.net),
        stands(trace_row(s), 31, s.layer),
        stands(trace_row(s), 46 - thousandths(s.from.0).len(), thousandths(s.from.0)),
        stands(trace_row(s), 55 - thousandths(s.from.1).len(), thousandths(s.from.1)),
        stands(trace_row(s), 67 - thousandths(s.to.0).len(), thousandths(s.to.0)),
        stands(trace_row(s), 76 - thousandths(s.to.1).len(), thousandths(s.to.1)),
        stands(trace_row(s), 84 - thousandths(s.width).len(), thousandths(s.width)),
{
    reveal_strlit(" ");
    reveal_strlit("  ");
    reveal_strlit("    ");
    let x = thousandths(s.from.0);
    let y = thousandths(s.from.1);
    let u = thousandths(s.to.0);
    let v = thousandths(s.to.1);
    let w = thousandths(s.width);
    let none = Seq::<char>::empty();
    lemma_column(none, s.net, 30);
    assert(none + left(s.net, 30) =~= left(s.net, 30));
    let a = left(s.net, 30) + " "@;
    lemma_column(a, s.layer, 6);
    let b = a + left(s.layer, 6) + " "@;
    lemma_column(b, x, 8);
    let c = b + right(x, 8) + " "@;
    lemma_column(c, y, 8);
    let d = c + right(y, 8) + "    "@;
    lemma_column(d, u, 8);
    let e = d + right(u, 8) + " "@;
    lemma_column(e, v, 8);
    let f = e + right(v, 8) + "  "@;
    lemma_column(f, w, 6);
    let row = trace_row(s);
    assert(row == f + right(w, 6) + "\n"@);
    lemma_stands_in_front(f + right(w, 6), "\n"@, 84 - w.len(), w);
    assert(row =~= e + right(v, 8) + ("  "@ + right(w, 6) + "\n"@));
    lemma_stands_in_front(e + right(v, 8), "  "@ + right(w, 6) + "\n"@, 76 - v.len(), v);
    let from_v = right(v, 8) + "  "@ + right(w, 6) + "\n"@;
    assert(row =~= d + right(u, 8) + (" "@ + from_v));
    lemma_stands_in_front(d + right(u, 8), " "@ + from_v, 67 - u.len(), u);
    let from_u = right(u, 8) + " "@ + from_v;
    assert(row =~= d + from_u);
    assert(row =~= c + right(y, 8) + ("    "@ + from_u));
    lemma_stands_in_front(c + right(y, 8), "    "@ + from_u, 55 - y.len(), y);
    let from_y = right(y, 8) + "    "@ + from_u;
    assert(row =~= b + right(x, 8) + (" "@ + from_y));
    lemma_stands_in_front(b + right(x, 8), " "@ + from_y, 46 - x.len(), x);
    let from_x = right(x, 8) + " "@ + from_y;
    assert(row =~= a + left(s.layer, 6) + (" "@ + from_x));
    lemma_stands_in_front(a + left(s.layer, 6), " "@ + from_x, 31, s.layer);
    let from_l = left(s.layer, 6) + " "@ + from_x;
    assert(row =~= left(s.net, 30) + (" "@ + from_l));
    lemma_stands_in_front(left(s.net, 30), " "@ + from_l, 0, s.net);
}

/// The text at the end of another.
pub open spec fn ends(text: Seq<char>, part: Seq<char>) -> bool {
    stands(text, text.len() - part.len(), part)
}

/// The report on a region counts the pads that it lists; where none is asked for, it says
/// so.
pub proof fn lemma_region_counts_its_pads(
    pads: Seq<PcbPad>,
    a: (int, int),
    b: (int, int),
    layer: Option<&str>,
)
    ensures
        ({
            let n = pad_rows(pads, a, b, layer).1;
            let report = pads_report(pads, a, b, layer);
            &&& n == 0 ==> stands(report, 0, "No pads in region "@)
            &&& n > 0 ==> stands(report, 0, "Pads in region "@) && ends(
                report,
                pad_rows(pads, a, b, layer).0 + "\nTotal: "@ + decimal(n) + " pads\n"@,
            )
        }),
{
    let rows = pad_rows(pads, a, b, layer);
    let points = given_points(a, " → "@, b);
    if rows.1 == 0 {
        let head = "No pads in region "@;
        assert(head.subrange(0, head.len() as int) =~= head);
        lemma_stands_in_front(head, points, 0, head);
    } else {
        let head = "Pads in region "@;
        let tail = rows.0 + "\nTotal: "@ + decimal(rows.1) + " pads\n"@;
        let lines = ":\n\n"@
            + "Ref        Pad    Net                                        X        Y  W(mm)  H(mm)  Type\n"@
            + dashes(95) + "\n"@;
        let report = pads_report(pads, a, b, layer);
        assert(report =~= head + (points + lines + tail));
        assert(head.subrange(0, head.len() as int) =~= head);
        lemma_stands_in_front(head, points + lines + tail, 0, head);
        assert(report =~= (head + points + lines) + tail);
        assert(tail.subrange(0, tail.len() as int) =~= tail);
        lemma_stands_behind(head + points + lines, tail, 0, tail);
    }
}

/// The report on a region counts the traces that it lists; where none is asked for, it
/// says so.
pub proof fn lemma_region_counts_its_traces(
    list: Seq<SegmentModel>,
    a: (i64, i64),
    b: (i64, i64),
    layer: Option<&str>,
    net: Option<&str>,
)
    ensures
        ({
            let n = trace_rows(list, a, b, layer, net).1;
            let report = traces_report(list, a, b, layer, net);
            &&& n == 0 ==> stands(report, 0, "No traces in region "@)
            &&& n > 0 ==> stands(report, 0, "Traces in region "@) && ends(
                report,
                trace_rows(list, a, b, layer, net).0 + "\nTotal: "@ + decimal(n) + " traces\n"@,
            )
        }),
{
    let rows = trace_rows(list, a, b, layer, net);
    let points = given_points(point(a), " → "@, point(b));
    if rows.1 == 0 {
        let head = "No traces in region "@;
        assert(head.subrange(0, head.len() as int) =~= head);
        lemma_stands_in_front(head, points, 0, head);
    } else {
        let head = "Traces in region "@;
        let tail = rows.0 + "\nTotal: "@ + decimal(rows.1) + " traces\n"@;
        let lines = ":\n\n"@
            + "Net                            Layer        X1       Y1          X2       Y2   W(mm)\n"@
            + dashes(90) + "\n"@;
        let report = traces_report(list, a, b, layer, net);
        assert(report =~= head + (points + lines + tail));
        assert(head.subrange(0, head.len() as int) =~= head);
        lemma_stands_in_front(head, points + lines + tail, 0, head);
        assert(report =~= (head + points + lines) + tail);
        assert(tail.subrange(0, tail.len() as int) =~= tail);
        lemma_stands_behind(head + points + lines, tail, 0, tail);
    }
}

} // verus!
