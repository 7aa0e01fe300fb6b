//! What is chosen from a file: which drawings go, which identifiers stay, and which lines
//! and values are told.

use crate::board::{asked, drawings, graphics, holding, holds_all, outline_runs, places};
use crate::drawing::part_value;
use crate::finding::{is_in, lemma_is_in};
use crate::footprints::footprints;
use crate::listing::{lemma_picked_next, picked_next, picks};
use crate::pcb::Footprint;
use crate::pins::{firsts, insert_pin, list_map, pin_before, pin_order, remapped, unmatched, uuid_by_name};
use crate::scripts::{is_progress, last_progress};
use crate::sexpr::named;
use vstd::prelude::*;

verus! {

proof fn lemma_holding_contains(
    text: Seq<char>,
    runs: Seq<(int, int)>,
    needles: Seq<Seq<char>>,
    run: (int, int),
)
    ensures
        holding(text, runs, needles).contains(run) == (runs.contains(run) && holds_all(
            text.subrange(run.0, run.1),
            needles,
        )),
    decreases runs.len(),
{
    if runs.len() > 0 {
        let front = runs.drop_last();
        lemma_holding_contains(text, front, needles, run);
        let rest = holding(text, front, needles);
        let out = holding(text, runs, needles);
        if front.contains(run) {
            let k = choose|k: int| 0 <= k < front.len() && front[k] == run;
            assert(runs[k] == run);
        }
        if runs.contains(run) {
            let k = choose|k: int| 0 <= k < runs.len() && runs[k] == run;
            if k < front.len() {
                assert(front[k] == run);
            }
        }
        if rest.contains(run) {
            let k = choose|k: int| 0 <= k < rest.len() && rest[k] == run;
            assert(out[k] == run);
        }
        if out.contains(run) {
            let k = choose|k: int| 0 <= k < out.len() && out[k] == run;
            if k < rest.len() {
                assert(rest[k] == run);
            } else {
                assert(runs[runs.len() - 1] == run);
            }
        }
        if runs.last() == run && holds_all(text.subrange(run.0, run.1), needles) {
            assert(out[rest.len() as int] == run);
            assert(runs[runs.len() - 1] == run);
        }
    }
}

proof fn lemma_join_contains(a: Seq<(int, int)>, b: Seq<(int, int)>, run: (int, int))
    ensures
        (a + b).contains(run) == (a.contains(run) || b.contains(run)),
{
    let c = a + b;
    if a.contains(run) {
        let k = choose|k: int| 0 <= k < a.len() && a[k] == run;
        assert(c[k] == run);
    }
    if b.contains(run) {
        let k = choose|k: int| 0 <= k < b.len() && b[k] == run;
        assert(c[a.len() + k] == run);
    }
    if c.contains(run) {
        let k = choose|k: int| 0 <= k < c.len() && c[k] == run;
        if k < a.len() {
            assert(a[k] == run);
        } else {
            assert(b[k - a.len()] == run);
        }
    }
}

/// Whether a block holds a text, if one is given.
pub open spec fn holds_given(block: Seq<char>, given: Option<&str>) -> bool {
    given matches Some(t) ==> is_in(block, t@)
}

/// Whether a run of a board is one of its drawings: a text, a line, a rectangle or a circle.
pub open spec fn is_drawing(text: Seq<char>, run: (int, int)) -> bool {
    ||| named(text, "(gr_text"@).contains(run)
    ||| named(text, "(gr_line"@).contains(run)
    ||| named(text, "(gr_rect"@).contains(run)
    ||| named(text, "(gr_circle"@).contains(run)
}

#[verifier::rlimit(40)]
proof fn lemma_needles(
    block: Seq<char>,
    a: Option<&str>,
    b: Option<&str>,
    c: Option<&str>,
)
    ensures
        holds_all(block, asked(a) + asked(b) + asked(c)) == (holds_given(block, a) && holds_given(
            block,
            b,
        ) && holds_given(block, c)),
{
    let all = asked(a) + asked(b) + asked(c);
    if let Some(t) = a {
        lemma_is_in(block, t@);
        assert(all[0] == t@);
    }
    if let Some(t) = b {
        lemma_is_in(block, t@);
        assert(all[asked(a).len() as int] == t@);
    }
    if let Some(t) = c {
        lemma_is_in(block, t@);
        assert(all[(asked(a).len() + asked(b).len()) as int] == t@);
    }
    if holds_given(block, a) && holds_given(block, b) && holds_given(block, c) {
        assert forall|i: int| 0 <= i < all.len() implies crate::text::contains(
            block,
            #[trigger] all[i],
        ) by {
            if i < asked(a).len() {
                assert(all[i] == asked(a)[i]);
            } else if i < asked(a).len() + asked(b).len() {
                assert(all[i] == asked(b)[i - asked(a).len()]);
            } else {
                assert(all[i] == asked(c)[i - asked(a).len() - asked(b).len()]);
            }
        }
    }
}

/// The drawings that go are those that hold every text that is given; footprints that do go
/// too if they are asked for, but only where a text is looked for.
#[verifier::rlimit(40)]
pub proof fn lemma_drawings_that_go(
    text: Seq<char>,
    wanted: Option<&str>,
    layer: Option<&str>,
    stamp: Option<&str>,
    parts: bool,
    run: (int, int),
)
    ensures
        graphics(text, wanted, layer, stamp, parts).contains(run) == ({
            let block = text.subrange(run.0, run.1);
            &&& is_drawing(text, run) || (parts && wanted is Some && places(footprints(text)).contains(run))
            &&& holds_given(block, wanted)
            &&& holds_given(block, layer)
            &&& holds_given(block, stamp)
        }),
{
    let needles = asked(wanted) + asked(layer) + asked(stamp);
    lemma_needles(text.subrange(run.0, run.1), wanted, layer, stamp);
    let a = named(text, "(gr_text"@);
    let b = named(text, "(gr_line"@);
    let c = named(text, "(gr_rect"@);
    let d = named(text, "(gr_circle"@);
    let e = places(footprints(text));
    lemma_holding_contains(text, a, needles, run);
    lemma_holding_contains(text, b, needles, run);
    lemma_holding_contains(text, c, needles, run);
    lemma_holding_contains(text, d, needles, run);
    lemma_holding_contains(text, e, needles, run);
    let ab = holding(text, a, needles) + holding(text, b, needles);
    lemma_join_contains(holding(text, a, needles), holding(text, b, needles), run);
    lemma_join_contains(ab, holding(text, c, needles), run);
    lemma_join_contains(ab + holding(text, c, needles), holding(text, d, needles), run);
    lemma_join_contains(drawings(text, needles), holding(text, e, needles), run);
}

/// What draws the outline of a board is the lines and rectangles on its edge.
pub proof fn lemma_outline_that_goes(text: Seq<char>, run: (int, int))
    ensures
        outline_runs(text).contains(run) == ((named(text, "(gr_line"@).contains(run) || named(
            text,
            "(gr_rect"@,
        ).contains(run)) && is_in(text.subrange(run.0, run.1), "Edge.Cuts"@)),
{
    let needles = seq!["Edge.Cuts"@];
    let block = text.subrange(run.0, run.1);
    let a = named(text, "(gr_line"@);
    let b = named(text, "(gr_rect"@);
    lemma_is_in(block, "Edge.Cuts"@);
    assert(needles[0] == "Edge.Cuts"@);
    assert(holds_all(block, needles) == is_in(block, "Edge.Cuts"@));
    lemma_holding_contains(text, a, needles, run);
    lemma_holding_contains(text, b, needles, run);
    lemma_join_contains(holding(text, a, needles), holding(text, b, needles), run);
}

/// Whether a pin that an instance lists has a name.
pub open spec fn had_name(
    names: Map<Seq<char>, Seq<char>>,
    pin: (Seq<char>, Seq<char>),
    name: Seq<char>,
) -> bool {
    names.contains_key(pin.0) && names[pin.0] == name
}

proof fn lemma_no_identifier(
    names: Map<Seq<char>, Seq<char>>,
    pins: Seq<(Seq<char>, Seq<char>)>,
    name: Seq<char>,
)
    requires
        forall|k: int| 0 <= k < pins.len() ==> !had_name(names, #[trigger] pins[k], name),
    ensures
        !uuid_by_name(names, pins).contains_key(name),
    decreases pins.len(),
{
    if pins.len() > 0 {
        let front = pins.drop_last();
        assert forall|k: int| 0 <= k < front.len() implies !had_name(
            names,
            #[trigger] front[k],
            name,
        ) by {
            assert(front[k] == pins[k]);
        }
        lemma_no_identifier(names, front, name);
        assert(!had_name(names, pins[pins.len() - 1], name));
    }
}

proof fn lemma_last_identifier(
    names: Map<Seq<char>, Seq<char>>,
    pins: Seq<(Seq<char>, Seq<char>)>,
    name: Seq<char>,
    k: int,
)
    requires
        0 <= k < pins.len(),
        had_name(names, pins[k], name),
        forall|j: int| k < j < pins.len() ==> !had_name(names, #[trigger] pins[j], name),
    ensures
        uuid_by_name(names, pins).contains_key(name),
        uuid_by_name(names, pins)[name] == pins[k].1,
    decreases pins.len(),
{
    let front = pins.drop_last();
    let n = pins.len() - 1;
    if k < n {
        assert(front[k] == pins[k]);
        assert forall|j: int| k < j < front.len() implies !had_name(names, #[trigger] front[j], name) by {
            assert(front[j] == pins[j]);
        }
        lemma_last_identifier(names, front, name, k);
        assert(!had_name(names, pins[n], name));
    }
}

/// When a symbol takes the place of another, each of its pins keeps the identifier that the
/// pin of the same name had, the last if there were several; a pin whose name is new gets a
/// fresh one.
pub proof fn lemma_pin_keeps_its_identifier(
    old: Seq<(Seq<char>, Seq<char>)>,
    new: Seq<(Seq<char>, Seq<char>)>,
    pins: Seq<(Seq<char>, Seq<char>)>,
    fresh: Seq<Seq<char>>,
    i: int,
    k: int,
)
    requires
        0 <= i < pin_order(firsts(new)).len(),
    ensures
        ({
            let pin = remapped(old, new, pins, fresh)[i];
            let name = list_map(new)[pin.0];
            let names = list_map(old);
            &&& pin.0 == pin_order(firsts(new))[i]
            &&& (forall|j: int| 0 <= j < pins.len() ==> !had_name(names, #[trigger] pins[j], name))
                ==> pin.1 == fresh[i]
            &&& 0 <= k < pins.len() && had_name(names, pins[k], name) && (forall|j: int|
                k < j < pins.len() ==> !had_name(names, #[trigger] pins[j], name)) ==> pin.1
                == pins[k].1
        }),
{
    let pin = remapped(old, new, pins, fresh)[i];
    let name = list_map(new)[pin.0];
    let names = list_map(old);
    if forall|j: int| 0 <= j < pins.len() ==> !had_name(names, #[trigger] pins[j], name) {
        lemma_no_identifier(names, pins, name);
    }
    if 0 <= k < pins.len() && had_name(names, pins[k], name) && (forall|j: int|
        k < j < pins.len() ==> !had_name(names, #[trigger] pins[j], name)) {
        lemma_last_identifier(names, pins, name, k);
    }
}

/// Putting pins in order leaves none out and adds none.
pub proof fn lemma_order_keeps_the_pins(list: Seq<Seq<char>>)
    ensures
        pin_order(list).to_multiset() == list.to_multiset(),
        pin_order(list).len() == list.len(),
    decreases list.len(),
{
    broadcast use vstd::seq_lib::group_to_multiset_ensures;

    if list.len() > 0 {
        lemma_order_keeps_the_pins(list.drop_last());
        lemma_insert_keeps_the_pins(pin_order(list.drop_last()), list.last());
        assert(list =~= list.drop_last().push(list.last()));
    }
}

proof fn lemma_insert_keeps_the_pins(list: Seq<Seq<char>>, number: Seq<char>)
    ensures
        insert_pin(list, number).to_multiset() == list.to_multiset().insert(number),
        insert_pin(list, number).len() == list.len() + 1,
    decreases list.len(),
{
    broadcast use vstd::seq_lib::group_to_multiset_ensures;

    if !(list.len() == 0 || !pin_before(number, list.last())) {
        lemma_insert_keeps_the_pins(list.drop_last(), number);
        assert(list =~= list.drop_last().push(list.last()));
        let last = list.last();
        let rest = list.drop_last().to_multiset();
        assert(rest.insert(number).insert(last) =~= rest.insert(last).insert(number));
    }
}

/// The names that are not among others.
pub open spec fn is_missing(old: Seq<Seq<char>>, new: Seq<Seq<char>>) -> spec_fn(int) -> bool {
    |i: int| forall|k: int| 0 <= k < new.len() ==> #[trigger] new[k] != old[i]
}

/// The pins that are told to be lost are all those whose name the new symbol lacks.
pub proof fn lemma_lost_pins_are_told(old: Seq<Seq<char>>, new: Seq<Seq<char>>) -> (at: Seq<int>)
    ensures
        picks(at, old.len() as int, is_missing(old, new)),
        unmatched(old, new) == at.map_values(|i: int| old[i]),
    decreases old.len(),
{
    if old.len() == 0 {
        let at = Seq::<int>::empty();
        assert(unmatched(old, new) =~= at.map_values(|i: int| old[i]));
        at
    } else {
        let front = old.drop_last();
        let at = lemma_lost_pins_are_told(front, new);
        let n = old.len() - 1;
        let p = is_missing(old, new);
        assert forall|i: int| 0 <= i < n implies #[trigger] p(i) == is_missing(front, new)(i) by {
            assert(front[i] == old[i]);
        }
        lemma_picked_next(at, n, is_missing(front, new), p);
        let more = picked_next(at, n, p);
        assert(p(n) == !new.contains(old.last())) by {
            if new.contains(old.last()) {
                let k = choose|k: int| 0 <= k < new.len() && new[k] == old.last();
                assert(new[k] == old[n]);
            }
        }
        assert forall|k: int| 0 <= k < at.len() implies front[at[k]] == old[at[k]] by {}
        assert(unmatched(old, new) =~= more.map_values(|i: int| old[i]));
        more
    }
}

/// Whether a line of a log says how far the router got.
pub open spec fn says_how_far(line: Seq<char>) -> bool {
    is_in(line, "completed"@) || is_in(line, "unrouted"@) || is_in(line, "score"@)
}

/// The last line that says how far the router got is told; nothing if no line does.
pub proof fn lemma_last_progress_is_told(lines: Seq<Seq<char>>)
    ensures
        forall|k: int|
            0 <= k < lines.len() && says_how_far(#[trigger] lines[k]) && (forall|j: int|
                k < j < lines.len() ==> !says_how_far(#[trigger] lines[j])) ==> last_progress(lines)
                == lines[k],
        (forall|k: int| 0 <= k < lines.len() ==> !says_how_far(#[trigger] lines[k])) ==> last_progress(
            lines,
        ).len() == 0,
    decreases lines.len(),
{
    if lines.len() > 0 {
        let front = lines.drop_last();
        let n = lines.len() - 1;
        let last = lines.last();
        lemma_is_in(last, "completed"@);
        lemma_is_in(last, "unrouted"@);
        lemma_is_in(last, "score"@);
        assert(is_progress(last) == says_how_far(lines[n]));
        lemma_last_progress_is_told(front);
        assert forall|k: int|
            0 <= k < lines.len() && says_how_far(#[trigger] lines[k]) && (forall|j: int|
                k < j < lines.len() ==> !says_how_far(#[trigger] lines[j])) implies last_progress(lines)
            == lines[k] by {
            if k < n {
                assert(!says_how_far(lines[n]));
                assert(front[k] == lines[k]);
                assert forall|j: int| k < j < front.len() implies !says_how_far(#[trigger] front[j]) by {
                    assert(front[j] == lines[j]);
                }
            }
        }
        if forall|k: int| 0 <= k < lines.len() ==> !says_how_far(#[trigger] lines[k]) {
            assert forall|j: int| 0 <= j < front.len() implies !says_how_far(#[trigger] front[j]) by {
                assert(front[j] == lines[j]);
            }
        }
    }
}

/// The value of a part is that of the first footprint with its reference; where there is
/// none, a dash stands for it.
pub proof fn lemma_value_is_that_of_the_part(parts: Seq<Footprint>, reference: Seq<char>)
    ensures
        forall|k: int|
            0 <= k < parts.len() && (#[trigger] parts[k]).reference@ == reference && (forall|j: int|
                0 <= j < k ==> (#[trigger] parts[j]).reference@ != reference) ==> part_value(
                parts,
                reference,
            ) == parts[k].value@,
        (forall|k: int| 0 <= k < parts.len() ==> (#[trigger] parts[k]).reference@ != reference)
            ==> part_value(parts, reference) == "—"@,
    decreases parts.len(),
{
    if parts.len() > 0 {
        let rest = parts.drop_first();
        lemma_value_is_that_of_the_part(rest, reference);
        assert forall|k: int|
            0 <= k < parts.len() && (#[trigger] parts[k]).reference@ == reference && (forall|j: int|
                0 <= j < k ==> (#[trigger] parts[j]).reference@ != reference) implies part_value(
            parts,
            reference,
        ) == parts[k].value@ by {
            if k > 0 {
                assert(parts[0].reference@ != reference);
                assert(rest[k - 1] == parts[k]);
                assert forall|j: int| 0 <= j < k - 1 implies (#[trigger] rest[j]).reference@
                    != reference by {
                    assert(rest[j] == parts[j + 1]);
                }
            }
        }
        if forall|k: int| 0 <= k < parts.len() ==> (#[trigger] parts[k]).reference@ != reference {
            assert(parts[0].reference@ != reference);
            assert forall|j: int| 0 <= j < rest.len() implies (#[trigger] rest[j]).reference@
                != reference by {
                assert(rest[j] == parts[j + 1]);
            }
        }
    }
}

} // verus!
