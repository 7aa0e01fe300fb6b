//! Where traces of a board may end, at its pads and where its footprints stand, and
//! where wires of a schematic may end, at the pins of its symbols.
//!
//! Turning takes the cosine and the sine of the angle of each footprint or symbol, in
//! billionths.

use crate::fields::{read_xy, xy_nanometres};
use crate::footprints::{footprint_table, footprints, lemma_footprints, span_list};
use crate::placing::{
    compute_pin_positions, pin_spots, read_symbol_pins, spots_of, symbol_pins, turn_and_move, turned,
};
use crate::schematic::{find_symbol_blocks, symbols};
use crate::sexpr::{block_end, end_of_block, lemma_close_bounds, pair};
use crate::spots::{fits, read_stand, stands_at};
use crate::tables::lemma_lookup_missing;
use crate::text::{find, find_from, lemma_find_is_first, to_chars};
use vstd::prelude::*;
use vstd::slice::slice_subrange;

verus! {

/// Points in numbers.
pub open spec fn places(list: Seq<(i64, i64)>) -> Seq<(int, int)> {
    list.map_values(|p: (i64, i64)| (p.0 as int, p.1 as int))
}

/// Whether both numbers are ones that a cosine or a sine can be, in billionths.
pub open spec fn is_turn(t: (i64, i64)) -> bool {
    -1_000_000_000 <= t.0 <= 1_000_000_000 && -1_000_000_000 <= t.1 <= 1_000_000_000
}

/// A point of a footprint, on the board.
pub open spec fn placed(p: (int, int), at: (int, int, int), turn: (int, int)) -> (int, int) {
    let t = turned(p, turn.0, turn.1);
    (at.0 + t.0, at.1 + t.1)
}

/// Where the pads of a footprint from a place on are on the board. A pad without a
/// point, or with one that ends out of range, does not count.
pub open spec fn pad_places(block: Seq<char>, from: int, at: (int, int, int), turn: (int, int)) -> Seq<
    (int, int),
>
    decreases block.len() - from,
    when 0 <= from
    via pad_places_decreases
{
    match find(block, "(pad "@, from) {
        None => Seq::empty(),
        Some(start) => {
            let end = end_of_block(block, start);
            let rest = pad_places(block, end, at, turn);
            match xy_nanometres(block.subrange(start, end), "(at "@) {
                None => rest,
                Some(p) => {
                    let q = placed(p, at, turn);
                    if fits(q.0) && fits(q.1) {
                        seq![q] + rest
                    } else {
                        rest
                    }
                },
            }
        },
    }
}

proof fn lemma_pad_ahead(block: Seq<char>, from: int)
    requires
        0 <= from,
    ensures
        find(block, "(pad "@, from) matches Some(start) ==> from <= start < end_of_block(block, start)
            <= block.len(),
{
    reveal_strlit("(pad ");
    lemma_find_is_first(block, "(pad "@, from);
    if let Some(start) = find(block, "(pad "@, from) {
        lemma_close_bounds(block, start, 0, false);
    }
}

#[via_fn]
proof fn pad_places_decreases(block: Seq<char>, from: int, at: (int, int, int), turn: (int, int)) {
    lemma_pad_ahead(block, from);
}

/// Where the pads of a footprint are, and last where it stands itself.
pub open spec fn footprint_anchors(block: Seq<char>, turn: (int, int)) -> Seq<(int, int)> {
    let at = stands_at(block);
    pad_places(block, 0, at, turn).push((at.0, at.1))
}

/// The anchors of the listed footprints, each with its turn.
pub open spec fn anchors_among(
    text: Seq<char>,
    list: Seq<(Seq<char>, (int, int))>,
    turns: Seq<(int, int)>,
) -> Seq<(int, int)>
    decreases list.len(),
{
    if list.len() == 0 {
        Seq::empty()
    } else {
        let span = list.last().1;
        anchors_among(text, list.drop_last(), turns) + footprint_anchors(
            text.subrange(span.0, span.1),
            turns[list.len() - 1],
        )
    }
}

/// Where traces of a board may end.
pub open spec fn board_anchors(text: Seq<char>, turns: Seq<(int, int)>) -> Seq<(int, int)> {
    anchors_among(text, footprints(text), turns)
}

fn collect_footprint(block: &[char], turn: (i64, i64), out: &mut Vec<(i64, i64)>)
    requires
        is_turn(turn),
    ensures
        places(final(out)@) == places(old(out)@) + footprint_anchors(
            block@,
            (turn.0 as int, turn.1 as int),
        ),
{
    let at = read_stand(block);
    let pad_mark = to_chars("(pad ");
    let at_mark = to_chars("(at ");
    let mut from: usize = 0;
    let ghost stand = stands_at(block@);
    let ghost angle = (turn.0 as int, turn.1 as int);
    let ghost first = places(out@);
    let ghost all = pad_places(block@, 0, stand, angle);
    proof {
        assert(first + all == places(out@) + all);
    }
    loop
        invariant
            from <= block@.len(),
            pad_mark@ == "(pad "@,
            at_mark@ == "(at "@,
            is_turn(turn),
            angle == (turn.0 as int, turn.1 as int),
            stand == (at.0 as int, at.1 as int, at.2 as int),
            first + all == places(out@) + pad_places(block@, from as int, stand, angle),
        ensures
            places(out@) == first + all,
        decreases block@.len() - from,
    {
        proof {
            lemma_pad_ahead(block@, from as int);
            assert(places(out@) + Seq::<(int, int)>::empty() =~= places(out@));
        }
        match find_from(block, pad_mark.as_slice(), from) {
            None => {
                break;
            },
            Some(start) => {
                let end: usize = block_end(block, start);
                let ghost rest = pad_places(block@, end as int, stand, angle);
                match read_xy(slice_subrange(block, start, end), at_mark.as_slice()) {
                    None => {},
                    Some(p) => match turn_and_move(p, turn.0, turn.1, (at.0, at.1)) {
                        None => {},
                        Some(q) => {
                            let ghost done = out@;
                            out.push(q);
                            proof {
                                let r = (q.0 as int, q.1 as int);
                                assert(places(out@) =~= places(done).push(r));
                                assert(places(done) + (seq![r] + rest) =~= places(out@) + rest);
                            }
                        },
                    },
                }
                from = end;
            },
        }
    }
    let ghost done = out@;
    out.push((at.0, at.1));
    proof {
        assert(places(out@) =~= places(done).push((stand.0, stand.1)));
        assert(places(out@) =~= first + footprint_anchors(block@, angle));
    }
}

/// The angle of each footprint of a board, in the order of the footprints; in
/// millionths of a degree.
pub fn footprint_turns(content: &str) -> (out: Vec<i64>)
    ensures
        out@.len() == footprints(content@).len(),
        forall|i: int|
            0 <= i < out@.len() ==> #[trigger] out@[i] == stands_at(
                content@.subrange(footprints(content@)[i].1.0, footprints(content@)[i].1.1),
            ).2,
{
    let text = to_chars(content);
    let table = footprint_table(text.as_slice());
    let ghost all = span_list(table.entries@);
    let mut out: Vec<i64> = Vec::new();
    proof {
        lemma_footprints(text@);
    }
    let mut i: usize = 0;
    while i < table.entries.len()
        invariant
            i <= table.entries@.len(),
            out@.len() == i,
            all == span_list(table.entries@),
            forall|j: int|
                0 <= j < all.len() ==> 0 <= (#[trigger] all[j]).1.0 < all[j].1.1 <= text@.len(),
            forall|j: int|
                0 <= j < i ==> #[trigger] out@[j] == stands_at(
                    text@.subrange(all[j].1.0, all[j].1.1),
                ).2,
        decreases table.entries@.len() - i,
    {
        proof {
            assert(all[i as int].1 == pair(table.entries@[i as int].1));
        }
        let entry = &table.entries[i];
        out.push(read_stand(slice_subrange(text.as_slice(), entry.1.start, entry.1.end)).2);
        i += 1;
    }
    out
}

/// Where traces of a board may end: at the pads of each footprint, and where it
/// stands itself. `turns` holds the cosine and the sine of the angle of each
/// footprint, in the order of the footprints.
pub fn collect_pad_positions(content: &str, turns: &Vec<(i64, i64)>) -> (out: Vec<(i64, i64)>)
    requires
        turns@.len() == footprints(content@).len(),
        forall|i: int| 0 <= i < turns@.len() ==> is_turn(#[trigger] turns@[i]),
    ensures
        places(out@) == board_anchors(content@, places(turns@)),
{
    let text = to_chars(content);
    let table = footprint_table(text.as_slice());
    let ghost all = span_list(table.entries@);
    let ghost angles = places(turns@);
    let mut out: Vec<(i64, i64)> = Vec::new();
    let mut i: usize = 0;
    proof {
        lemma_footprints(text@);
        assert(all.take(0).len() == 0);
        assert(places(out@) =~= Seq::<(int, int)>::empty());
    }
    while i < table.entries.len()
        invariant
            i <= table.entries@.len(),
            turns@.len() == table.entries@.len(),
            angles == places(turns@),
            all == span_list(table.entries@),
            forall|j: int| 0 <= j < turns@.len() ==> is_turn(#[trigger] turns@[j]),
            forall|j: int|
                0 <= j < all.len() ==> 0 <= (#[trigger] all[j]).1.0 < all[j].1.1 <= text@.len(),
            places(out@) == anchors_among(text@, all.take(i as int), angles),
        decreases table.entries@.len() - i,
    {
        let entry = &table.entries[i];
        proof {
            let next = all.take(i + 1);
            assert(next.drop_last() =~= all.take(i as int));
            assert(next.last() == all[i as int]);
            assert(all[i as int].1 == pair(entry.1));
        }
        let block = slice_subrange(text.as_slice(), entry.1.start, entry.1.end);
        collect_footprint(block, turns[i], &mut out);
        i += 1;
    }
    proof {
        assert(all.take(all.len() as int) =~= all);
    }
    out
}

/// Each footprint of a board stands on one of its anchors, however it is turned.
pub proof fn lemma_stands_are_anchors(text: Seq<char>, turns: Seq<(int, int)>, i: int)
    requires
        0 <= i < footprints(text).len(),
    ensures
        ({
            let span = footprints(text)[i].1;
            let at = stands_at(text.subrange(span.0, span.1));
            board_anchors(text, turns).contains((at.0, at.1))
        }),
{
    lemma_stands_among(text, footprints(text), turns, i);
}

proof fn lemma_stands_among(
    text: Seq<char>,
    list: Seq<(Seq<char>, (int, int))>,
    turns: Seq<(int, int)>,
    i: int,
)
    requires
        0 <= i < list.len(),
    ensures
        ({
            let at = stands_at(text.subrange(list[i].1.0, list[i].1.1));
            anchors_among(text, list, turns).contains((at.0, at.1))
        }),
    decreases list.len(),
{
    let at = stands_at(text.subrange(list[i].1.0, list[i].1.1));
    let front = anchors_among(text, list.drop_last(), turns);
    let whole = anchors_among(text, list, turns);
    if i == list.len() - 1 {
        assert(whole[whole.len() - 1] == (at.0, at.1));
    } else {
        lemma_stands_among(text, list.drop_last(), turns, i);
        let k = choose|k: int| 0 <= k < front.len() && front[k] == (at.0, at.1);
        assert(whole[k] == (at.0, at.1));
    }
}

/// Where the pins of a symbol are on the sheet.
pub open spec fn pin_places(text: Seq<char>, reference: Seq<char>, turn: (int, int)) -> Seq<
    (int, int),
> {
    match symbol_pins(text, reference) {
        None => Seq::empty(),
        Some((at, pins)) => spots_of(pins, at, turn.0, turn.1).map_values(
            |p: (Seq<char>, Seq<char>, int, int)| (p.2, p.3),
        ),
    }
}

/// A symbol and the cosine and the sine of its angle, in numbers.
pub open spec fn turned_symbols(list: Seq<(String, (i64, i64))>) -> Seq<
    (Seq<char>, (int, int)),
> {
    list.map_values(
        |e: (String, (i64, i64))| (e.0@, (e.1.0 as int, e.1.1 as int)),
    )
}

/// Where the pins of the listed symbols are on the sheet.
pub open spec fn pins_among(text: Seq<char>, list: Seq<(Seq<char>, (int, int))>) -> Seq<(int, int)>
    decreases list.len(),
{
    if list.len() == 0 {
        Seq::empty()
    } else {
        pins_among(text, list.drop_last()) + pin_places(text, list.last().0, list.last().1)
    }
}

/// The angle of a symbol; zero if it has no pins to turn.
pub open spec fn symbol_angle(text: Seq<char>, reference: Seq<char>) -> int {
    match symbol_pins(text, reference) {
        Some((at, pins)) => at.2,
        None => 0,
    }
}

/// Every symbol of a schematic, once, with its angle in millionths of a degree.
pub fn symbol_turns(content: &str) -> (out: Vec<(String, i64)>)
    ensures
        forall|reference: Seq<char>| #[trigger]
            symbols(content@).contains_key(reference) <==> exists|i: int|
                0 <= i < out@.len() && (#[trigger] out@[i]).0@ == reference,
        forall|i: int, j: int|
            0 <= i < j < out@.len() ==> (#[trigger] out@[i]).0@ != (#[trigger] out@[j]).0@,
        forall|i: int|
            0 <= i < out@.len() ==> (#[trigger] out@[i]).1 == symbol_angle(content@, out@[i].0@),
{
    let table = find_symbol_blocks(content);
    let mut out: Vec<(String, i64)> = Vec::new();
    let mut i: usize = 0;
    while i < table.entries.len()
        invariant
            i <= table.entries@.len(),
            out@.len() == i,
            forall|j: int| 0 <= j < i ==> (#[trigger] out@[j]).0@ == table.entries@[j].0@,
            forall|j: int|
                0 <= j < i ==> (#[trigger] out@[j]).1 == symbol_angle(content@, out@[j].0@),
        decreases table.entries@.len() - i,
    {
        let reference = table.entries[i].0.clone();
        let angle: i64 = match read_symbol_pins(content, reference.as_str()) {
            Some(p) => p.0.2,
            None => 0,
        };
        out.push((reference, angle));
        i += 1;
    }
    proof {
        assert forall|reference: Seq<char>| #[trigger]
            symbols(content@).contains_key(reference) <==> exists|i: int|
                0 <= i < out@.len() && (#[trigger] out@[i]).0@ == reference by {
            lemma_lookup_missing(table.entries@, reference);
            assert(symbols(content@).contains_key(reference) == table@.contains_key(reference));
            if table@.contains_key(reference) {
                let k = choose|k: int|
                    0 <= k < table.entries@.len() && (#[trigger] table.entries@[k]).0@ == reference;
                assert(out@[k].0@ == reference);
            }
            if exists|i: int| 0 <= i < out@.len() && (#[trigger] out@[i]).0@ == reference {
                let k = choose|k: int| 0 <= k < out@.len() && (#[trigger] out@[k]).0@ == reference;
                assert(table.entries@[k].0@ == reference);
            }
        }
        assert forall|i: int, j: int| 0 <= i < j < out@.len() implies (#[trigger] out@[i]).0@ != (
        #[trigger] out@[j]).0@ by {
            assert(table.entries@[i].0@ != table.entries@[j].0@);
        }
    }
    out
}

/// Where wires of a schematic may end: at the pins of the listed symbols, each with
/// the cosine and the sine of its angle.
pub fn collect_pin_positions(content: &str, list: &Vec<(String, (i64, i64))>) -> (out: Vec<
    (i64, i64),
>)
    requires
        forall|i: int| 0 <= i < list@.len() ==> is_turn((#[trigger] list@[i]).1),
    ensures
        places(out@) == pins_among(content@, turned_symbols(list@)),
{
    let ghost all = turned_symbols(list@);
    let mut out: Vec<(i64, i64)> = Vec::new();
    let mut i: usize = 0;
    proof {
        assert(all.take(0).len() == 0);
        assert(places(out@) =~= Seq::<(int, int)>::empty());
    }
    while i < list.len()
        invariant
            i <= list@.len(),
            all == turned_symbols(list@),
            forall|j: int| 0 <= j < list@.len() ==> is_turn((#[trigger] list@[j]).1),
            places(out@) == pins_among(content@, all.take(i as int)),
        decreases list@.len() - i,
    {
        proof {
            let next = all.take(i + 1);
            assert(next.drop_last() =~= all.take(i as int));
            assert(next.last() == all[i as int]);
        }
        let turn = list[i].1;
        let pins = compute_pin_positions(content, list[i].0.as_str(), turn.0, turn.1);
        let ghost here = pin_places(content@, list@[i as int].0@, (turn.0 as int, turn.1 as int));
        let ghost done = places(out@);
        proof {
            assert(here =~= pin_spots(pins@).map_values(
                |p: (Seq<char>, Seq<char>, int, int)| (p.2, p.3),
            ));
            assert(done + here.take(0) =~= done);
        }
        let mut k: usize = 0;
        while k < pins.len()
            invariant
                k <= pins@.len(),
                here.len() == pins@.len(),
                forall|j: int|
                    0 <= j < pins@.len() ==> #[trigger] here[j] == (
                        pins@[j].2 as int,
                        pins@[j].3 as int,
                    ),
                places(out@) == done + here.take(k as int),
            decreases pins@.len() - k,
        {
            let ghost before = places(out@);
            out.push((pins[k].2, pins[k].3));
            proof {
                assert(places(out@) =~= before.push(here[k as int]));
                assert(before.push(here[k as int]) =~= done + here.take(k + 1));
            }
            k += 1;
        }
        proof {
            assert(here.take(here.len() as int) =~= here);
        }
        i += 1;
    }
    proof {
        assert(all.take(all.len() as int) =~= all);
    }
    out
}

} // verus!
