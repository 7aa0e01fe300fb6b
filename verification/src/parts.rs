//! The parts of a board: looking at them, adding and taking away, and new footprints.

use crate::edits::{edit_model, Edit};
use crate::footprints::{
    footprint_name, footprint_table, footprints, lemma_footprints, read_footprint_name, read_value,
    set_footprint_name, set_value, span_list, value_of, with_footprint_name, with_value,
};
use crate::insert::{insert_element, inserted};
use crate::pads::has_text;
use crate::placing::{place_text, write_place};
use crate::sexpr::{
    cut_runs, lemma_proper_cuts_fit, pair, pairs, proper, without, Span,
};
use crate::spots::{fits, list_references, locate, located, read_stand, references, stands_at};
use crate::strings::{decimal, join, joined, number, replace, replaced, strings};
use crate::text::{
    extend, extend_str, find, find_from, lemma_find_is_first, same_str, splice, spliced, to_chars,
    to_text,
};
use crate::units::{extend_plain, plain};
use vstd::prelude::*;
use vstd::slice::slice_subrange;

verus! {

/// A part in a line.
pub open spec fn part_line(reference: Seq<char>, value: Seq<char>, name: Seq<char>, x: int, y: int, turn: int) -> Seq<char> {
    reference + " | "@ + value + " | "@ + name + " | position ("@ + plain(x) + ", "@ + plain(y)
        + ", rot="@ + plain(turn) + "°)"@
}

fn write_part_line(reference: &str, value: &str, name: &str, x: i64, y: i64, turn: i64) -> (out: String)
    ensures
        out@ == part_line(reference@, value@, name@, x as int, y as int, turn as int),
{
    let mut out = to_chars(reference);
    extend_str(&mut out, " | ");
    extend_str(&mut out, value);
    extend_str(&mut out, " | ");
    extend_str(&mut out, name);
    extend_str(&mut out, " | position (");
    extend_plain(&mut out, x);
    extend_str(&mut out, ", ");
    extend_plain(&mut out, y);
    extend_str(&mut out, ", rot=");
    extend_plain(&mut out, turn);
    extend_str(&mut out, "°)");
    proof {
        assert(out@ =~= part_line(reference@, value@, name@, x as int, y as int, turn as int));
    }
    to_text(out.as_slice())
}

/// No part has the reference; these there are.
pub open spec fn part_unknown(reference: Seq<char>, path: Seq<char>, all: Seq<char>) -> Seq<char> {
    "Reference '"@ + reference + "' not found in "@ + path + ".\nAvailable: "@ + all
}

fn write_part_unknown(reference: &str, path: &str, all: &str) -> (out: String)
    ensures
        out@ == part_unknown(reference@, path@, all@),
{
    let mut out = to_chars("Reference '");
    extend_str(&mut out, reference);
    extend_str(&mut out, "' not found in ");
    extend_str(&mut out, path);
    extend_str(&mut out, ".\nAvailable: ");
    extend_str(&mut out, all);
    proof {
        assert(out@ =~= part_unknown(reference@, path@, all@));
    }
    to_text(out.as_slice())
}

pub open spec fn text_or_empty(t: Option<Seq<char>>) -> Seq<char> {
    match t {
        Some(t) => t,
        None => Seq::empty(),
    }
}

/// What is told of a part, and its block.
pub open spec fn part_answer(text: Seq<char>, path: Seq<char>, reference: Seq<char>) -> Result<
    (Seq<char>, Seq<char>),
    Seq<char>,
> {
    match located(text, reference) {
        None => Err(part_unknown(reference, path, joined(references(text), ", "@))),
        Some(s) => {
            let block = text.subrange(s.0, s.1);
            let at = stands_at(block);
            Ok(
                (
                    part_line(
                        reference,
                        text_or_empty(value_of(block)),
                        text_or_empty(footprint_name(block)),
                        at.0,
                        at.1,
                        at.2,
                    ),
                    block,
                ),
            )
        },
    }
}

fn or_empty(t: Option<Vec<char>>) -> (out: String)
    ensures
        out@ == text_or_empty(
            match t {
                Some(t) => Some(t@),
                None => None,
            },
        ),
{
    match t {
        Some(t) => to_text(t.as_slice()),
        None => {
            let out = String::new();
            proof {
                assert(out@ =~= Seq::empty());
            }
            out
        },
    }
}

/// Tells of the part with a reference, and gives its block.
pub fn get_component(content: &str, path: &str, reference: &str) -> (out: Result<
    (String, String),
    String,
>)
    ensures
        (match out {
            Ok(r) => Ok((r.0@, r.1@)),
            Err(why) => Err(why@),
        }) == part_answer(content@, path@, reference@),
{
    let text = to_chars(content);
    match locate(text.as_slice(), reference) {
        None => {
            let all = join(&list_references(text.as_slice()), ", ");
            Err(write_part_unknown(reference, path, all.as_str()))
        },
        Some(s) => {
            let block = slice_subrange(text.as_slice(), s.start, s.end);
            let at = read_stand(block);
            let value = or_empty(read_value(block));
            let name = or_empty(read_footprint_name(block));
            let line = write_part_line(
                reference,
                value.as_str(),
                name.as_str(),
                at.0,
                at.1,
                at.2,
            );
            Ok((line, to_text(block)))
        },
    }
}

/// The blocks of those footprints whose references are named.
pub open spec fn doomed(list: Seq<(Seq<char>, (int, int))>, refs: Seq<Seq<char>>) -> Seq<(int, int)>
    decreases list.len(),
{
    if list.len() == 0 {
        Seq::empty()
    } else {
        let rest = doomed(list.drop_last(), refs);
        if refs.contains(list.last().0) {
            rest.push(list.last().1)
        } else {
            rest
        }
    }
}

proof fn lemma_doomed(list: Seq<(Seq<char>, (int, int))>, refs: Seq<Seq<char>>)
    ensures
        forall|k: int|
            0 <= k < doomed(list, refs).len() ==> exists|i: int|
                0 <= i < list.len() && (#[trigger] list[i]).1 == #[trigger] doomed(list, refs)[k],
    decreases list.len(),
{
    if list.len() > 0 {
        let front = list.drop_last();
        lemma_doomed(front, refs);
        let rest = doomed(front, refs);
        let out = doomed(list, refs);
        assert forall|k: int| 0 <= k < out.len() implies exists|i: int|
            0 <= i < list.len() && (#[trigger] list[i]).1 == #[trigger] out[k] by {
            if k < rest.len() {
                assert(out[k] == rest[k]);
                let i = choose|i: int| 0 <= i < front.len() && (#[trigger] front[i]).1 == rest[k];
                assert(list[i].1 == out[k]);
            } else {
                assert(list[list.len() - 1].1 == out[k]);
            }
        }
    }
}

proof fn lemma_doomed_proper(list: Seq<(Seq<char>, (int, int))>, refs: Seq<Seq<char>>, len: int)
    requires
        forall|i: int| 0 <= i < list.len() ==> 0 <= (#[trigger] list[i]).1.0 < list[i].1.1 <= len,
        forall|i: int, j: int|
            0 <= i < j < list.len() ==> (#[trigger] list[i]).1.0 != (#[trigger] list[j]).1.0,
    ensures
        proper(doomed(list, refs), len),
    decreases list.len(),
{
    if list.len() > 0 {
        let front = list.drop_last();
        assert forall|i: int| 0 <= i < front.len() implies 0 <= (#[trigger] front[i]).1.0
            < front[i].1.1 <= len by {
            assert(front[i] == list[i]);
        }
        assert forall|i: int, j: int| 0 <= i < j < front.len() implies (#[trigger] front[i]).1.0
            != (#[trigger] front[j]).1.0 by {
            assert(front[i] == list[i]);
            assert(front[j] == list[j]);
        }
        lemma_doomed_proper(front, refs, len);
        lemma_doomed(front, refs);
        let rest = doomed(front, refs);
        let out = doomed(list, refs);
        assert(0 <= list[list.len() - 1].1.0 < list[list.len() - 1].1.1 <= len);
        assert forall|i: int, j: int| 0 <= i < j < out.len() implies (#[trigger] out[i]).0 != (
        #[trigger] out[j]).0 by {
            assert(out[i] == rest[i]);
            if j < rest.len() {
                assert(out[j] == rest[j]);
            } else {
                let k = choose|k: int| 0 <= k < front.len() && (#[trigger] front[k]).1 == rest[i];
                assert(list[k].1 == out[i]);
                assert(list[list.len() - 1].1 == out[j]);
            }
        }
    }
}

/// A board without the parts whose references are named.
pub open spec fn without_parts(text: Seq<char>, refs: Seq<Seq<char>>) -> Seq<char> {
    without(text, doomed(footprints(text), refs))
}

/// Takes parts off a board.
pub fn remove_footprints(content: &str, refs: &Vec<String>) -> (out: String)
    ensures
        out@ == without_parts(content@, strings(refs@)),
{
    let text = to_chars(content);
    let table = footprint_table(text.as_slice());
    let ghost list = footprints(text@);
    let ghost named = strings(refs@);
    let mut runs: Vec<Span> = Vec::new();
    let mut i: usize = 0;
    proof {
        lemma_footprints(text@);
        lemma_doomed_proper(list, named, text@.len() as int);
        lemma_proper_cuts_fit(text@, doomed(list, named));
        assert(span_list(table.entries@).len() == table.entries@.len());
        assert(list.take(0).len() == 0);
        assert(pairs(runs@) =~= Seq::empty());
    }
    while i < table.entries.len()
        invariant
            i <= table.entries@.len(),
            list == footprints(text@),
            named == strings(refs@),
            span_list(table.entries@) == list,
            list.len() == table.entries@.len(),
            pairs(runs@) == doomed(list.take(i as int), named),
        decreases table.entries@.len() - i,
    {
        proof {
            assert(list.take(i + 1).drop_last() =~= list.take(i as int));
            assert(list.take(i + 1).last() == list[i as int]);
            assert(list[i as int] == (
                table.entries@[i as int].0@,
                pair(table.entries@[i as int].1),
            ));
        }
        if has_text(refs, &table.entries[i].0) {
            let ghost done = runs@;
            runs.push(table.entries[i].1);
            proof {
                assert(pairs(runs@) =~= pairs(done).push(pair(table.entries@[i as int].1)));
            }
        }
        i += 1;
    }
    proof {
        assert(list.take(list.len() as int) =~= list);
    }
    let out = cut_runs(text.as_slice(), &runs);
    to_text(out.as_slice())
}

/// Those of the references that the board has, or those that it has not.
pub open spec fn known_refs(text: Seq<char>, refs: Seq<Seq<char>>, known: bool) -> Seq<Seq<char>>
    decreases refs.len(),
{
    if refs.len() == 0 {
        Seq::empty()
    } else {
        let rest = known_refs(text, refs.drop_last(), known);
        if (located(text, refs.last()) is Some) == known {
            rest.push(refs.last())
        } else {
            rest
        }
    }
}

fn sort_refs(text: &[char], refs: &Vec<String>, known: bool) -> (out: Vec<String>)
    ensures
        strings(out@) == known_refs(text@, strings(refs@), known),
{
    let ghost all = strings(refs@);
    let mut out: Vec<String> = Vec::new();
    let mut i: usize = 0;
    proof {
        assert(all.take(0).len() == 0);
        assert(strings(out@) =~= Seq::empty());
    }
    while i < refs.len()
        invariant
            i <= refs@.len(),
            all == strings(refs@),
            strings(out@) == known_refs(text@, all.take(i as int), known),
        decreases refs@.len() - i,
    {
        proof {
            assert(all.take(i + 1).drop_last() =~= all.take(i as int));
            assert(all.take(i + 1).last() == refs@[i as int]@);
        }
        if locate(text, refs[i].as_str()).is_some() == known {
            let ghost done = out@;
            let r = refs[i].clone();
            out.push(r);
            proof {
                assert(strings(out@) =~= strings(done).push(r@));
            }
        }
        i += 1;
    }
    proof {
        assert(all.take(all.len() as int) =~= all);
    }
    out
}

/// None of the references is there.
pub open spec fn none_found(all: Seq<char>) -> Seq<char> {
    "None of the requested refs found: "@ + all
}

fn write_none_found(all: &str) -> (out: String)
    ensures
        out@ == none_found(all@),
{
    let mut out = to_chars("None of the requested refs found: ");
    extend_str(&mut out, all);
    proof {
        assert(out@ =~= none_found(all@));
    }
    to_text(out.as_slice())
}

/// Which parts went.
pub open spec fn parts_gone(n: nat, list: Seq<char>) -> Seq<char> {
    "Removed "@ + decimal(n) + " component(s): "@ + list
}

fn write_parts_gone(n: usize, list: &str) -> (out: String)
    ensures
        out@ == parts_gone(n as nat, list@),
{
    let mut out = to_chars("Removed ");
    let digits = number(n);
    extend(&mut out, digits.as_slice());
    extend_str(&mut out, " component(s): ");
    extend_str(&mut out, list);
    proof {
        assert(out@ =~= parts_gone(n as nat, list@));
    }
    to_text(out.as_slice())
}

/// Which references were passed over.
pub open spec fn parts_skipped(list: Seq<char>) -> Seq<char> {
    "\nNot found (skipped): "@ + list
}

fn write_parts_skipped(list: &str) -> (out: String)
    ensures
        out@ == parts_skipped(list@),
{
    let mut out = to_chars("\nNot found (skipped): ");
    extend_str(&mut out, list);
    proof {
        assert(out@ =~= parts_skipped(list@));
    }
    to_text(out.as_slice())
}

/// What is told of parts that were taken away.
pub open spec fn removal_text(found: Seq<Seq<char>>, missing: Seq<Seq<char>>) -> Seq<char> {
    let head = parts_gone(found.len(), joined(found, ", "@));
    if missing.len() > 0 {
        head + parts_skipped(joined(missing, ", "@))
    } else {
        head
    }
}

/// A board with parts taken away.
pub open spec fn with_parts_gone(text: Seq<char>, refs: Seq<Seq<char>>) -> Result<
    (Seq<char>, Seq<char>),
    Seq<char>,
> {
    let found = known_refs(text, refs, true);
    if found.len() == 0 {
        Err(none_found(joined(refs, ", "@)))
    } else {
        Ok((without_parts(text, found), removal_text(found, known_refs(text, refs, false))))
    }
}

/// Takes the named parts off a board; references that it does not have are passed over.
pub fn delete_component(content: &str, refs: &Vec<String>) -> (out: Result<Edit, String>)
    ensures
        edit_model(out) == with_parts_gone(content@, strings(refs@)),
{
    let text = to_chars(content);
    let found = sort_refs(text.as_slice(), refs, true);
    let missing = sort_refs(text.as_slice(), refs, false);
    proof {
        assert(strings(found@).len() == found@.len());
        assert(strings(missing@).len() == missing@.len());
    }
    if found.len() == 0 {
        let all = join(refs, ", ");
        return Err(write_none_found(all.as_str()));
    }
    let list = join(&found, ", ");
    let mut said = to_chars(write_parts_gone(found.len(), list.as_str()).as_str());
    if missing.len() > 0 {
        let rest = join(&missing, ", ");
        let more = write_parts_skipped(rest.as_str());
        extend_str(&mut said, more.as_str());
    }
    Ok(
        Edit {
            content: remove_footprints(content, &found),
            summary: to_text(said.as_slice()),
        },
    )
}

/// A pad of a new footprint. Sizes and places are in nanometres.
#[derive(Debug)]
pub struct PadSpec {
    pub number: String,
    pub pad_type: String,
    pub shape: String,
    pub x: i64,
    pub y: i64,
    pub size_x: i64,
    pub size_y: i64,
    pub drill: Option<i64>,
}

/// The least and greatest coordinates that pads reach, across and down.
#[derive(Debug, Clone, Copy)]
pub struct Reach {
    pub x_min: i128,
    pub y_min: i128,
    pub x_max: i128,
    pub y_max: i128,
}

pub open spec fn lower(a: int, b: int) -> int {
    if a <= b {
        a
    } else {
        b
    }
}

pub open spec fn upper(a: int, b: int) -> int {
    if a >= b {
        a
    } else {
        b
    }
}

/// The least coordinate that the pads reach, across or down.
pub open spec fn least_reach(pads: Seq<PadSpec>, across: bool) -> int
    decreases pads.len(),
{
    let p = pads.last();
    let edge = if across {
        p.x - half(p.size_x as int)
    } else {
        p.y - half(p.size_y as int)
    };
    if pads.len() <= 1 {
        edge
    } else {
        lower(least_reach(pads.drop_last(), across), edge)
    }
}

/// The greatest coordinate that the pads reach, across or down.
pub open spec fn most_reach(pads: Seq<PadSpec>, across: bool) -> int
    decreases pads.len(),
{
    let p = pads.last();
    let edge = if across {
        p.x + half(p.size_x as int)
    } else {
        p.y + half(p.size_y as int)
    };
    if pads.len() <= 1 {
        edge
    } else {
        upper(most_reach(pads.drop_last(), across), edge)
    }
}

/// Half a size, in whole nanometres.
pub open spec fn half(n: int) -> int {
    if n >= 0 {
        n / 2
    } else {
        -((-n) / 2)
    }
}

fn halve(n: i64) -> (h: i128)
    ensures
        h == half(n as int),
        -0x4000_0000_0000_0000 <= h <= 0x4000_0000_0000_0000,
{
    let n: i128 = n as i128;
    if n >= 0 {
        n / 2
    } else {
        -((-n) / 2)
    }
}

pub open spec fn far(n: int) -> bool {
    !(-0x1_0000_0000_0000_0000 <= n <= 0x1_0000_0000_0000_0000)
}

fn measure(pads: &Vec<PadSpec>) -> (r: Reach)
    requires
        pads@.len() > 0,
    ensures
        r.x_min == least_reach(pads@, true),
        r.y_min == least_reach(pads@, false),
        r.x_max == most_reach(pads@, true),
        r.y_max == most_reach(pads@, false),
        !far(r.x_min as int) && !far(r.y_min as int) && !far(r.x_max as int) && !far(
            r.y_max as int,
        ),
{
    let p = &pads[0];
    let mut r = Reach {
        x_min: p.x as i128 - halve(p.size_x),
        y_min: p.y as i128 - halve(p.size_y),
        x_max: p.x as i128 + halve(p.size_x),
        y_max: p.y as i128 + halve(p.size_y),
    };
    let mut i: usize = 1;
    proof {
        assert(pads@.take(1).last() == pads@[0]);
    }
    while i < pads.len()
        invariant
            1 <= i <= pads@.len(),
            r.x_min == least_reach(pads@.take(i as int), true),
            r.y_min == least_reach(pads@.take(i as int), false),
            r.x_max == most_reach(pads@.take(i as int), true),
            r.y_max == most_reach(pads@.take(i as int), false),
            !far(r.x_min as int) && !far(r.y_min as int) && !far(r.x_max as int) && !far(
                r.y_max as int,
            ),
        decreases pads@.len() - i,
    {
        proof {
            assert(pads@.take(i + 1).drop_last() =~= pads@.take(i as int));
            assert(pads@.take(i + 1).last() == pads@[i as int]);
        }
        let p = &pads[i];
        let left: i128 = p.x as i128 - halve(p.size_x);
        let top: i128 = p.y as i128 - halve(p.size_y);
        let right: i128 = p.x as i128 + halve(p.size_x);
        let bottom: i128 = p.y as i128 + halve(p.size_y);
        r = Reach {
            x_min: if r.x_min <= left {
                r.x_min
            } else {
                left
            },
            y_min: if r.y_min <= top {
                r.y_min
            } else {
                top
            },
            x_max: if r.x_max >= right {
                r.x_max
            } else {
                right
            },
            y_max: if r.y_max >= bottom {
                r.y_max
            } else {
                bottom
            },
        };
        i += 1;
    }
    proof {
        assert(pads@.take(pads@.len() as int) =~= pads@);
    }
    r
}

/// Every pad with a size that is not negative lies within what the pads reach.
pub proof fn lemma_pads_within_reach(pads: Seq<PadSpec>, i: int)
    requires
        0 <= i < pads.len(),
        pads[i].size_x >= 0,
        pads[i].size_y >= 0,
    ensures
        least_reach(pads, true) <= pads[i].x - half(pads[i].size_x as int),
        pads[i].x + half(pads[i].size_x as int) <= most_reach(pads, true),
        least_reach(pads, false) <= pads[i].y - half(pads[i].size_y as int),
        pads[i].y + half(pads[i].size_y as int) <= most_reach(pads, false),
    decreases pads.len(),
{
    if i < pads.len() - 1 {
        assert(pads.drop_last()[i] == pads[i]);
        lemma_pads_within_reach(pads.drop_last(), i);
    }
}

/// The layers that a pad of a kind is on.
pub open spec fn layers_for(pad_type: Seq<char>) -> Seq<char> {
    if pad_type == "smd"@ {
        "(layers \"F.Cu\" \"F.Paste\" \"F.Mask\")"@
    } else {
        "(layers \"*.Cu\" \"*.Mask\")"@
    }
}

/// The shape that a pad gets: the first one is a rectangle, and what is not known is a
/// circle.
pub open spec fn shape_for(number: Seq<char>, shape: Seq<char>) -> Seq<char> {
    if number == "1"@ || shape == "rect"@ {
        "rect"@
    } else if shape == "oval"@ {
        "oval"@
    } else {
        "circle"@
    }
}

/// The hole of a pad.
pub open spec fn drill_text(drill: Option<i64>) -> Seq<char> {
    match drill {
        Some(d) => " (drill "@ + plain(d as int) + ")"@,
        None => Seq::empty(),
    }
}

/// A pad of a new footprint.
pub open spec fn new_pad(number: Seq<char>, kind: Seq<char>, shape: Seq<char>, x: int, y: int, w: int, h: int, drill: Seq<char>, layers: Seq<char>) -> Seq<char> {
    "  (pad \""@ + number + "\" "@ + kind + " "@ + shape + " (at "@ + plain(x) + " "@ + plain(y)
        + ") (size "@ + plain(w) + " "@ + plain(h) + ")"@ + drill + " "@ + layers + ")\n"@
}

fn write_new_pad(number: &str, kind: &str, shape: &str, x: i64, y: i64, w: i64, h: i64, drill: &str, layers: &str) -> (out: String)
    ensures
        out@ == new_pad(number@, kind@, shape@, x as int, y as int, w as int, h as int, drill@, layers@),
{
    let mut out = to_chars("  (pad \"");
    extend_str(&mut out, number);
    extend_str(&mut out, "\" ");
    extend_str(&mut out, kind);
    extend_str(&mut out, " ");
    extend_str(&mut out, shape);
    extend_str(&mut out, " (at ");
    extend_plain(&mut out, x);
    extend_str(&mut out, " ");
    extend_plain(&mut out, y);
    extend_str(&mut out, ") (size ");
    extend_plain(&mut out, w);
    extend_str(&mut out, " ");
    extend_plain(&mut out, h);
    extend_str(&mut out, ")");
    extend_str(&mut out, drill);
    extend_str(&mut out, " ");
    extend_str(&mut out, layers);
    extend_str(&mut out, ")\n");
    proof {
        assert(out@ =~= new_pad(number@, kind@, shape@, x as int, y as int, w as int, h as int, drill@, layers@));
    }
    to_text(out.as_slice())
}

/// A pad of a new footprint.
pub open spec fn pad_text(p: PadSpec) -> Seq<char> {
    new_pad(
        p.number@,
        p.pad_type@,
        shape_for(p.number@, p.shape@),
        p.x as int,
        p.y as int,
        p.size_x as int,
        p.size_y as int,
        drill_text(p.drill),
        layers_for(p.pad_type@),
    )
}

pub open spec fn pads_text(pads: Seq<PadSpec>) -> Seq<char>
    decreases pads.len(),
{
    if pads.len() == 0 {
        Seq::empty()
    } else {
        pads_text(pads.drop_last()) + pad_text(pads.last())
    }
}

fn write_drill(drill: Option<i64>) -> (out: String)
    ensures
        out@ == drill_text(drill),
{
    let mut out: Vec<char> = Vec::new();
    match drill {
        Some(d) => {
            extend_str(&mut out, " (drill ");
            extend_plain(&mut out, d);
            extend_str(&mut out, ")");
        },
        None => {},
    }
    proof {
        assert(out@ =~= drill_text(drill));
    }
    to_text(out.as_slice())
}

fn write_pad(p: &PadSpec) -> (out: String)
    ensures
        out@ == pad_text(*p),
{
    let drill = write_drill(p.drill);
    let layers: &str = if same_str(p.pad_type.as_str(), "smd") {
        "(layers \"F.Cu\" \"F.Paste\" \"F.Mask\")"
    } else {
        "(layers \"*.Cu\" \"*.Mask\")"
    };
    let shape: &str = if same_str(p.number.as_str(), "1") || same_str(p.shape.as_str(), "rect") {
        "rect"
    } else if same_str(p.shape.as_str(), "oval") {
        "oval"
    } else {
        "circle"
    };
    write_new_pad(
        p.number.as_str(),
        p.pad_type.as_str(),
        shape,
        p.x,
        p.y,
        p.size_x,
        p.size_y,
        drill.as_str(),
        layers,
    )
}

fn write_pads(pads: &Vec<PadSpec>) -> (out: String)
    ensures
        out@ == pads_text(pads@),
{
    let mut out: Vec<char> = Vec::new();
    let mut i: usize = 0;
    proof {
        assert(pads@.take(0).len() == 0);
        assert(out@ =~= pads_text(pads@.take(0)));
    }
    while i < pads.len()
        invariant
            i <= pads@.len(),
            out@ == pads_text(pads@.take(i as int)),
        decreases pads@.len() - i,
    {
        proof {
            assert(pads@.take(i + 1).drop_last() =~= pads@.take(i as int));
            assert(pads@.take(i + 1).last() == pads@[i as int]);
        }
        let line = write_pad(&pads[i]);
        extend_str(&mut out, line.as_str());
        i += 1;
    }
    proof {
        assert(pads@.take(pads@.len() as int) =~= pads@);
    }
    to_text(out.as_slice())
}

/// Whether any pad lies on the surface alone.
pub open spec fn any_surface(pads: Seq<PadSpec>) -> bool {
    exists|i: int| 0 <= i < pads.len() && (#[trigger] pads[i]).pad_type@ == "smd"@
}

fn has_surface(pads: &Vec<PadSpec>) -> (yes: bool)
    ensures
        yes == any_surface(pads@),
{
    let mut i: usize = 0;
    while i < pads.len()
        invariant
            i <= pads@.len(),
            forall|j: int| 0 <= j < i ==> (#[trigger] pads@[j]).pad_type@ != "smd"@,
        decreases pads@.len() - i,
    {
        if same_str(pads[i].pad_type.as_str(), "smd") {
            return true;
        }
        i += 1;
    }
    false
}

/// A new footprint, up to its pads.
pub open spec fn footprint_head(name: Seq<char>, descr: Seq<char>, tags: Seq<char>, attr: Seq<char>, above: int, below: int) -> Seq<char> {
    "(footprint \""@ + name
        + "\" (version 20211014) (generator pcbnew)\n(layer \"F.Cu\")\n(descr \""@ + descr
        + "\")\n(tags \""@ + tags + "\")\n(attr "@ + attr
        + ")\n(fp_text reference \"REF**\" (at 0 "@ + plain(above)
        + ") (layer \"F.SilkS\")\n(effects (font (size 1 1) (thickness 0.15)))\n)\n(fp_text value \""@
        + name + "\" (at 0 "@ + plain(below)
        + ") (layer \"F.Fab\")\n(effects (font (size 1 1) (thickness 0.15)))\n)\n"@
}

fn write_footprint_head(name: &str, descr: &str, tags: &str, attr: &str, above: i64, below: i64) -> (out: String)
    ensures
        out@ == footprint_head(name@, descr@, tags@, attr@, above as int, below as int),
{
    let mut out = to_chars("(footprint \"");
    extend_str(&mut out, name);
    extend_str(&mut out, "\" (version 20211014) (generator pcbnew)\n(layer \"F.Cu\")\n(descr \"");
    extend_str(&mut out, descr);
    extend_str(&mut out, "\")\n(tags \"");
    extend_str(&mut out, tags);
    extend_str(&mut out, "\")\n(attr ");
    extend_str(&mut out, attr);
    extend_str(&mut out, ")\n(fp_text reference \"REF**\" (at 0 ");
    extend_plain(&mut out, above);
    extend_str(&mut out, ") (layer \"F.SilkS\")\n(effects (font (size 1 1) (thickness 0.15)))\n)\n(fp_text value \"");
    extend_str(&mut out, name);
    extend_str(&mut out, "\" (at 0 ");
    extend_plain(&mut out, below);
    extend_str(&mut out, ") (layer \"F.Fab\")\n(effects (font (size 1 1) (thickness 0.15)))\n)\n");
    proof {
        assert(out@ =~= footprint_head(name@, descr@, tags@, attr@, above as int, below as int));
    }
    to_text(out.as_slice())
}

/// The outline of a new footprint.
pub open spec fn footprint_tail(x1: int, y1: int, x2: int, y2: int) -> Seq<char> {
    "(fp_rect (start "@ + plain(x1) + " "@ + plain(y1) + ") (end "@ + plain(x2) + " "@
        + plain(y2) + ") (layer \"F.CrtYd\") (width 0.05) (fill none))\n)"@
}

fn write_footprint_tail(x1: i64, y1: i64, x2: i64, y2: i64) -> (out: String)
    ensures
        out@ == footprint_tail(x1 as int, y1 as int, x2 as int, y2 as int),
{
    let mut out = to_chars("(fp_rect (start ");
    extend_plain(&mut out, x1);
    extend_str(&mut out, " ");
    extend_plain(&mut out, y1);
    extend_str(&mut out, ") (end ");
    extend_plain(&mut out, x2);
    extend_str(&mut out, " ");
    extend_plain(&mut out, y2);
    extend_str(&mut out, ") (layer \"F.CrtYd\") (width 0.05) (fill none))\n)");
    proof {
        assert(out@ =~= footprint_tail(x1 as int, y1 as int, x2 as int, y2 as int));
    }
    to_text(out.as_slice())
}

/// A new footprint. What is not given is empty; the room around the pads is 0.25 mm.
#[derive(Debug)]
pub struct CreateFootprintParams {
    pub library_path: String,
    pub name: String,
    pub description: Option<String>,
    pub tags: Option<String>,
    pub pads: Vec<PadSpec>,
    pub courtyard_margin: Option<i64>,
}

pub open spec fn margin_of(f: CreateFootprintParams) -> int {
    match f.courtyard_margin {
        Some(m) => m as int,
        None => 250_000,
    }
}

pub open spec fn string_or_empty(t: Option<String>) -> Seq<char> {
    match t {
        Some(t) => t@,
        None => ""@,
    }
}

/// Whether the outline of a footprint and the texts above and below it stay in range.
pub open spec fn can_draw(f: CreateFootprintParams) -> bool {
    let m = margin_of(f);
    &&& f.pads@.len() > 0
    &&& fits(least_reach(f.pads@, true) - m)
    &&& fits(least_reach(f.pads@, false) - m)
    &&& fits(most_reach(f.pads@, true) + m)
    &&& fits(most_reach(f.pads@, false) + m)
    &&& fits(least_reach(f.pads@, false) - m - m - 1_500_000)
    &&& fits(most_reach(f.pads@, false) + m + m + 1_500_000)
}

/// The file of a new footprint; none if it has no pads or ends out of range.
pub open spec fn footprint_file(f: CreateFootprintParams) -> Option<Seq<char>> {
    let m = margin_of(f);
    if can_draw(f) {
        let left = least_reach(f.pads@, true) - m;
        let top = least_reach(f.pads@, false) - m;
        let right = most_reach(f.pads@, true) + m;
        let bottom = most_reach(f.pads@, false) + m;
        Some(
            footprint_head(
                f.name@,
                string_or_empty(f.description),
                string_or_empty(f.tags),
                if any_surface(f.pads@) {
                    "smd"@
                } else {
                    "through_hole"@
                },
                top - m - 1_500_000,
                bottom + m + 1_500_000,
            ) + pads_text(f.pads@) + footprint_tail(left, top, right, bottom),
        )
    } else {
        None
    }
}

fn in_range(n: i128) -> (yes: bool)
    ensures
        yes == fits(n as int),
{
    -0x8000_0000_0000_0000 <= n && n <= 0x7fff_ffff_ffff_ffff
}

fn str_or_empty(t: &Option<String>) -> (out: &str)
    ensures
        out@ == string_or_empty(*t),
{
    match t {
        Some(t) => t.as_str(),
        None => "",
    }
}

/// Writes the file of a new footprint: its pads, an outline with some room around them,
/// its reference above and its name below.
pub fn create_footprint(f: &CreateFootprintParams) -> (out: Option<String>)
    ensures
        (match out {
            Some(t) => Some(t@),
            None => None,
        }) == footprint_file(*f),
{
    if f.pads.len() == 0 {
        return None;
    }
    let m: i128 = match f.courtyard_margin {
        Some(m) => m as i128,
        None => 250_000,
    };
    let r = measure(&f.pads);
    let left: i128 = r.x_min - m;
    let top: i128 = r.y_min - m;
    let right: i128 = r.x_max + m;
    let bottom: i128 = r.y_max + m;
    let above: i128 = top - m - 1_500_000;
    let below: i128 = bottom + m + 1_500_000;
    if !(in_range(left) && in_range(top) && in_range(right) && in_range(bottom) && in_range(above)
        && in_range(below)) {
        return None;
    }
    let attr: &str = if has_surface(&f.pads) {
        "smd"
    } else {
        "through_hole"
    };
    let mut out = to_chars(
        write_footprint_head(
            f.name.as_str(),
            str_or_empty(&f.description),
            str_or_empty(&f.tags),
            attr,
            above as i64,
            below as i64,
        ).as_str(),
    );
    let pads = write_pads(&f.pads);
    extend_str(&mut out, pads.as_str());
    let tail = write_footprint_tail(left as i64, top as i64, right as i64, bottom as i64);
    extend_str(&mut out, tail.as_str());
    Some(to_text(out.as_slice()))
}

/// Which footprint was made, and where.
pub open spec fn footprint_made(name: Seq<char>, path: Seq<char>, n: nat) -> Seq<char> {
    "Created footprint '"@ + name + "' at "@ + path + "\n"@ + decimal(n) + " pad(s) defined."@
}

pub fn write_footprint_made(name: &str, path: &str, n: usize) -> (out: String)
    ensures
        out@ == footprint_made(name@, path@, n as nat),
{
    let mut out = to_chars("Created footprint '");
    extend_str(&mut out, name);
    extend_str(&mut out, "' at ");
    extend_str(&mut out, path);
    extend_str(&mut out, "\n");
    let digits = number(n);
    extend(&mut out, digits.as_slice());
    extend_str(&mut out, " pad(s) defined.");
    proof {
        assert(out@ =~= footprint_made(name@, path@, n as nat));
    }
    to_text(out.as_slice())
}

/// The name of a footprint with that of its library.
pub open spec fn full_name(library: Seq<char>, name: Seq<char>) -> Seq<char> {
    library + ":"@ + name
}

fn write_full_name(library: &str, name: &str) -> (out: String)
    ensures
        out@ == full_name(library@, name@),
{
    let mut out = to_chars(library);
    extend_str(&mut out, ":");
    extend_str(&mut out, name);
    proof {
        assert(out@ =~= full_name(library@, name@));
    }
    to_text(out.as_slice())
}

/// How a footprint with a name begins.
pub open spec fn name_mark(name: Seq<char>) -> Seq<char> {
    "(footprint \""@ + name + "\""@
}

fn write_name_mark(name: &str) -> (out: String)
    ensures
        out@ == name_mark(name@),
{
    let mut out = to_chars("(footprint \"");
    extend_str(&mut out, name);
    extend_str(&mut out, "\"");
    proof {
        assert(out@ =~= name_mark(name@));
    }
    to_text(out.as_slice())
}

/// The identifier of a footprint.
pub open spec fn stamp_text(stamp: Seq<char>) -> Seq<char> {
    "\n  (tstamp "@ + stamp + ")\n  "@
}

fn write_stamp_text(stamp: &str) -> (out: String)
    ensures
        out@ == stamp_text(stamp@),
{
    let mut out = to_chars("\n  (tstamp ");
    extend_str(&mut out, stamp);
    extend_str(&mut out, ")\n  ");
    proof {
        assert(out@ =~= stamp_text(stamp@));
    }
    to_text(out.as_slice())
}

/// A part to be placed on a board.
#[derive(Debug, Clone, Copy)]
pub struct NewPart<'a> {
    pub library: &'a str,
    pub footprint: &'a str,
    pub reference: &'a str,
    pub value: &'a str,
    pub x: i64,
    pub y: i64,
    pub rotation: Option<i64>,
    pub stamp: &'a str,
}

pub open spec fn turned_by(p: NewPart) -> int {
    match p.rotation {
        Some(r) => r as int,
        None => 0,
    }
}

/// The file of a footprint with its full name, and behind the name an identifier and
/// where it stands.
pub open spec fn with_stand(file: Seq<char>, p: NewPart) -> Seq<char> {
    let named = with_footprint_name(file, full_name(p.library@, p.footprint@));
    let mark = name_mark(full_name(p.library@, p.footprint@));
    match find(named, mark, 0) {
        None => named,
        Some(at) => {
            let behind = at + mark.len();
            spliced(
                named,
                behind,
                behind,
                stamp_text(p.stamp@) + place_text(p.x as int, p.y as int, turned_by(p)),
            )
        },
    }
}

/// The block of a part on a board, made from the file of its footprint, one indent deep.
pub open spec fn part_block(file: Seq<char>, p: NewPart) -> Seq<char> {
    "  "@ + with_value(replaced(with_stand(file, p), "REF**"@, p.reference@), p.value@)
}

fn set_stand(file: &[char], p: NewPart) -> (out: Vec<char>)
    ensures
        out@ == with_stand(file@, p),
{
    let name = write_full_name(p.library, p.footprint);
    let named = set_footprint_name(file, name.as_str());
    let mark = to_chars(write_name_mark(name.as_str()).as_str());
    proof {
        reveal_strlit("(footprint \"");
        lemma_find_is_first(named@, mark@, 0);
    }
    match find_from(named.as_slice(), mark.as_slice(), 0) {
        None => named,
        Some(at) => {
            let behind: usize = at + mark.len();
            let turn: i64 = match p.rotation {
                Some(r) => r,
                None => 0,
            };
            let mut new = to_chars(write_stamp_text(p.stamp).as_str());
            let place = write_place(p.x, p.y, turn);
            extend(&mut new, place.as_slice());
            splice(named.as_slice(), behind, behind, new.as_slice())
        },
    }
}

/// Makes the block of a part on a board from the file of its footprint.
pub fn kicad_mod_to_pcb_footprint(file: &str, p: NewPart) -> (out: String)
    ensures
        out@ == part_block(file@, p),
{
    let text = to_chars(file);
    let standing = set_stand(text.as_slice(), p);
    let old_ = to_chars("REF**");
    let new = to_chars(p.reference);
    let named = replace(standing.as_slice(), old_.as_slice(), new.as_slice());
    let valued = set_value(named.as_slice(), p.value);
    let mut out = to_chars("  ");
    extend(&mut out, valued.as_slice());
    to_text(out.as_slice())
}

/// A footprint that cannot be read.
pub open spec fn unreadable(library: Seq<char>, name: Seq<char>) -> Seq<char> {
    "Failed to read footprint '"@ + library + "/"@ + name + "'."@
}

fn write_unreadable(library: &str, name: &str) -> (out: String)
    ensures
        out@ == unreadable(library@, name@),
{
    let mut out = to_chars("Failed to read footprint '");
    extend_str(&mut out, library);
    extend_str(&mut out, "/");
    extend_str(&mut out, name);
    extend_str(&mut out, "'.");
    proof {
        assert(out@ =~= unreadable(library@, name@));
    }
    to_text(out.as_slice())
}

/// Which part was added, and where.
pub open spec fn part_added(library: Seq<char>, name: Seq<char>, reference: Seq<char>, value: Seq<char>, x: int, y: int, turn: int) -> Seq<char> {
    "Added "@ + library + ":"@ + name + " as "@ + reference + " ("@ + value + ") at ("@
        + plain(x) + ", "@ + plain(y) + ", rot="@ + plain(turn) + "°)"@
}

fn write_part_added(library: &str, name: &str, reference: &str, value: &str, x: i64, y: i64, turn: i64) -> (out: String)
    ensures
        out@ == part_added(library@, name@, reference@, value@, x as int, y as int, turn as int),
{
    let mut out = to_chars("Added ");
    extend_str(&mut out, library);
    extend_str(&mut out, ":");
    extend_str(&mut out, name);
    extend_str(&mut out, " as ");
    extend_str(&mut out, reference);
    extend_str(&mut out, " (");
    extend_str(&mut out, value);
    extend_str(&mut out, ") at (");
    extend_plain(&mut out, x);
    extend_str(&mut out, ", ");
    extend_plain(&mut out, y);
    extend_str(&mut out, ", rot=");
    extend_plain(&mut out, turn);
    extend_str(&mut out, "°)");
    proof {
        assert(out@ =~= part_added(library@, name@, reference@, value@, x as int, y as int, turn as int));
    }
    to_text(out.as_slice())
}

/// Places a part on a board; `asked` is the name by which its library was asked for.
pub fn add_component(content: &str, file: &str, asked: &str, p: NewPart) -> (out: Result<Edit, String>)
    ensures
        edit_model(out) == (if file@.len() == 0 {
            Err(unreadable(asked@, p.footprint@))
        } else {
            Ok(
                (
                    inserted(content@, part_block(file@, p)),
                    part_added(
                        p.library@,
                        p.footprint@,
                        p.reference@,
                        p.value@,
                        p.x as int,
                        p.y as int,
                        turned_by(p),
                    ),
                ),
            )
        }),
{
    let chars = to_chars(file);
    if chars.len() == 0 {
        return Err(write_unreadable(asked, p.footprint));
    }
    let block = to_chars(kicad_mod_to_pcb_footprint(file, p).as_str());
    let turn: i64 = match p.rotation {
        Some(r) => r,
        None => 0,
    };
    Ok(
        Edit {
            content: insert_element(content, block.as_slice()),
            summary: write_part_added(
                p.library,
                p.footprint,
                p.reference,
                p.value,
                p.x,
                p.y,
                turn,
            ),
        },
    )
}

} // verus!
