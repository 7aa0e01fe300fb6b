//! Parts on the board: where their pads are, and moving them.
//!
//! Turning takes the cosine and the sine of the angle of a footprint in billionths.

use crate::decimal::parse_nanometres;
use crate::edits::{answer_model, edit_model, Edit};
use crate::fields::{loose_point, read_point, xy_numerals};
use crate::footprints::{
    footprint_table, footprints, is_table_of, lemma_footprint_get, lemma_footprints, read_placement,
    replace_at, span_list, with_placement,
};
use crate::pads::{
    extract_pad_at, extract_pad_number, extract_pad_size, extract_pcb_pad_net, length_of, or_zeros,
    pad_number, pad_size, place_or_origin,
};
use crate::placing::{first_on_line, is_first_on_line, place_text, turn_and_move, turned, write_place};
use crate::sexpr::{block_end, end_of_block, lemma_close_bounds, pair, quoted, quoted_after, Span};
use crate::strings::{join, joined, strings};
use crate::tables::place;
use crate::text::{
    contains, extend_str, find, find_from, has_str, lemma_find_is_first, same_str, splice, spliced,
    to_chars, to_text,
};
use crate::traces::field_or_empty;
use crate::units::{extend_fixed, extend_length, extend_plain, fixed, plain, thousandths};
use vstd::prelude::*;
use vstd::slice::slice_subrange;

verus! {

/// The block of the footprint with a reference.
pub open spec fn located(text: Seq<char>, reference: Seq<char>) -> Option<(int, int)> {
    match place(footprints(text), reference) {
        None => None,
        Some(i) => Some(footprints(text)[i].1),
    }
}

/// Finds the block of the footprint with a reference.
pub fn locate(text: &[char], reference: &str) -> (found: Option<Span>)
    ensures
        (match found {
            Some(s) => Some(pair(s)),
            None => None,
        }) == located(text@, reference@),
        found matches Some(s) ==> s.start < s.end <= text@.len(),
{
    let table = footprint_table(text);
    proof {
        lemma_footprint_get(&table, text@, reference@);
        lemma_footprints(text@);
    }
    match table.get(reference) {
        Some(s) => Some(Span { start: s.start, end: s.end }),
        None => None,
    }
}

/// Where a footprint stands: across, down and turn, zeros if nothing says so.
pub open spec fn stands_at(block: Seq<char>) -> (int, int, int) {
    let p = place_or_origin(block);
    (length_of(p.0), length_of(p.1), length_of(p.2))
}

fn length(text: &str) -> (n: i64)
    ensures
        n == length_of(text@),
{
    let chars = to_chars(text);
    match parse_nanometres(chars.as_slice()) {
        Some(n) => n,
        None => 0,
    }
}

/// Reads where a footprint stands.
pub fn read_stand(block: &[char]) -> (p: (i64, i64, i64))
    ensures
        (p.0 as int, p.1 as int, p.2 as int) == stands_at(block@),
{
    match read_placement(block) {
        Some(p) => (length(p.0.as_str()), length(p.1.as_str()), length(p.2.as_str())),
        None => (length("0"), length("0"), length("0")),
    }
}

/// Where the footprint with a reference stands: across, down and turn.
pub fn find_footprint(content: &str, reference: &str) -> (found: Option<(i64, i64, i64)>)
    ensures
        (match found {
            Some(p) => Some((p.0 as int, p.1 as int, p.2 as int)),
            None => None,
        }) == (match located(content@, reference@) {
            Some(s) => Some(stands_at(content@.subrange(s.0, s.1))),
            None => None,
        }),
{
    let text = to_chars(content);
    match locate(text.as_slice(), reference) {
        None => None,
        Some(s) => Some(read_stand(slice_subrange(text.as_slice(), s.start, s.end))),
    }
}

/// A pad and where it is on the board.
#[derive(Debug)]
pub struct PadSpot {
    pub number: String,
    pub x: i64,
    pub y: i64,
    pub layer: String,
}

/// A pad and where it is, in texts and numbers.
#[verifier::ext_equal]
pub struct SpotModel {
    pub number: Seq<char>,
    pub x: int,
    pub y: int,
    pub layer: Seq<char>,
}

pub open spec fn spot_model(s: PadSpot) -> SpotModel {
    SpotModel { number: s.number@, x: s.x as int, y: s.y as int, layer: s.layer@ }
}

pub open spec fn spot_models(list: Seq<PadSpot>) -> Seq<SpotModel> {
    list.map_values(|s: PadSpot| spot_model(s))
}

/// The first layer that a pad names.
pub open spec fn first_layer(block: Seq<char>) -> Seq<char> {
    match quoted_after(block, "(layers \""@) {
        Some(l) => l,
        None => "?"@,
    }
}

/// The pads of a footprint from a place on, where they stand in it. A pad without a
/// point does not count.
pub open spec fn spots_from(block: Seq<char>, from: int) -> Seq<SpotModel>
    decreases block.len() - from,
    when 0 <= from
    via spots_decreases
{
    match find(block, "(pad \""@, from) {
        None => Seq::empty(),
        Some(at) => if first_on_line(block, at) {
            let end = end_of_block(block, at);
            let pad = block.subrange(at, end);
            let rest = spots_from(block, end);
            match pad_point(pad) {
                None => rest,
                Some(p) => seq![
                    SpotModel {
                        number: field_or_empty(pad, "(pad \""@),
                        x: p.0,
                        y: p.1,
                        layer: first_layer(pad),
                    },
                ] + rest,
            }
        } else {
            spots_from(block, at + 1)
        },
    }
}

#[via_fn]
proof fn spots_decreases(block: Seq<char>, from: int) {
    reveal_strlit("(pad \"");
    lemma_find_is_first(block, "(pad \""@, from);
    match find(block, "(pad \""@, from) {
        None => {},
        Some(at) => {
            lemma_close_bounds(block, at, 0, false);
        },
    }
}

/// Where a pad stands in its footprint.
pub open spec fn pad_point(pad: Seq<char>) -> Option<(int, int)> {
    match find(pad, "(at "@, 0) {
        None => None,
        Some(at) => loose_point(pad, at + 4),
    }
}

fn read_pad_point(pad: &[char]) -> (p: Option<(i64, i64)>)
    ensures
        (match p {
            Some(p) => Some((p.0 as int, p.1 as int)),
            None => None,
        }) == pad_point(pad@),
{
    let marker = to_chars("(at ");
    proof {
        reveal_strlit("(at ");
        lemma_find_is_first(pad@, marker@, 0);
    }
    match find_from(pad, marker.as_slice(), 0) {
        None => None,
        Some(at) => read_point(pad, at + 4),
    }
}

fn read_first_layer(pad: &[char]) -> (out: String)
    ensures
        out@ == first_layer(pad@),
{
    let marker = to_chars("(layers \"");
    match quoted(pad, marker.as_slice()) {
        Some(l) => to_text(l.as_slice()),
        None => "?".to_string(),
    }
}

fn read_number(pad: &[char]) -> (out: String)
    ensures
        out@ == field_or_empty(pad@, "(pad \""@),
{
    let marker = to_chars("(pad \"");
    match quoted(pad, marker.as_slice()) {
        Some(v) => to_text(v.as_slice()),
        None => {
            let out = String::new();
            proof {
                assert(out@ =~= field_or_empty(pad@, "(pad \""@));
            }
            out
        },
    }
}

fn read_spots(block: &[char]) -> (out: Vec<PadSpot>)
    ensures
        spot_models(out@) == spots_from(block@, 0),
{
    let marker = to_chars("(pad \"");
    proof {
        reveal_strlit("(pad \"");
    }
    let mut out: Vec<PadSpot> = Vec::new();
    let mut from: usize = 0;
    let ghost all = spots_from(block@, 0);
    proof {
        assert(spot_models(out@) + all =~= all);
    }
    loop
        invariant
            from <= block@.len(),
            marker@ == "(pad \""@,
            marker@.len() == 6,
            all == spot_models(out@) + spots_from(block@, from as int),
        ensures
            spot_models(out@) == all,
        decreases block@.len() - from,
    {
        proof {
            lemma_find_is_first(block@, marker@, from as int);
            assert(spot_models(out@) + Seq::<SpotModel>::empty() =~= spot_models(out@));
        }
        match find_from(block, marker.as_slice(), from) {
            None => {
                break;
            },
            Some(at) => {
                if is_first_on_line(block, at) {
                    let end: usize = block_end(block, at);
                    let pad = slice_subrange(block, at, end);
                    let ghost rest = spots_from(block@, end as int);
                    match read_pad_point(pad) {
                        None => {},
                        Some(p) => {
                            let spot = PadSpot {
                                number: read_number(pad),
                                x: p.0,
                                y: p.1,
                                layer: read_first_layer(pad),
                            };
                            let ghost done = out@;
                            out.push(spot);
                            proof {
                                assert(spot_models(out@) =~= spot_models(done).push(
                                    spot_model(spot),
                                ));
                                assert(spot_models(done) + (seq![spot_model(spot)] + rest)
                                    =~= spot_models(out@) + rest);
                            }
                        },
                    }
                    from = end;
                } else {
                    from = at + 1;
                }
            },
        }
    }
    out
}

/// A spot of a footprint, on the board.
pub open spec fn on_board(s: SpotModel, at: (int, int, int), cos: int, sin: int) -> SpotModel {
    let t = turned((s.x, s.y), cos, sin);
    SpotModel { x: at.0 + t.0, y: at.1 + t.1, ..s }
}

pub open spec fn fits(n: int) -> bool {
    i64::MIN <= n <= i64::MAX
}

/// The spots that stay in range, on the board.
pub open spec fn all_on_board(list: Seq<SpotModel>, at: (int, int, int), cos: int, sin: int) -> Seq<
    SpotModel,
>
    decreases list.len(),
{
    if list.len() == 0 {
        Seq::empty()
    } else {
        let front = all_on_board(list.drop_last(), at, cos, sin);
        let s = on_board(list.last(), at, cos, sin);
        if fits(s.x) && fits(s.y) {
            front.push(s)
        } else {
            front
        }
    }
}

/// Where the pads of a footprint are on the board.
pub open spec fn pad_positions(block: Seq<char>, cos: int, sin: int) -> Seq<SpotModel> {
    all_on_board(spots_from(block, 0), stands_at(block), cos, sin)
}

fn place_spots(block: &[char], cos: i64, sin: i64) -> (out: Vec<PadSpot>)
    requires
        -1_000_000_000 <= cos <= 1_000_000_000,
        -1_000_000_000 <= sin <= 1_000_000_000,
    ensures
        spot_models(out@) == pad_positions(block@, cos as int, sin as int),
{
    let at = read_stand(block);
    let spots = read_spots(block);
    let ghost all = spot_models(spots@);
    let ghost where_ = (at.0 as int, at.1 as int, at.2 as int);
    let mut out: Vec<PadSpot> = Vec::new();
    let mut i: usize = 0;
    proof {
        assert(all.take(0).len() == 0);
        assert(spot_models(out@) =~= Seq::empty());
    }
    while i < spots.len()
        invariant
            i <= spots@.len(),
            all == spot_models(spots@),
            where_ == (at.0 as int, at.1 as int, at.2 as int),
            -1_000_000_000 <= cos <= 1_000_000_000,
            -1_000_000_000 <= sin <= 1_000_000_000,
            spot_models(out@) == all_on_board(all.take(i as int), where_, cos as int, sin as int),
        decreases spots@.len() - i,
    {
        proof {
            assert(all.take(i + 1).drop_last() =~= all.take(i as int));
            assert(all.take(i + 1).last() == spot_model(spots@[i as int]));
        }
        let s = &spots[i];
        match turn_and_move((s.x, s.y), cos, sin, (at.0, at.1)) {
            None => {},
            Some(q) => {
                let ghost done = out@;
                let spot = PadSpot {
                    number: s.number.clone(),
                    x: q.0,
                    y: q.1,
                    layer: s.layer.clone(),
                };
                out.push(spot);
                proof {
                    assert(spot_models(out@) =~= spot_models(done).push(spot_model(spot)));
                }
            },
        }
        i += 1;
    }
    proof {
        assert(all.take(all.len() as int) =~= all);
    }
    out
}

/// Where the pads of a footprint are on the board; `cos` and `sin` are those of its
/// turn. A pad that ends out of range is left out.
pub fn extract_pad_positions(block: &str, cos: i64, sin: i64) -> (out: Vec<PadSpot>)
    requires
        -1_000_000_000 <= cos <= 1_000_000_000,
        -1_000_000_000 <= sin <= 1_000_000_000,
    ensures
        spot_models(out@) == pad_positions(block@, cos as int, sin as int),
{
    let text = to_chars(block);
    place_spots(text.as_slice(), cos, sin)
}

/// A pad in the list of all.
pub open spec fn spot_line(number: Seq<char>, x: int, y: int, layer: Seq<char>) -> Seq<char> {
    "\n  pad "@ + number + ": ("@ + fixed(x, 10_000) + ", "@ + fixed(y, 10_000) + ") ["@ + layer
        + "]"@
}

fn write_spot_line(number: &str, x: i64, y: i64, layer: &str) -> (out: String)
    ensures
        out@ == spot_line(number@, x as int, y as int, layer@),
{
    let mut out = to_chars("\n  pad ");
    extend_str(&mut out, number);
    extend_str(&mut out, ": (");
    extend_fixed(&mut out, x as i128, 10_000);
    extend_str(&mut out, ", ");
    extend_fixed(&mut out, y as i128, 10_000);
    extend_str(&mut out, ") [");
    extend_str(&mut out, layer);
    extend_str(&mut out, "]");
    proof {
        assert(out@ =~= spot_line(number@, x as int, y as int, layer@));
    }
    to_text(out.as_slice())
}

/// A pad that was asked for.
pub open spec fn spot_found(number: Seq<char>, reference: Seq<char>, layer: Seq<char>, x: int, y: int) -> Seq<char> {
    "Pad "@ + number + " of "@ + reference + " ["@ + layer + "]: ("@ + fixed(x, 10_000) + ", "@
        + fixed(y, 10_000) + ")"@
}

fn write_spot_found(number: &str, reference: &str, layer: &str, x: i64, y: i64) -> (out: String)
    ensures
        out@ == spot_found(number@, reference@, layer@, x as int, y as int),
{
    let mut out = to_chars("Pad ");
    extend_str(&mut out, number);
    extend_str(&mut out, " of ");
    extend_str(&mut out, reference);
    extend_str(&mut out, " [");
    extend_str(&mut out, layer);
    extend_str(&mut out, "]: (");
    extend_fixed(&mut out, x as i128, 10_000);
    extend_str(&mut out, ", ");
    extend_fixed(&mut out, y as i128, 10_000);
    extend_str(&mut out, ")");
    proof {
        assert(out@ =~= spot_found(number@, reference@, layer@, x as int, y as int));
    }
    to_text(out.as_slice())
}

/// A pad that is not there.
pub open spec fn spot_missing(number: Seq<char>, reference: Seq<char>) -> Seq<char> {
    "Pad "@ + number + " not found in "@ + reference
}

fn write_spot_missing(number: &str, reference: &str) -> (out: String)
    ensures
        out@ == spot_missing(number@, reference@),
{
    let mut out = to_chars("Pad ");
    extend_str(&mut out, number);
    extend_str(&mut out, " not found in ");
    extend_str(&mut out, reference);
    proof {
        assert(out@ =~= spot_missing(number@, reference@));
    }
    to_text(out.as_slice())
}

pub open spec fn spot_lines(list: Seq<SpotModel>) -> Seq<char>
    decreases list.len(),
{
    if list.len() == 0 {
        Seq::empty()
    } else {
        let s = list.last();
        spot_lines(list.drop_last()) + spot_line(s.number, s.x, s.y, s.layer)
    }
}

/// What is said of the pads with a number.
pub open spec fn spots_found(list: Seq<SpotModel>, reference: Seq<char>, number: Seq<char>) -> Seq<
    Seq<char>,
>
    decreases list.len(),
{
    if list.len() == 0 {
        Seq::empty()
    } else {
        let s = list.last();
        let front = spots_found(list.drop_last(), reference, number);
        if s.number == number {
            front.push(spot_found(s.number, reference, s.layer, s.x, s.y))
        } else {
            front
        }
    }
}

/// What is said of the pads of a footprint, or of those with a number.
pub open spec fn spots_report(list: Seq<SpotModel>, reference: Seq<char>, pad: Option<&str>) -> Seq<
    char,
> {
    match pad {
        None => "Pads for "@ + reference + ":"@ + spot_lines(list),
        Some(n) => {
            let found = spots_found(list, reference, n@);
            if found.len() == 0 {
                spot_missing(n@, reference)
            } else {
                joined(found, "\n"@)
            }
        },
    }
}

fn write_spots(list: &Vec<PadSpot>, reference: &str) -> (out: String)
    ensures
        out@ == "Pads for "@ + reference@ + ":"@ + spot_lines(spot_models(list@)),
{
    let ghost all = spot_models(list@);
    let mut out = to_chars("Pads for ");
    extend_str(&mut out, reference);
    extend_str(&mut out, ":");
    let ghost head = out@;
    let mut i: usize = 0;
    proof {
        assert(all.take(0).len() == 0);
        assert(out@ =~= head + spot_lines(all.take(0)));
    }
    while i < list.len()
        invariant
            i <= list@.len(),
            all == spot_models(list@),
            out@ == head + spot_lines(all.take(i as int)),
        decreases list@.len() - i,
    {
        proof {
            assert(all.take(i + 1).drop_last() =~= all.take(i as int));
            assert(all.take(i + 1).last() == spot_model(list@[i as int]));
        }
        let s = &list[i];
        let line = write_spot_line(s.number.as_str(), s.x, s.y, s.layer.as_str());
        extend_str(&mut out, line.as_str());
        proof {
            assert(out@ =~= head + spot_lines(all.take(i + 1)));
        }
        i += 1;
    }
    proof {
        assert(all.take(all.len() as int) =~= all);
    }
    to_text(out.as_slice())
}

/// Tells where the pads of a footprint are, or those with a number.
pub fn describe_pads(list: &Vec<PadSpot>, reference: &str, pad: Option<&str>) -> (out: String)
    ensures
        out@ == spots_report(spot_models(list@), reference@, pad),
{
    let ghost all = spot_models(list@);
    match pad {
        None => write_spots(list, reference),
        Some(n) => {
            let mut found: Vec<String> = Vec::new();
            let mut i: usize = 0;
            proof {
                assert(all.take(0).len() == 0);
                assert(strings(found@) =~= spots_found(all.take(0), reference@, n@));
            }
            while i < list.len()
                invariant
                    i <= list@.len(),
                    all == spot_models(list@),
                    strings(found@) == spots_found(all.take(i as int), reference@, n@),
                decreases list@.len() - i,
            {
                proof {
                    assert(all.take(i + 1).drop_last() =~= all.take(i as int));
                    assert(all.take(i + 1).last() == spot_model(list@[i as int]));
                }
                let s = &list[i];
                if same_str(s.number.as_str(), n) {
                    let ghost done = found@;
                    let line = write_spot_found(
                        s.number.as_str(),
                        reference,
                        s.layer.as_str(),
                        s.x,
                        s.y,
                    );
                    found.push(line);
                    proof {
                        assert(strings(found@) =~= strings(done).push(line@));
                    }
                }
                i += 1;
            }
            proof {
                assert(all.take(all.len() as int) =~= all);
                assert(strings(found@).len() == found@.len());
            }
            if found.len() == 0 {
                write_spot_missing(n, reference)
            } else {
                join(&found, "\n")
            }
        },
    }
}

/// No footprint has the reference.
pub open spec fn part_missing(reference: Seq<char>) -> Seq<char> {
    "Reference '"@ + reference + "' not found."@
}

fn write_part_missing(reference: &str) -> (out: String)
    ensures
        out@ == part_missing(reference@),
{
    let mut out = to_chars("Reference '");
    extend_str(&mut out, reference);
    extend_str(&mut out, "' not found.");
    proof {
        assert(out@ =~= part_missing(reference@));
    }
    to_text(out.as_slice())
}

/// What is answered when asked for the pads of a footprint.
pub open spec fn pads_answer(
    text: Seq<char>,
    reference: Seq<char>,
    pad: Option<&str>,
    cos: int,
    sin: int,
) -> Result<Seq<char>, Seq<char>> {
    match located(text, reference) {
        None => Err(part_missing(reference)),
        Some(s) => Ok(
            spots_report(pad_positions(text.subrange(s.0, s.1), cos, sin), reference, pad),
        ),
    }
}

/// Tells where the pads of the footprint with a reference are, or those with a number.
pub fn get_pad_position(content: &str, reference: &str, pad: Option<&str>, cos: i64, sin: i64) -> (out:
    Result<String, String>)
    requires
        -1_000_000_000 <= cos <= 1_000_000_000,
        -1_000_000_000 <= sin <= 1_000_000_000,
    ensures
        answer_model(out) == pads_answer(content@, reference@, pad, cos as int, sin as int),
{
    let text = to_chars(content);
    match locate(text.as_slice(), reference) {
        None => Err(write_part_missing(reference)),
        Some(s) => {
            let list = place_spots(slice_subrange(text.as_slice(), s.start, s.end), cos, sin);
            Ok(describe_pads(&list, reference, pad))
        },
    }
}

/// No footprint of a file has the reference.
pub open spec fn part_not_in(reference: Seq<char>, path: Seq<char>) -> Seq<char> {
    "Reference '"@ + reference + "' not found in "@ + path + "."@
}

fn write_part_not_in(reference: &str, path: &str) -> (out: String)
    ensures
        out@ == part_not_in(reference@, path@),
{
    let mut out = to_chars("Reference '");
    extend_str(&mut out, reference);
    extend_str(&mut out, "' not found in ");
    extend_str(&mut out, path);
    extend_str(&mut out, ".");
    proof {
        assert(out@ =~= part_not_in(reference@, path@));
    }
    to_text(out.as_slice())
}

/// Where a part was moved to.
pub open spec fn moved_to(reference: Seq<char>, x: int, y: int, turn: int) -> Seq<char> {
    "Moved "@ + reference + " to ("@ + plain(x) + ", "@ + plain(y) + ", rot="@ + plain(turn)
        + "°)"@
}

fn write_moved_to(reference: &str, x: i64, y: i64, turn: i64) -> (out: String)
    ensures
        out@ == moved_to(reference@, x as int, y as int, turn as int),
{
    let mut out = to_chars("Moved ");
    extend_str(&mut out, reference);
    extend_str(&mut out, " to (");
    extend_plain(&mut out, x);
    extend_str(&mut out, ", ");
    extend_plain(&mut out, y);
    extend_str(&mut out, ", rot=");
    extend_plain(&mut out, turn);
    extend_str(&mut out, "°)");
    proof {
        assert(out@ =~= moved_to(reference@, x as int, y as int, turn as int));
    }
    to_text(out.as_slice())
}

/// Where a part is to go along one axis: to a place, else by a distance.
pub open spec fn target(old_: int, to: Option<i64>, step: Option<i64>) -> int {
    match to {
        Some(t) => t as int,
        None => old_ + match step {
            Some(s) => s as int,
            None => 0,
        },
    }
}

fn aim(old_: i64, to: Option<i64>, step: Option<i64>) -> (t: i128)
    ensures
        t == target(old_ as int, to, step),
{
    match to {
        Some(t) => t as i128,
        None => old_ as i128 + match step {
            Some(s) => s as i128,
            None => 0,
        },
    }
}

/// How a part is to be moved: to a place, or by a distance, along each axis; and turned.
#[derive(Debug, Clone, Copy)]
pub struct Move {
    pub x: Option<i64>,
    pub y: Option<i64>,
    pub dx: Option<i64>,
    pub dy: Option<i64>,
    pub rotation: Option<i64>,
}

/// Why a part cannot be moved so far.
pub const OUT_OF_RANGE: &'static str = "The new position is out of range.";

/// A board with a part moved.
pub open spec fn with_part_moved(text: Seq<char>, path: Seq<char>, reference: Seq<char>, m: Move) -> Result<
    (Seq<char>, Seq<char>),
    Seq<char>,
> {
    match located(text, reference) {
        None => Err(part_not_in(reference, path)),
        Some(s) => {
            let block = text.subrange(s.0, s.1);
            let at = stands_at(block);
            let x = target(at.0, m.x, m.dx);
            let y = target(at.1, m.y, m.dy);
            let turn = match m.rotation {
                Some(r) => r as int,
                None => at.2,
            };
            if fits(x) && fits(y) {
                Ok(
                    (
                        spliced(text, s.0, s.1, with_placement(block, place_text(x, y, turn))),
                        moved_to(reference, x, y, turn),
                    ),
                )
            } else {
                Err(OUT_OF_RANGE@)
            }
        },
    }
}

/// Moves the part with a reference.
pub fn move_component(content: &str, path: &str, reference: &str, m: Move) -> (out: Result<
    Edit,
    String,
>)
    ensures
        edit_model(out) == with_part_moved(content@, path@, reference@, m),
{
    let text = to_chars(content);
    match locate(text.as_slice(), reference) {
        None => Err(write_part_not_in(reference, path)),
        Some(s) => {
            let block = slice_subrange(text.as_slice(), s.start, s.end);
            let at = read_stand(block);
            let x: i128 = aim(at.0, m.x, m.dx);
            let y: i128 = aim(at.1, m.y, m.dy);
            let turn: i64 = match m.rotation {
                Some(r) => r,
                None => at.2,
            };
            if -0x8000_0000_0000_0000 <= x && x <= 0x7fff_ffff_ffff_ffff && -0x8000_0000_0000_0000
                <= y && y <= 0x7fff_ffff_ffff_ffff {
                let place = write_place(x as i64, y as i64, turn);
                let old_ = to_text(block);
                let new = replace_at(old_.as_str(), to_text(place.as_slice()).as_str());
                let new_chars = to_chars(new.as_str());
                let out = splice(text.as_slice(), s.start, s.end, new_chars.as_slice());
                Ok(
                    Edit {
                        content: to_text(out.as_slice()),
                        summary: write_moved_to(reference, x as i64, y as i64, turn),
                    },
                )
            } else {
                Err(OUT_OF_RANGE.to_string())
            }
        },
    }
}

/// The references of a board, in its order.
pub open spec fn references(text: Seq<char>) -> Seq<Seq<char>> {
    footprints(text).map_values(|e: (Seq<char>, (int, int))| e.0)
}

pub(crate) fn list_references(text: &[char]) -> (out: Vec<String>)
    ensures
        strings(out@) == references(text@),
{
    let table = footprint_table(text);
    let mut out: Vec<String> = Vec::new();
    let mut i: usize = 0;
    proof {
        assert(span_list(table.entries@).len() == table.entries@.len());
    }
    while i < table.entries.len()
        invariant
            i <= table.entries@.len(),
            out@.len() == i,
            is_table_of(table, text@),
            span_list(table.entries@).len() == table.entries@.len(),
            forall|j: int| 0 <= j < i ==> (#[trigger] out@[j])@ == footprints(text@)[j].0,
        decreases table.entries@.len() - i,
    {
        assert(span_list(table.entries@)[i as int].0 == table.entries@[i as int].0@);
        out.push(table.entries[i].0.clone());
        i += 1;
    }
    proof {
        assert(strings(out@) =~= references(text@));
    }
    out
}

/// The numbers of the pads of a footprint from a place on.
pub open spec fn pad_numbers_from(block: Seq<char>, from: int) -> Seq<Seq<char>>
    decreases block.len() - from,
    when 0 <= from
    via numbers_decreases
{
    match find(block, "(pad \""@, from) {
        None => Seq::empty(),
        Some(at) => {
            let end = end_of_block(block, at);
            let rest = pad_numbers_from(block, end);
            match pad_number(block.subrange(at, end)) {
                None => rest,
                Some(n) => seq![n] + rest,
            }
        },
    }
}

#[via_fn]
proof fn numbers_decreases(block: Seq<char>, from: int) {
    reveal_strlit("(pad \"");
    lemma_find_is_first(block, "(pad \""@, from);
    match find(block, "(pad \""@, from) {
        None => {},
        Some(at) => {
            lemma_close_bounds(block, at, 0, false);
        },
    }
}

fn list_pad_numbers(block: &[char]) -> (out: Vec<String>)
    ensures
        strings(out@) == pad_numbers_from(block@, 0),
{
    let marker = to_chars("(pad \"");
    proof {
        reveal_strlit("(pad \"");
    }
    let mut out: Vec<String> = Vec::new();
    let mut from: usize = 0;
    let ghost all = pad_numbers_from(block@, 0);
    proof {
        assert(strings(out@) + all =~= all);
    }
    loop
        invariant
            from <= block@.len(),
            marker@ == "(pad \""@,
            marker@.len() == 6,
            all == strings(out@) + pad_numbers_from(block@, from as int),
        ensures
            strings(out@) == all,
        decreases block@.len() - from,
    {
        proof {
            lemma_find_is_first(block@, marker@, from as int);
            assert(strings(out@) + Seq::<Seq<char>>::empty() =~= strings(out@));
        }
        match find_from(block, marker.as_slice(), from) {
            None => {
                break;
            },
            Some(at) => {
                let end: usize = block_end(block, at);
                let pad = to_text(slice_subrange(block, at, end));
                let ghost rest = pad_numbers_from(block@, end as int);
                match extract_pad_number(pad.as_str()) {
                    None => {},
                    Some(n) => {
                        let ghost done = out@;
                        out.push(n);
                        proof {
                            assert(strings(out@) =~= strings(done).push(n@));
                            assert(strings(done) + (seq![n@] + rest) =~= strings(out@) + rest);
                        }
                    },
                }
                from = end;
            },
        }
    }
    out
}

/// No footprint has the reference; these there are.
pub open spec fn footprint_missing(reference: Seq<char>, all: Seq<char>) -> Seq<char> {
    "Footprint '"@ + reference + "' not found. Available refs: "@ + all
}

fn write_footprint_missing(reference: &str, all: &str) -> (out: String)
    ensures
        out@ == footprint_missing(reference@, all@),
{
    let mut out = to_chars("Footprint '");
    extend_str(&mut out, reference);
    extend_str(&mut out, "' not found. Available refs: ");
    extend_str(&mut out, all);
    proof {
        assert(out@ =~= footprint_missing(reference@, all@));
    }
    to_text(out.as_slice())
}

/// The footprint has no such pad; these it has.
pub open spec fn pad_missing(number: Seq<char>, reference: Seq<char>, all: Seq<char>) -> Seq<char> {
    "Pad '"@ + number + "' not found in '"@ + reference + "'. Available pads: "@ + all
}

fn write_pad_missing(number: &str, reference: &str, all: &str) -> (out: String)
    ensures
        out@ == pad_missing(number@, reference@, all@),
{
    let mut out = to_chars("Pad '");
    extend_str(&mut out, number);
    extend_str(&mut out, "' not found in '");
    extend_str(&mut out, reference);
    extend_str(&mut out, "'. Available pads: ");
    extend_str(&mut out, all);
    proof {
        assert(out@ =~= pad_missing(number@, reference@, all@));
    }
    to_text(out.as_slice())
}

/// How the block of a pad begins.
pub open spec fn pad_mark(number: Seq<char>) -> Seq<char> {
    "(pad \""@ + number + "\""@
}

fn write_pad_mark(number: &str) -> (out: String)
    ensures
        out@ == pad_mark(number@),
{
    let mut out = to_chars("(pad \"");
    extend_str(&mut out, number);
    extend_str(&mut out, "\"");
    proof {
        assert(out@ =~= pad_mark(number@));
    }
    to_text(out.as_slice())
}

/// A pad: its net and where it is.
pub open spec fn pad_head(reference: Seq<char>, number: Seq<char>, net: Seq<char>, x: int, y: int) -> Seq<char> {
    "Pad "@ + reference + "/"@ + number + ": net=\""@ + net + "\"  pos=("@ + thousandths(x)
        + ", "@ + thousandths(y) + ")mm  size="@
}

fn write_pad_head(reference: &str, number: &str, net: &str, x: i64, y: i64) -> (out: String)
    ensures
        out@ == pad_head(reference@, number@, net@, x as int, y as int),
{
    let mut out = to_chars("Pad ");
    extend_str(&mut out, reference);
    extend_str(&mut out, "/");
    extend_str(&mut out, number);
    extend_str(&mut out, ": net=\"");
    extend_str(&mut out, net);
    extend_str(&mut out, "\"  pos=(");
    extend_length(&mut out, x);
    extend_str(&mut out, ", ");
    extend_length(&mut out, y);
    extend_str(&mut out, ")mm  size=");
    proof {
        assert(out@ =~= pad_head(reference@, number@, net@, x as int, y as int));
    }
    to_text(out.as_slice())
}

/// A pad: its size and kind, and where its footprint stands.
pub open spec fn pad_tail(w: int, h: int, kind: Seq<char>, x: int, y: int, turn: int) -> Seq<char> {
    thousandths(w) + "×"@ + thousandths(h) + "mm  type="@ + kind + "  (fp at ("@
        + thousandths(x) + ","@ + thousandths(y) + ") rot="@ + fixed(turn, 10) + "°)"@
}

fn write_pad_tail(w: i64, h: i64, kind: &str, x: i64, y: i64, turn: i64) -> (out: String)
    ensures
        out@ == pad_tail(w as int, h as int, kind@, x as int, y as int, turn as int),
{
    let mut out: Vec<char> = Vec::new();
    extend_length(&mut out, w);
    extend_str(&mut out, "×");
    extend_length(&mut out, h);
    extend_str(&mut out, "mm  type=");
    extend_str(&mut out, kind);
    extend_str(&mut out, "  (fp at (");
    extend_length(&mut out, x);
    extend_str(&mut out, ",");
    extend_length(&mut out, y);
    extend_str(&mut out, ") rot=");
    extend_fixed(&mut out, turn as i128, 10);
    extend_str(&mut out, "°)");
    proof {
        assert(out@ =~= pad_tail(w as int, h as int, kind@, x as int, y as int, turn as int));
    }
    to_text(out.as_slice())
}

/// What is said of a pad.
pub open spec fn pad_report(
    pad: Seq<char>,
    reference: Seq<char>,
    number: Seq<char>,
    at: (int, int, int),
    cos: int,
    sin: int,
) -> Result<Seq<char>, Seq<char>> {
    let o = or_zeros(xy_numerals(pad, "(at "@));
    let size = or_zeros(pad_size(pad));
    let t = turned((length_of(o.0), length_of(o.1)), cos, sin);
    let x = at.0 + t.0;
    let y = at.1 + t.1;
    if fits(x) && fits(y) {
        Ok(
            pad_head(
                reference,
                number,
                match quoted_after(pad, "(net \""@) {
                    Some(n) => n,
                    None => "(unconnected)"@,
                },
                x,
                y,
            ) + pad_tail(
                length_of(size.0),
                length_of(size.1),
                if contains(pad, "thru_hole"@) {
                    "thru_hole"@
                } else {
                    "smd"@
                },
                at.0,
                at.1,
                at.2,
            ),
        )
    } else {
        Err(OUT_OF_RANGE@)
    }
}

/// What is answered when asked for the net of a pad.
pub open spec fn net_answer(
    text: Seq<char>,
    reference: Seq<char>,
    number: Seq<char>,
    cos: int,
    sin: int,
) -> Result<Seq<char>, Seq<char>> {
    match located(text, reference) {
        None => Err(footprint_missing(reference, joined(references(text), ", "@))),
        Some(s) => {
            let block = text.subrange(s.0, s.1);
            match find(block, pad_mark(number), 0) {
                None => Err(
                    pad_missing(number, reference, joined(pad_numbers_from(block, 0), ", "@)),
                ),
                Some(at) => pad_report(
                    block.subrange(at, end_of_block(block, at)),
                    reference,
                    number,
                    stands_at(block),
                    cos,
                    sin,
                ),
            }
        },
    }
}

fn two_lengths(texts: Option<(String, String)>) -> (out: (i64, i64))
    ensures
        ({
            let t = or_zeros(
                match texts {
                    Some(t) => Some((t.0@, t.1@)),
                    None => None,
                },
            );
            (out.0 as int, out.1 as int) == (length_of(t.0), length_of(t.1))
        }),
{
    match texts {
        Some(t) => (length(t.0.as_str()), length(t.1.as_str())),
        None => (length("0"), length("0")),
    }
}

fn write_pad_report(
    pad: &[char],
    reference: &str,
    number: &str,
    at: (i64, i64, i64),
    cos: i64,
    sin: i64,
) -> (out: Result<String, String>)
    requires
        -1_000_000_000 <= cos <= 1_000_000_000,
        -1_000_000_000 <= sin <= 1_000_000_000,
    ensures
        answer_model(out) == pad_report(
            pad@,
            reference@,
            number@,
            (at.0 as int, at.1 as int, at.2 as int),
            cos as int,
            sin as int,
        ),
{
    let block = to_text(pad);
    let o = two_lengths(extract_pad_at(block.as_str()));
    let size = two_lengths(extract_pad_size(block.as_str()));
    match turn_and_move(o, cos, sin, (at.0, at.1)) {
        None => Err(OUT_OF_RANGE.to_string()),
        Some(q) => {
            let net = match extract_pcb_pad_net(block.as_str()) {
                Some(n) => n,
                None => "(unconnected)".to_string(),
            };
            let head = write_pad_head(reference, number, net.as_str(), q.0, q.1);
            let kind = if has_str(pad, "thru_hole") {
                "thru_hole"
            } else {
                "smd"
            };
            let tail = write_pad_tail(size.0, size.1, kind, at.0, at.1, at.2);
            let mut out = to_chars(head.as_str());
            extend_str(&mut out, tail.as_str());
            Ok(to_text(out.as_slice()))
        },
    }
}

/// Tells the net of a pad, and where the pad is. `cos` and `sin` are those of the turn
/// of its footprint.
pub fn get_net_for_pad(content: &str, reference: &str, pad_number: &str, cos: i64, sin: i64) -> (out:
    Result<String, String>)
    requires
        -1_000_000_000 <= cos <= 1_000_000_000,
        -1_000_000_000 <= sin <= 1_000_000_000,
    ensures
        answer_model(out) == net_answer(
            content@,
            reference@,
            pad_number@,
            cos as int,
            sin as int,
        ),
{
    let text = to_chars(content);
    match locate(text.as_slice(), reference) {
        None => {
            let all = join(&list_references(text.as_slice()), ", ");
            Err(write_footprint_missing(reference, all.as_str()))
        },
        Some(s) => {
            let block = slice_subrange(text.as_slice(), s.start, s.end);
            let mark = to_chars(write_pad_mark(pad_number).as_str());
            proof {
                reveal_strlit("(pad \"");
                lemma_find_is_first(block@, mark@, 0);
            }
            match find_from(block, mark.as_slice(), 0) {
                None => {
                    let all = join(&list_pad_numbers(block), ", ");
                    Err(write_pad_missing(pad_number, reference, all.as_str()))
                },
                Some(at) => {
                    let end: usize = block_end(block, at);
                    write_pad_report(
                        slice_subrange(block, at, end),
                        reference,
                        pad_number,
                        read_stand(block),
                        cos,
                        sin,
                    )
                },
            }
        },
    }
}

} // verus!
