//! Drawing on a board, and taking drawings, traces and wires away.

use crate::board::{graphics, remove_matching_graphics};
use crate::cleanup::{
    layer_counts, orphans, parse_segments, remove_orphaned_segments, spots, trace_models,
    trace_spans, traces, TraceModel,
};
use crate::edits::{edit_model, Edit};
use crate::insert::{insert_element, inserted};
use crate::sexpr::{without, without_lines};
use crate::strings::{decimal, join, joined, number, sort, sorted, strings};
use crate::tables::{lemma_table_list, listed, place, TextMap};
use crate::text::{extend, extend_str, find, find_from, lemma_find_is_first, same_str, to_chars, to_text};
use crate::traces::{
    match_model, match_models, trim, trimmed, MatchModel, Region, TraceDeletion, TraceMatch,
};
use crate::units::{extend_length, extend_plain, plain, thousandths};
use crate::wires::{dangling, point_cells, remove_dangling_wires};
use vstd::prelude::*;
use vstd::slice::slice_subrange;

verus! {

/// The rectangle between two corners; none unless all four coordinates are given.
pub open spec fn region_between(
    x1: Option<i64>,
    y1: Option<i64>,
    x2: Option<i64>,
    y2: Option<i64>,
) -> Option<Region> {
    match (x1, y1, x2, y2) {
        (Some(a), Some(b), Some(c), Some(d)) => Some(
            Region {
                x_min: if a <= c {
                    a
                } else {
                    c
                },
                y_min: if b <= d {
                    b
                } else {
                    d
                },
                x_max: if a <= c {
                    c
                } else {
                    a
                },
                y_max: if b <= d {
                    d
                } else {
                    b
                },
            },
        ),
        _ => None,
    }
}

/// The rectangle between two corners.
pub fn region_of(x1: Option<i64>, y1: Option<i64>, x2: Option<i64>, y2: Option<i64>) -> (r: Option<
    Region,
>)
    ensures
        r == region_between(x1, y1, x2, y2),
{
    match (x1, y1, x2, y2) {
        (Some(a), Some(b), Some(c), Some(d)) => {
            let (x_min, x_max): (i64, i64) = if a <= c {
                (a, c)
            } else {
                (c, a)
            };
            let (y_min, y_max): (i64, i64) = if b <= d {
                (b, d)
            } else {
                (d, b)
            };
            Some(Region { x_min, y_min, x_max, y_max })
        },
        _ => None,
    }
}

/// The rectangle between two corners is the same whichever is named first.
pub proof fn lemma_region_either_way(x1: Option<i64>, y1: Option<i64>, x2: Option<i64>, y2: Option<i64>)
    ensures
        region_between(x1, y1, x2, y2) == region_between(x2, y2, x1, y1),
{
}

/// A trace that was found.
pub open spec fn match_line(net: Seq<char>, layer: Seq<char>, x1: int, y1: int, x2: int, y2: int) -> Seq<char> {
    "  net="@ + net + " layer="@ + layer + "  ("@ + thousandths(x1) + ","@ + thousandths(y1)
        + ")→("@ + thousandths(x2) + ","@ + thousandths(y2) + ")"@
}

fn write_match_line(net: &str, layer: &str, x1: i64, y1: i64, x2: i64, y2: i64) -> (out: String)
    ensures
        out@ == match_line(net@, layer@, x1 as int, y1 as int, x2 as int, y2 as int),
{
    let mut out = to_chars("  net=");
    extend_str(&mut out, net);
    extend_str(&mut out, " layer=");
    extend_str(&mut out, layer);
    extend_str(&mut out, "  (");
    extend_length(&mut out, x1);
    extend_str(&mut out, ",");
    extend_length(&mut out, y1);
    extend_str(&mut out, ")→(");
    extend_length(&mut out, x2);
    extend_str(&mut out, ",");
    extend_length(&mut out, y2);
    extend_str(&mut out, ")");
    proof {
        assert(out@ =~= match_line(net@, layer@, x1 as int, y1 as int, x2 as int, y2 as int));
    }
    to_text(out.as_slice())
}

pub open spec fn match_lines(list: Seq<MatchModel>) -> Seq<Seq<char>> {
    list.map_values(
        |m: MatchModel| match_line(m.net, m.layer, m.from.0, m.from.1, m.to.0, m.to.1),
    )
}

fn write_match_lines(list: &Vec<TraceMatch>) -> (out: Vec<String>)
    ensures
        strings(out@) == match_lines(match_models(list@)),
{
    let mut out: Vec<String> = Vec::new();
    let mut i: usize = 0;
    while i < list.len()
        invariant
            i <= list@.len(),
            out@.len() == i,
            forall|j: int|
                0 <= j < i ==> (#[trigger] out@[j])@ == match_lines(match_models(list@))[j],
        decreases list@.len() - i,
    {
        let m = &list[i];
        let line = write_match_line(
            m.net.as_str(),
            m.layer.as_str(),
            m.from.0,
            m.from.1,
            m.to.0,
            m.to.1,
        );
        proof {
            assert(match_models(list@)[i as int] == match_model(*m));
            assert(line@ == match_lines(match_models(list@))[i as int]);
        }
        out.push(line);
        i += 1;
    }
    proof {
        assert(strings(out@) =~= match_lines(match_models(list@)));
    }
    out
}

/// What would go.
pub open spec fn preview_text(n: nat, list: Seq<char>) -> Seq<char> {
    "DRY RUN — would remove "@ + decimal(n) + " trace segment(s), nothing written:\n"@ + list
}

fn write_preview_text(n: usize, list: &str) -> (out: String)
    ensures
        out@ == preview_text(n as nat, list@),
{
    let mut out = to_chars("DRY RUN — would remove ");
    let digits = number(n);
    extend(&mut out, digits.as_slice());
    extend_str(&mut out, " trace segment(s), nothing written:\n");
    extend_str(&mut out, list);
    proof {
        assert(out@ =~= preview_text(n as nat, list@));
    }
    to_text(out.as_slice())
}

/// How many traces went.
pub open spec fn traces_gone(n: nat) -> Seq<char> {
    "Removed "@ + decimal(n) + " trace segment(s)."@
}

fn write_traces_gone(n: usize) -> (out: String)
    ensures
        out@ == traces_gone(n as nat),
{
    let mut out = to_chars("Removed ");
    let digits = number(n);
    extend(&mut out, digits.as_slice());
    extend_str(&mut out, " trace segment(s).");
    proof {
        assert(out@ =~= traces_gone(n as nat));
    }
    to_text(out.as_slice())
}

/// Why no trace is deleted.
pub const NO_CONDITION: &'static str =
    "Provide at least one filter: net, layer, uuid, or all four of x1/y1/x2/y2";

/// What is said if there is nothing to delete.
pub const NO_TRACES: &'static str = "No matching traces found; nothing removed.";

/// What is said of a deletion of traces.
pub open spec fn deletion_text(d: TraceDeletion) -> Seq<char> {
    match d {
        TraceDeletion::NoCondition => NO_CONDITION@,
        TraceDeletion::NothingFound => NO_TRACES@,
        TraceDeletion::Preview { matches } => preview_text(
            matches@.len(),
            joined(match_lines(match_models(matches@)), "\n"@),
        ),
        TraceDeletion::Removed { count, .. } => traces_gone(count as nat),
    }
}

/// Tells what came of a deletion of traces.
pub fn describe_deletion(d: &TraceDeletion) -> (out: String)
    ensures
        out@ == deletion_text(*d),
{
    match d {
        TraceDeletion::NoCondition => NO_CONDITION.to_string(),
        TraceDeletion::NothingFound => NO_TRACES.to_string(),
        TraceDeletion::Preview { matches } => {
            let list = join(&write_match_lines(matches), "\n");
            write_preview_text(matches.len(), list.as_str())
        },
        TraceDeletion::Removed { count, .. } => write_traces_gone(*count),
    }
}

/// How many drawings went.
pub open spec fn graphics_gone(n: nat) -> Seq<char> {
    "Removed "@ + decimal(n) + " graphic element(s)."@
}

fn write_graphics_gone(n: usize) -> (out: String)
    ensures
        out@ == graphics_gone(n as nat),
{
    let mut out = to_chars("Removed ");
    let digits = number(n);
    extend(&mut out, digits.as_slice());
    extend_str(&mut out, " graphic element(s).");
    proof {
        assert(out@ =~= graphics_gone(n as nat));
    }
    to_text(out.as_slice())
}

/// Why no drawing is deleted.
pub const NO_FILTER: &'static str = "Provide at least one filter: text_contains, layer, or tstamp";

/// Deletes the drawings that hold every text asked for.
pub fn delete_graphic(
    content: &str,
    text_contains: Option<&str>,
    layer: Option<&str>,
    tstamp: Option<&str>,
    include_footprints: bool,
) -> (out: Result<Edit, String>)
    ensures
        edit_model(out) == (if text_contains is None && layer is None && tstamp is None {
            Err(NO_FILTER@)
        } else {
            let gone = graphics(content@, text_contains, layer, tstamp, include_footprints);
            Ok((without(content@, gone), graphics_gone(gone.len())))
        }),
{
    if text_contains.is_none() && layer.is_none() && tstamp.is_none() {
        return Err(NO_FILTER.to_string());
    }
    let (content, removed) = remove_matching_graphics(
        content,
        text_contains,
        layer,
        tstamp,
        include_footprints,
    );
    Ok(Edit { content, summary: write_graphics_gone(removed) })
}

/// A line to be drawn.
pub open spec fn line_text(x: int, y: int, x2: int, y2: int, width: int, layer: Seq<char>, stamp: Seq<char>) -> Seq<char> {
    "  (gr_line (start "@ + plain(x) + " "@ + plain(y) + ") (end "@ + plain(x2) + " "@
        + plain(y2) + ")\n    (stroke (width "@ + plain(width) + ") (type solid)) (layer \""@
        + layer + "\") (tstamp "@ + stamp + "))"@
}

fn write_line_text(x: i64, y: i64, x2: i64, y2: i64, width: i64, layer: &str, stamp: &str) -> (out: String)
    ensures
        out@ == line_text(x as int, y as int, x2 as int, y2 as int, width as int, layer@, stamp@),
{
    let mut out = to_chars("  (gr_line (start ");
    extend_plain(&mut out, x);
    extend_str(&mut out, " ");
    extend_plain(&mut out, y);
    extend_str(&mut out, ") (end ");
    extend_plain(&mut out, x2);
    extend_str(&mut out, " ");
    extend_plain(&mut out, y2);
    extend_str(&mut out, ")\n    (stroke (width ");
    extend_plain(&mut out, width);
    extend_str(&mut out, ") (type solid)) (layer \"");
    extend_str(&mut out, layer);
    extend_str(&mut out, "\") (tstamp ");
    extend_str(&mut out, stamp);
    extend_str(&mut out, "))");
    proof {
        assert(out@ =~= line_text(x as int, y as int, x2 as int, y2 as int, width as int, layer@, stamp@));
    }
    to_text(out.as_slice())
}

/// A rectangle to be drawn.
pub open spec fn rect_text(x: int, y: int, x2: int, y2: int, width: int, layer: Seq<char>, stamp: Seq<char>) -> Seq<char> {
    "  (gr_rect (start "@ + plain(x) + " "@ + plain(y) + ") (end "@ + plain(x2) + " "@
        + plain(y2) + ")\n    (stroke (width "@ + plain(width)
        + ") (type solid)) (fill none) (layer \""@ + layer + "\") (tstamp "@ + stamp + "))"@
}

fn write_rect_text(x: i64, y: i64, x2: i64, y2: i64, width: i64, layer: &str, stamp: &str) -> (out: String)
    ensures
        out@ == rect_text(x as int, y as int, x2 as int, y2 as int, width as int, layer@, stamp@),
{
    let mut out = to_chars("  (gr_rect (start ");
    extend_plain(&mut out, x);
    extend_str(&mut out, " ");
    extend_plain(&mut out, y);
    extend_str(&mut out, ") (end ");
    extend_plain(&mut out, x2);
    extend_str(&mut out, " ");
    extend_plain(&mut out, y2);
    extend_str(&mut out, ")\n    (stroke (width ");
    extend_plain(&mut out, width);
    extend_str(&mut out, ") (type solid)) (fill none) (layer \"");
    extend_str(&mut out, layer);
    extend_str(&mut out, "\") (tstamp ");
    extend_str(&mut out, stamp);
    extend_str(&mut out, "))");
    proof {
        assert(out@ =~= rect_text(x as int, y as int, x2 as int, y2 as int, width as int, layer@, stamp@));
    }
    to_text(out.as_slice())
}

/// A circle to be drawn.
pub open spec fn circle_text(x: int, y: int, x2: int, y2: int, width: int, layer: Seq<char>, stamp: Seq<char>) -> Seq<char> {
    "  (gr_circle (center "@ + plain(x) + " "@ + plain(y) + ") (end "@ + plain(x2) + " "@
        + plain(y2) + ")\n    (stroke (width "@ + plain(width)
        + ") (type solid)) (fill none) (layer \""@ + layer + "\") (tstamp "@ + stamp + "))"@
}

fn write_circle_text(x: i64, y: i64, x2: i64, y2: i64, width: i64, layer: &str, stamp: &str) -> (out: String)
    ensures
        out@ == circle_text(x as int, y as int, x2 as int, y2 as int, width as int, layer@, stamp@),
{
    let mut out = to_chars("  (gr_circle (center ");
    extend_plain(&mut out, x);
    extend_str(&mut out, " ");
    extend_plain(&mut out, y);
    extend_str(&mut out, ") (end ");
    extend_plain(&mut out, x2);
    extend_str(&mut out, " ");
    extend_plain(&mut out, y2);
    extend_str(&mut out, ")\n    (stroke (width ");
    extend_plain(&mut out, width);
    extend_str(&mut out, ") (type solid)) (fill none) (layer \"");
    extend_str(&mut out, layer);
    extend_str(&mut out, "\") (tstamp ");
    extend_str(&mut out, stamp);
    extend_str(&mut out, "))");
    proof {
        assert(out@ =~= circle_text(x as int, y as int, x2 as int, y2 as int, width as int, layer@, stamp@));
    }
    to_text(out.as_slice())
}

/// A text to be drawn.
pub open spec fn writing_text(text: Seq<char>, x: int, y: int, turn: Seq<char>, size: int, width: int, layer: Seq<char>, stamp: Seq<char>) -> Seq<char> {
    "  (gr_text \""@ + text + "\" (at "@ + plain(x) + " "@ + plain(y) + turn
        + ")\n    (effects (font (size "@ + plain(size) + " "@ + plain(size) + ") (thickness "@
        + plain(width) + ")))\n    (layer \""@ + layer + "\") (tstamp "@ + stamp + "))"@
}

fn write_writing_text(text: &str, x: i64, y: i64, turn: &str, size: i64, width: i64, layer: &str, stamp: &str) -> (out: String)
    ensures
        out@ == writing_text(text@, x as int, y as int, turn@, size as int, width as int, layer@, stamp@),
{
    let mut out = to_chars("  (gr_text \"");
    extend_str(&mut out, text);
    extend_str(&mut out, "\" (at ");
    extend_plain(&mut out, x);
    extend_str(&mut out, " ");
    extend_plain(&mut out, y);
    extend_str(&mut out, turn);
    extend_str(&mut out, ")\n    (effects (font (size ");
    extend_plain(&mut out, size);
    extend_str(&mut out, " ");
    extend_plain(&mut out, size);
    extend_str(&mut out, ") (thickness ");
    extend_plain(&mut out, width);
    extend_str(&mut out, ")))\n    (layer \"");
    extend_str(&mut out, layer);
    extend_str(&mut out, "\") (tstamp ");
    extend_str(&mut out, stamp);
    extend_str(&mut out, "))");
    proof {
        assert(out@ =~= writing_text(text@, x as int, y as int, turn@, size as int, width as int, layer@, stamp@));
    }
    to_text(out.as_slice())
}

/// What was drawn, and where.
pub open spec fn graphic_added(kind: Seq<char>, layer: Seq<char>, x: int, y: int) -> Seq<char> {
    "Added "@ + kind + " on "@ + layer + " at ("@ + plain(x) + ", "@ + plain(y) + ")"@
}

fn write_graphic_added(kind: &str, layer: &str, x: i64, y: i64) -> (out: String)
    ensures
        out@ == graphic_added(kind@, layer@, x as int, y as int),
{
    let mut out = to_chars("Added ");
    extend_str(&mut out, kind);
    extend_str(&mut out, " on ");
    extend_str(&mut out, layer);
    extend_str(&mut out, " at (");
    extend_plain(&mut out, x);
    extend_str(&mut out, ", ");
    extend_plain(&mut out, y);
    extend_str(&mut out, ")");
    proof {
        assert(out@ =~= graphic_added(kind@, layer@, x as int, y as int));
    }
    to_text(out.as_slice())
}

/// Something to be drawn. Its kind is `line`, `rect`, `circle`, or else text. What is
/// not given is filled in: the layer `F.SilkS`, a width of 0.12 mm, the first corner for
/// the second, a radius and a font size of 1 mm, the text `TEXT`.
#[derive(Debug, Clone, Copy)]
pub struct Graphic<'a> {
    pub kind: Option<&'a str>,
    pub x: i64,
    pub y: i64,
    /// The second corner of a line or a rectangle; the radius of a circle.
    pub x2: Option<i64>,
    pub y2: Option<i64>,
    pub text: Option<&'a str>,
    pub layer: Option<&'a str>,
    pub width: Option<i64>,
    pub font_size: Option<i64>,
    pub rotation: Option<i64>,
}

pub open spec fn given_or(n: Option<i64>, other: int) -> int {
    match n {
        Some(n) => n as int,
        None => other,
    }
}

pub open spec fn named_or(t: Option<&str>, other: Seq<char>) -> Seq<char> {
    match t {
        Some(t) => t@,
        None => other,
    }
}

/// The turn of a text; a turn of less than a thousandth of a degree is left out.
pub open spec fn turn_text(turn: int) -> Seq<char> {
    if -1000 < turn < 1000 {
        Seq::empty()
    } else {
        " "@ + plain(turn)
    }
}

fn write_turn(turn: i64) -> (out: String)
    ensures
        out@ == turn_text(turn as int),
{
    let mut out: Vec<char> = Vec::new();
    if !(-1000 < turn && turn < 1000) {
        extend_str(&mut out, " ");
        extend_plain(&mut out, turn);
    }
    proof {
        assert(out@ =~= turn_text(turn as int));
    }
    to_text(out.as_slice())
}

/// How something is drawn; none if it ends out of range.
pub open spec fn graphic_text(g: Graphic, stamp: Seq<char>) -> Option<Seq<char>> {
    let kind = named_or(g.kind, "text"@);
    let layer = named_or(g.layer, "F.SilkS"@);
    let width = given_or(g.width, 120_000);
    let x = g.x as int;
    let y = g.y as int;
    if kind == "line"@ {
        Some(line_text(x, y, given_or(g.x2, x), given_or(g.y2, y), width, layer, stamp))
    } else if kind == "rect"@ {
        Some(rect_text(x, y, given_or(g.x2, x), given_or(g.y2, y), width, layer, stamp))
    } else if kind == "circle"@ {
        let edge = x + given_or(g.x2, 1_000_000);
        if i64::MIN <= edge <= i64::MAX {
            Some(circle_text(x, y, edge, y, width, layer, stamp))
        } else {
            None
        }
    } else {
        Some(
            writing_text(
                named_or(g.text, "TEXT"@),
                x,
                y,
                turn_text(given_or(g.rotation, 0)),
                given_or(g.font_size, 1_000_000),
                width,
                layer,
                stamp,
            ),
        )
    }
}

fn or_given(n: Option<i64>, other: i64) -> (out: i64)
    ensures
        out == given_or(n, other as int),
{
    match n {
        Some(n) => n,
        None => other,
    }
}

fn or_named<'a>(t: Option<&'a str>, other: &'a str) -> (out: &'a str)
    ensures
        out@ == named_or(t, other@),
{
    match t {
        Some(t) => t,
        None => other,
    }
}

fn write_graphic(g: Graphic, stamp: &str) -> (out: Option<String>)
    ensures
        (match out {
            Some(t) => Some(t@),
            None => None,
        }) == graphic_text(g, stamp@),
{
    let kind = or_named(g.kind, "text");
    let layer = or_named(g.layer, "F.SilkS");
    let width: i64 = or_given(g.width, 120_000);
    if same_str(kind, "line") {
        Some(
            write_line_text(
                g.x,
                g.y,
                or_given(g.x2, g.x),
                or_given(g.y2, g.y),
                width,
                layer,
                stamp,
            ),
        )
    } else if same_str(kind, "rect") {
        Some(
            write_rect_text(
                g.x,
                g.y,
                or_given(g.x2, g.x),
                or_given(g.y2, g.y),
                width,
                layer,
                stamp,
            ),
        )
    } else if same_str(kind, "circle") {
        match g.x.checked_add(or_given(g.x2, 1_000_000)) {
            Some(edge) => Some(write_circle_text(g.x, g.y, edge, g.y, width, layer, stamp)),
            None => None,
        }
    } else {
        let turn = write_turn(or_given(g.rotation, 0));
        Some(
            write_writing_text(
                or_named(g.text, "TEXT"),
                g.x,
                g.y,
                turn.as_str(),
                or_given(g.font_size, 1_000_000),
                width,
                layer,
                stamp,
            ),
        )
    }
}

/// Why something cannot be drawn there.
pub const OFF_THE_BOARD: &'static str = "The drawing is out of range.";

/// Draws something on a board.
pub fn add_graphic(content: &str, g: Graphic, stamp: &str) -> (out: Result<Edit, String>)
    ensures
        edit_model(out) == (match graphic_text(g, stamp@) {
            None => Err(OFF_THE_BOARD@),
            Some(element) => Ok(
                (
                    inserted(content@, element),
                    graphic_added(
                        named_or(g.kind, "text"@),
                        named_or(g.layer, "F.SilkS"@),
                        g.x as int,
                        g.y as int,
                    ),
                ),
            ),
        }),
{
    match write_graphic(g, stamp) {
        None => Err(OFF_THE_BOARD.to_string()),
        Some(element) => {
            let chars = to_chars(element.as_str());
            Ok(
                Edit {
                    content: insert_element(content, chars.as_slice()),
                    summary: write_graphic_added(
                        or_named(g.kind, "text"),
                        or_named(g.layer, "F.SilkS"),
                        g.x,
                        g.y,
                    ),
                },
            )
        },
    }
}

/// The pieces of a text between commas from a place on, without white space around
/// them.
pub open spec fn pieces_from(text: Seq<char>, from: int) -> Seq<Seq<char>>
    decreases text.len() - from,
    when 0 <= from <= text.len()
    via pieces_decreases
{
    match find(text, ","@, from) {
        None => seq![trim(text.skip(from))],
        Some(at) => seq![trim(text.subrange(from, at))] + pieces_from(text, at + 1),
    }
}

#[via_fn]
proof fn pieces_decreases(text: Seq<char>, from: int) {
    reveal_strlit(",");
    lemma_find_is_first(text, ","@, from);
}

/// Reads a list with commas.
pub fn read_list(list: &str) -> (out: Vec<String>)
    ensures
        strings(out@) == pieces_from(list@, 0),
{
    let text = to_chars(list);
    let mark = to_chars(",");
    proof {
        reveal_strlit(",");
    }
    let mut out: Vec<String> = Vec::new();
    let mut from: usize = 0;
    let ghost all = pieces_from(text@, 0);
    proof {
        assert(strings(out@) + all =~= all);
    }
    loop
        invariant_except_break
            all == strings(out@) + pieces_from(text@, from as int),
        invariant
            from <= text@.len(),
            mark@ == ","@,
            mark@.len() == 1,
        ensures
            strings(out@) == all,
        decreases text@.len() - from,
    {
        proof {
            lemma_find_is_first(text@, mark@, from as int);
        }
        match find_from(text.as_slice(), mark.as_slice(), from) {
            None => {
                let last = slice_subrange(text.as_slice(), from, text.len());
                let ghost done = out@;
                let piece = to_text(trimmed(last));
                out.push(piece);
                proof {
                    assert(last@ =~= text@.skip(from as int));
                    assert(strings(out@) =~= strings(done) + seq![piece@]);
                }
                break;
            },
            Some(at) => {
                let next = slice_subrange(text.as_slice(), from, at);
                let ghost done = out@;
                let ghost rest = pieces_from(text@, at + 1);
                let piece = to_text(trimmed(next));
                out.push(piece);
                proof {
                    assert(strings(out@) =~= strings(done).push(piece@));
                    assert(strings(done) + (seq![piece@] + rest) =~= strings(out@) + rest);
                }
                from = at + 1;
            },
        }
    }
    out
}

/// What was looked at, and what went.
pub open spec fn cleanup_head(n: nat, gone: nat, did: Seq<char>) -> Seq<char> {
    decimal(n) + " segments scanned, "@ + decimal(gone) + " orphaned segments "@ + did
        + " on layers:\n"@
}

fn write_cleanup_head(n: usize, gone: usize, did: &str) -> (out: String)
    ensures
        out@ == cleanup_head(n as nat, gone as nat, did@),
{
    let mut out: Vec<char> = Vec::new();
    let digits = number(n);
    extend(&mut out, digits.as_slice());
    extend_str(&mut out, " segments scanned, ");
    let digits = number(gone);
    extend(&mut out, digits.as_slice());
    extend_str(&mut out, " orphaned segments ");
    extend_str(&mut out, did);
    extend_str(&mut out, " on layers:\n");
    proof {
        assert(out@ =~= cleanup_head(n as nat, gone as nat, did@));
    }
    to_text(out.as_slice())
}

/// How many are left.
pub open spec fn cleanup_tail(n: nat, left: nat) -> Seq<char> {
    "Total segments: "@ + decimal(n) + " → "@ + decimal(left)
}

fn write_cleanup_tail(n: usize, left: usize) -> (out: String)
    ensures
        out@ == cleanup_tail(n as nat, left as nat),
{
    let mut out = to_chars("Total segments: ");
    let digits = number(n);
    extend(&mut out, digits.as_slice());
    extend_str(&mut out, " → ");
    let digits = number(left);
    extend(&mut out, digits.as_slice());
    proof {
        assert(out@ =~= cleanup_tail(n as nat, left as nat));
    }
    to_text(out.as_slice())
}

/// How many went from a layer.
pub open spec fn layer_line(layer: Seq<char>, n: nat) -> Seq<char> {
    "  "@ + layer + ": "@ + decimal(n) + "\n"@
}

fn write_layer_line(layer: &str, n: usize) -> (out: String)
    ensures
        out@ == layer_line(layer@, n as nat),
{
    let mut out = to_chars("  ");
    extend_str(&mut out, layer);
    extend_str(&mut out, ": ");
    let digits = number(n);
    extend(&mut out, digits.as_slice());
    extend_str(&mut out, "\n");
    proof {
        assert(out@ =~= layer_line(layer@, n as nat));
    }
    to_text(out.as_slice())
}

/// How many went from each of the layers.
pub open spec fn layer_lines(counts: Seq<(Seq<char>, usize)>, layers: Seq<Seq<char>>) -> Seq<char>
    decreases layers.len(),
{
    if layers.len() == 0 {
        Seq::empty()
    } else {
        layer_lines(counts, layers.drop_last()) + match place(counts, layers.last()) {
            Some(i) => layer_line(layers.last(), counts[i].1 as nat),
            None => Seq::empty(),
        }
    }
}

pub open spec fn counted_layers(counts: Seq<(Seq<char>, usize)>) -> Seq<Seq<char>> {
    counts.map_values(|e: (Seq<char>, usize)| e.0)
}

/// The layers with what went from them, in order of their names.
pub open spec fn layers_text(counts: Seq<(Seq<char>, usize)>) -> Seq<char> {
    if counts.len() == 0 {
        "  (none)\n"@
    } else {
        layer_lines(counts, sorted(counted_layers(counts)))
    }
}

fn write_layers(counts: &TextMap<usize>) -> (out: Vec<char>)
    requires
        counts.well_formed(),
    ensures
        out@ == layers_text(listed(counts.entries@)),
{
    let ghost list = listed(counts.entries@);
    if counts.entries.len() == 0 {
        return to_chars("  (none)\n");
    }
    let mut names: Vec<String> = Vec::new();
    let mut i: usize = 0;
    while i < counts.entries.len()
        invariant
            i <= counts.entries@.len(),
            names@.len() == i,
            list == listed(counts.entries@),
            forall|j: int| 0 <= j < i ==> (#[trigger] names@[j])@ == list[j].0,
        decreases counts.entries@.len() - i,
    {
        names.push(counts.entries[i].0.clone());
        i += 1;
    }
    proof {
        assert(strings(names@) =~= counted_layers(list));
    }
    let names = sort(&names);
    let ghost all = strings(names@);
    let mut out: Vec<char> = Vec::new();
    let mut i: usize = 0;
    proof {
        assert(all.take(0).len() == 0);
        assert(out@ =~= layer_lines(list, all.take(0)));
    }
    while i < names.len()
        invariant
            i <= names@.len(),
            counts.well_formed(),
            list == listed(counts.entries@),
            all == strings(names@),
            out@ == layer_lines(list, all.take(i as int)),
        decreases names@.len() - i,
    {
        proof {
            assert(all.take(i + 1).drop_last() =~= all.take(i as int));
            assert(all.take(i + 1).last() == names@[i as int]@);
            lemma_table_list(counts, names@[i as int]@);
        }
        match counts.get(names[i].as_str()) {
            Some(n) => {
                let line = write_layer_line(names[i].as_str(), *n);
                extend_str(&mut out, line.as_str());
            },
            None => {},
        }
        proof {
            assert(out@ =~= layer_lines(list, all.take(i + 1)));
        }
        i += 1;
    }
    proof {
        assert(all.take(all.len() as int) =~= all);
    }
    out
}

/// No more traces go than there are.
pub proof fn lemma_no_more_orphans(
    list: Seq<TraceModel>,
    pads: Seq<(int, int)>,
    layers: Option<Seq<Seq<char>>>,
    upto: int,
)
    requires
        0 <= upto,
    ensures
        orphans(list, pads, layers, upto).len() <= upto,
    decreases upto,
{
    if upto > 0 {
        lemma_no_more_orphans(list, pads, layers, upto - 1);
    }
}

/// What a cleanup of traces tells.
pub open spec fn cleanup_text(all: nat, lost: Seq<TraceModel>, dry_run: bool) -> Seq<char> {
    cleanup_head(
        all,
        lost.len(),
        if dry_run {
            "would be removed"@
        } else {
            "removed"@
        },
    ) + layers_text(layer_counts(lost)) + cleanup_tail(all, (all - lost.len()) as nat)
}

/// The layers that a list names.
pub open spec fn layers_meant(layers: Option<&str>) -> Option<Seq<Seq<char>>> {
    match layers {
        Some(l) => Some(pieces_from(l@, 0)),
        None => None,
    }
}

/// The traces that lead to no pad, among those on the layers named.
pub open spec fn lost_traces(text: Seq<char>, layers: Option<&str>, pads: Seq<(i64, i64)>) -> Seq<
    TraceModel,
> {
    let list = traces(text);
    orphans(list, spots(pads), layers_meant(layers), list.len() as int)
}

fn tidy(content: &str, layers: Option<&str>, pads: &Vec<(i64, i64)>) -> (out: (
    String,
    usize,
    TextMap<usize>,
))
    ensures
        ({
            let lost = lost_traces(content@, layers, pads@);
            &&& out.0@ == without_lines(content@, trace_spans(lost))
            &&& out.1 == lost.len()
            &&& out.2.well_formed()
            &&& listed(out.2.entries@) == layer_counts(lost)
        }),
{
    match layers {
        Some(l) => {
            let list = read_list(l);
            remove_orphaned_segments(content, Some(&list), pads)
        },
        None => remove_orphaned_segments(content, None, pads),
    }
}

/// Removes the traces that lead to no pad, on the layers that are named in a list with
/// commas, or on all. Gives what to write, if anything is, and what to tell.
pub fn cleanup_traces(
    content: &str,
    layers: Option<&str>,
    pads: &Vec<(i64, i64)>,
    dry_run: bool,
) -> (out: (Option<String>, String))
    ensures
        ({
            let lost = lost_traces(content@, layers, pads@);
            &&& out.1@ == cleanup_text(traces(content@).len(), lost, dry_run)
            &&& out.0 is Some <==> !dry_run && lost.len() > 0
            &&& out.0 matches Some(t) ==> t@ == without_lines(content@, trace_spans(lost))
        }),
{
    let list = parse_segments(content);
    let all: usize = list.len();
    let (new, gone, counts) = tidy(content, layers, pads);
    proof {
        assert(trace_models(list@).len() == list@.len());
        lemma_no_more_orphans(
            traces(content@),
            spots(pads@),
            layers_meant(layers),
            traces(content@).len() as int,
        );
    }
    let did: &str = if dry_run {
        "would be removed"
    } else {
        "removed"
    };
    let mut out = to_chars(write_cleanup_head(all, gone, did).as_str());
    let middle = write_layers(&counts);
    extend(&mut out, middle.as_slice());
    let tail = write_cleanup_tail(all, all - gone);
    extend_str(&mut out, tail.as_str());
    let text = to_text(out.as_slice());
    if dry_run || gone == 0 {
        (None, text)
    } else {
        (Some(new), text)
    }
}

/// How many wires went.
pub open spec fn wires_gone(n: nat) -> Seq<char> {
    "Removed "@ + decimal(n) + " dangling wire segment(s)."@
}

fn write_wires_gone(n: usize) -> (out: String)
    ensures
        out@ == wires_gone(n as nat),
{
    let mut out = to_chars("Removed ");
    let digits = number(n);
    extend(&mut out, digits.as_slice());
    extend_str(&mut out, " dangling wire segment(s).");
    proof {
        assert(out@ =~= wires_gone(n as nat));
    }
    to_text(out.as_slice())
}

/// How many wires would go.
pub open spec fn wires_to_go(n: nat) -> Seq<char> {
    "Dry run: would remove "@ + decimal(n) + " dangling wire segment(s)."@
}

fn write_wires_to_go(n: usize) -> (out: String)
    ensures
        out@ == wires_to_go(n as nat),
{
    let mut out = to_chars("Dry run: would remove ");
    let digits = number(n);
    extend(&mut out, digits.as_slice());
    extend_str(&mut out, " dangling wire segment(s).");
    proof {
        assert(out@ =~= wires_to_go(n as nat));
    }
    to_text(out.as_slice())
}

/// Removes the wires with a loose end. Gives what to write, unless it is a dry run, and
/// what to tell.
pub fn cleanup_dangling_wires(content: &str, pins: &Vec<(i64, i64)>, dry_run: bool) -> (out: (
    Option<String>,
    String,
))
    ensures
        ({
            let gone = dangling(content@, point_cells(pins@));
            &&& out.1@ == if dry_run {
                wires_to_go(gone.len())
            } else {
                wires_gone(gone.len())
            }
            &&& out.0 is Some <==> !dry_run
            &&& out.0 matches Some(t) ==> t@ == without(content@, gone)
        }),
{
    let (new, removed) = remove_dangling_wires(content, pins);
    if dry_run {
        (None, write_wires_to_go(removed))
    } else {
        (Some(new), write_wires_gone(removed))
    }
}

} // verus!
