//! Wires and labels of a schematic, and where its symbols are.

use crate::edits::{answer_model, edit_model, Edit};
use crate::fields::{is_space, space};
use crate::placing::{
    compute_pin_positions, describe_pins, move_symbol, nth_word, find_word, pin_spots, pins_report, spots_of,
    symbol_pins, wide, with_symbol_at,
};
use crate::sexpr::{block_end, end_of_block, lemma_close_bounds};
use crate::strings::{find_back_from_end, last_of, lemma_last_of_bounds, replace, replaced};
use crate::text::{
    extend, extend_str, find, find_from, has_at, lemma_find_is_first, matches_at, same_str, splice, spliced, to_chars,
    to_text,
};
use crate::units::{extend_plain, plain};
use vstd::prelude::*;
use vstd::slice::slice_subrange;

verus! {

/// Why nothing can be put into a text.
pub const NOT_A_SCHEMATIC: &'static str =
    "File does not appear to be a valid KiCad schematic (no closing paren found)";

/// A schematic with something before the bracket that ends it.
pub open spec fn put_in(text: Seq<char>, element: Seq<char>) -> Option<Seq<char>> {
    match last_of(text, "\n)"@) {
        None => None,
        Some(at) => Some(spliced(text, at, at, element)),
    }
}

/// Puts something before the bracket that ends a schematic.
pub fn put_into(content: &str, element: &str) -> (out: Option<String>)
    ensures
        (match out {
            Some(t) => Some(t@),
            None => None,
        }) == put_in(content@, element@),
{
    let text = to_chars(content);
    let mark = to_chars("\n)");
    proof {
        reveal_strlit("\n)");
        lemma_last_of_bounds(text@, mark@);
    }
    match find_back_from_end(text.as_slice(), mark.as_slice()) {
        None => None,
        Some(at) => {
            let new = to_chars(element);
            let out = splice(text.as_slice(), at, at, new.as_slice());
            Some(to_text(out.as_slice()))
        },
    }
}

/// What was put into a schematic can be read in it, and what the schematic held stays
/// around it.
pub proof fn lemma_put_in_keeps(text: Seq<char>, element: Seq<char>)
    requires
        put_in(text, element) is Some,
    ensures
        ({
            let at = last_of(text, "\n)"@)->0;
            let new = put_in(text, element)->0;
            &&& 0 <= at <= text.len()
            &&& new.len() == text.len() + element.len()
            &&& new.take(at) == text.take(at)
            &&& new.subrange(at, at + element.len()) == element
            &&& new.skip(at + element.len()) == text.skip(at)
        }),
{
    reveal_strlit("\n)");
    lemma_last_of_bounds(text, "\n)"@);
    let at = last_of(text, "\n)"@)->0;
    let new = put_in(text, element)->0;
    assert(new.take(at) =~= text.take(at));
    assert(new.subrange(at, at + element.len() as int) =~= element);
    assert(new.skip(at + element.len() as int) =~= text.skip(at));
}

/// A wire between two points.
pub open spec fn wire_text(x1: int, y1: int, x2: int, y2: int, stamp: Seq<char>) -> Seq<char> {
    "\n  (wire (pts (xy "@ + plain(x1) + " "@ + plain(y1) + ") (xy "@ + plain(x2) + " "@
        + plain(y2) + "))\n    (stroke (width 0) (type default))\n    (uuid \""@ + stamp
        + "\")\n  )"@
}

fn write_wire_text(x1: i64, y1: i64, x2: i64, y2: i64, stamp: &str) -> (out: String)
    ensures
        out@ == wire_text(x1 as int, y1 as int, x2 as int, y2 as int, stamp@),
{
    let mut out = to_chars("\n  (wire (pts (xy ");
    extend_plain(&mut out, x1);
    extend_str(&mut out, " ");
    extend_plain(&mut out, y1);
    extend_str(&mut out, ") (xy ");
    extend_plain(&mut out, x2);
    extend_str(&mut out, " ");
    extend_plain(&mut out, y2);
    extend_str(&mut out, "))\n    (stroke (width 0) (type default))\n    (uuid \"");
    extend_str(&mut out, stamp);
    extend_str(&mut out, "\")\n  )");
    proof {
        assert(out@ =~= wire_text(x1 as int, y1 as int, x2 as int, y2 as int, stamp@));
    }
    to_text(out.as_slice())
}

/// Between which points a wire was added.
pub open spec fn wire_added(x1: int, y1: int, x2: int, y2: int) -> Seq<char> {
    "Wire added: ("@ + plain(x1) + ", "@ + plain(y1) + ") → ("@ + plain(x2) + ", "@ + plain(y2)
        + ")"@
}

fn write_wire_added(x1: i64, y1: i64, x2: i64, y2: i64) -> (out: String)
    ensures
        out@ == wire_added(x1 as int, y1 as int, x2 as int, y2 as int),
{
    let mut out = to_chars("Wire added: (");
    extend_plain(&mut out, x1);
    extend_str(&mut out, ", ");
    extend_plain(&mut out, y1);
    extend_str(&mut out, ") → (");
    extend_plain(&mut out, x2);
    extend_str(&mut out, ", ");
    extend_plain(&mut out, y2);
    extend_str(&mut out, ")");
    proof {
        assert(out@ =~= wire_added(x1 as int, y1 as int, x2 as int, y2 as int));
    }
    to_text(out.as_slice())
}

/// An edit that puts something into a schematic.
pub open spec fn addition(text: Seq<char>, element: Seq<char>, summary: Seq<char>) -> Result<
    (Seq<char>, Seq<char>),
    Seq<char>,
> {
    match put_in(text, element) {
        Some(new) => Ok((new, summary)),
        None => Err(NOT_A_SCHEMATIC@),
    }
}

fn make_addition(content: &str, element: String, summary: String) -> (out: Result<Edit, String>)
    ensures
        edit_model(out) == addition(content@, element@, summary@),
{
    match put_into(content, element.as_str()) {
        Some(content) => Ok(Edit { content, summary }),
        None => Err(NOT_A_SCHEMATIC.to_string()),
    }
}

/// Adds a wire between two points.
pub fn add_wire(content: &str, x1: i64, y1: i64, x2: i64, y2: i64, stamp: &str) -> (out: Result<
    Edit,
    String,
>)
    ensures
        edit_model(out) == addition(
            content@,
            wire_text(x1 as int, y1 as int, x2 as int, y2 as int, stamp@),
            wire_added(x1 as int, y1 as int, x2 as int, y2 as int),
        ),
{
    make_addition(
        content,
        write_wire_text(x1, y1, x2, y2, stamp),
        write_wire_added(x1, y1, x2, y2),
    )
}

/// A label for all sheets.
pub open spec fn global_label(text: Seq<char>, shape: Seq<char>, x: int, y: int, turn: int, stamp: Seq<char>) -> Seq<char> {
    "\n  (global_label \""@ + text + "\" (shape "@ + shape + ") (at "@ + plain(x) + " "@
        + plain(y) + " "@ + plain(turn)
        + ") (fields_autoplaced)\n    (effects (font (size 1.27 1.27)) (justify left))\n    (uuid \""@
        + stamp
        + "\")\n    (property \"Intersheet References\" \"\" (id 0) (at 0 0 0)\n      (effects (font (size 1.27 1.27)) hide)\n    )\n  )"@
}

fn write_global_label(text: &str, shape: &str, x: i64, y: i64, turn: i64, stamp: &str) -> (out: String)
    ensures
        out@ == global_label(text@, shape@, x as int, y as int, turn as int, stamp@),
{
    let mut out = to_chars("\n  (global_label \"");
    extend_str(&mut out, text);
    extend_str(&mut out, "\" (shape ");
    extend_str(&mut out, shape);
    extend_str(&mut out, ") (at ");
    extend_plain(&mut out, x);
    extend_str(&mut out, " ");
    extend_plain(&mut out, y);
    extend_str(&mut out, " ");
    extend_plain(&mut out, turn);
    extend_str(&mut out, ") (fields_autoplaced)\n    (effects (font (size 1.27 1.27)) (justify left))\n    (uuid \"");
    extend_str(&mut out, stamp);
    extend_str(&mut out, "\")\n    (property \"Intersheet References\" \"\" (id 0) (at 0 0 0)\n      (effects (font (size 1.27 1.27)) hide)\n    )\n  )");
    proof {
        assert(out@ =~= global_label(text@, shape@, x as int, y as int, turn as int, stamp@));
    }
    to_text(out.as_slice())
}

/// A label for one sheet.
pub open spec fn local_label(text: Seq<char>, x: int, y: int, turn: int, stamp: Seq<char>) -> Seq<char> {
    "\n  (label \""@ + text + "\" (at "@ + plain(x) + " "@ + plain(y) + " "@ + plain(turn)
        + ")\n    (effects (font (size 1.27 1.27)) (justify left))\n    (uuid \""@ + stamp
        + "\")\n  )"@
}

fn write_local_label(text: &str, x: i64, y: i64, turn: i64, stamp: &str) -> (out: String)
    ensures
        out@ == local_label(text@, x as int, y as int, turn as int, stamp@),
{
    let mut out = to_chars("\n  (label \"");
    extend_str(&mut out, text);
    extend_str(&mut out, "\" (at ");
    extend_plain(&mut out, x);
    extend_str(&mut out, " ");
    extend_plain(&mut out, y);
    extend_str(&mut out, " ");
    extend_plain(&mut out, turn);
    extend_str(&mut out, ")\n    (effects (font (size 1.27 1.27)) (justify left))\n    (uuid \"");
    extend_str(&mut out, stamp);
    extend_str(&mut out, "\")\n  )");
    proof {
        assert(out@ =~= local_label(text@, x as int, y as int, turn as int, stamp@));
    }
    to_text(out.as_slice())
}

/// Which label was added, and where.
pub open spec fn label_added(kind: Seq<char>, text: Seq<char>, x: int, y: int) -> Seq<char> {
    kind + " label \""@ + text + "\" added at ("@ + plain(x) + ", "@ + plain(y) + ")"@
}

fn write_label_added(kind: &str, text: &str, x: i64, y: i64) -> (out: String)
    ensures
        out@ == label_added(kind@, text@, x as int, y as int),
{
    let mut out = to_chars(kind);
    extend_str(&mut out, " label \"");
    extend_str(&mut out, text);
    extend_str(&mut out, "\" added at (");
    extend_plain(&mut out, x);
    extend_str(&mut out, ", ");
    extend_plain(&mut out, y);
    extend_str(&mut out, ")");
    proof {
        assert(out@ =~= label_added(kind@, text@, x as int, y as int));
    }
    to_text(out.as_slice())
}

/// A label to be added. Its kind is local unless it says `global`; a global one is
/// bidirectional unless it has a shape.
#[derive(Debug, Clone, Copy)]
pub struct Label<'a> {
    pub text: &'a str,
    pub x: i64,
    pub y: i64,
    pub rotation: Option<i64>,
    pub kind: Option<&'a str>,
    pub shape: Option<&'a str>,
}

pub open spec fn or_text(t: Option<&str>, other: Seq<char>) -> Seq<char> {
    match t {
        Some(t) => t@,
        None => other,
    }
}

pub open spec fn or_zero(n: Option<i64>) -> int {
    match n {
        Some(n) => n as int,
        None => 0,
    }
}

/// How a label is written: quotation marks in its text are escaped.
pub open spec fn label_text(l: Label, stamp: Seq<char>) -> Seq<char> {
    if or_text(l.kind, "local"@) == "global"@ {
        global_label(
            escaped(l.text@),
            or_text(l.shape, "bidirectional"@),
            l.x as int,
            l.y as int,
            or_zero(l.rotation),
            stamp,
        )
    } else {
        local_label(escaped(l.text@), l.x as int, l.y as int, or_zero(l.rotation), stamp)
    }
}

/// Adds a label.
pub fn add_label(content: &str, l: Label, stamp: &str) -> (out: Result<Edit, String>)
    ensures
        edit_model(out) == addition(
            content@,
            label_text(l, stamp@),
            label_added(or_text(l.kind, "local"@), l.text@, l.x as int, l.y as int),
        ),
{
    let kind: &str = match l.kind {
        Some(k) => k,
        None => "local",
    };
    let turn: i64 = match l.rotation {
        Some(r) => r,
        None => 0,
    };
    let said = escape(l.text);
    let element = if same_str(kind, "global") {
        let shape: &str = match l.shape {
            Some(s) => s,
            None => "bidirectional",
        };
        write_global_label(said.as_str(), shape, l.x, l.y, turn, stamp)
    } else {
        write_local_label(said.as_str(), l.x, l.y, turn, stamp)
    };
    make_addition(content, element, write_label_added(kind, l.text, l.x, l.y))
}

/// How a placement begins.
pub open spec fn placed_mark(x: int, y: int) -> Seq<char> {
    "(at "@ + plain(x) + " "@ + plain(y)
}

fn write_placed_mark(x: i64, y: i64) -> (out: String)
    ensures
        out@ == placed_mark(x as int, y as int),
{
    let mut out = to_chars("(at ");
    extend_plain(&mut out, x);
    extend_str(&mut out, " ");
    extend_plain(&mut out, y);
    proof {
        assert(out@ =~= placed_mark(x as int, y as int));
    }
    to_text(out.as_slice())
}

/// Whether a placement at given coordinates begins at a place: white space or a bracket
/// follows the second of them.
pub open spec fn placed_at(text: Seq<char>, at: int, x: int, y: int) -> bool {
    let mark = placed_mark(x, y);
    &&& matches_at(text, mark, at)
    &&& at + mark.len() < text.len()
    &&& is_space(text[at + mark.len()]) || text[at + mark.len()] == ')'
}

/// How a label of one sheet begins.
pub open spec fn local_mark(text: Seq<char>) -> Seq<char> {
    "(label \""@ + text + "\""@
}

fn write_local_mark(text: &str) -> (out: String)
    ensures
        out@ == local_mark(text@),
{
    let mut out = to_chars("(label \"");
    extend_str(&mut out, text);
    extend_str(&mut out, "\"");
    proof {
        assert(out@ =~= local_mark(text@));
    }
    to_text(out.as_slice())
}

/// How a label of all sheets begins.
pub open spec fn global_mark(text: Seq<char>) -> Seq<char> {
    "(global_label \""@ + text + "\""@
}

fn write_global_mark(text: &str) -> (out: String)
    ensures
        out@ == global_mark(text@),
{
    let mut out = to_chars("(global_label \"");
    extend_str(&mut out, text);
    extend_str(&mut out, "\"");
    proof {
        assert(out@ =~= global_mark(text@));
    }
    to_text(out.as_slice())
}

/// A placement with a turn as it is written.
pub open spec fn new_place(x: int, y: int, turn: Seq<char>) -> Seq<char> {
    "(at "@ + plain(x) + " "@ + plain(y) + " "@ + turn + ")"@
}

fn write_new_place(x: i64, y: i64, turn: &str) -> (out: String)
    ensures
        out@ == new_place(x as int, y as int, turn@),
{
    let mut out = to_chars("(at ");
    extend_plain(&mut out, x);
    extend_str(&mut out, " ");
    extend_plain(&mut out, y);
    extend_str(&mut out, " ");
    extend_str(&mut out, turn);
    extend_str(&mut out, ")");
    proof {
        assert(out@ =~= new_place(x as int, y as int, turn@));
    }
    to_text(out.as_slice())
}

/// The label is not there.
pub open spec fn label_missing(text: Seq<char>, x: int, y: int, path: Seq<char>) -> Seq<char> {
    "Label \""@ + text + "\" at ("@ + plain(x) + ", "@ + plain(y) + ") not found in "@ + path
}

fn write_label_missing(text: &str, x: i64, y: i64, path: &str) -> (out: String)
    ensures
        out@ == label_missing(text@, x as int, y as int, path@),
{
    let mut out = to_chars("Label \"");
    extend_str(&mut out, text);
    extend_str(&mut out, "\" at (");
    extend_plain(&mut out, x);
    extend_str(&mut out, ", ");
    extend_plain(&mut out, y);
    extend_str(&mut out, ") not found in ");
    extend_str(&mut out, path);
    proof {
        assert(out@ =~= label_missing(text@, x as int, y as int, path@));
    }
    to_text(out.as_slice())
}

/// Where a label was moved to.
pub open spec fn label_moved(text: Seq<char>, x: int, y: int, nx: int, ny: int) -> Seq<char> {
    "Label \""@ + text + "\" moved from ("@ + plain(x) + ", "@ + plain(y) + ") to ("@
        + plain(nx) + ", "@ + plain(ny) + ")"@
}

fn write_label_moved(text: &str, x: i64, y: i64, nx: i64, ny: i64) -> (out: String)
    ensures
        out@ == label_moved(text@, x as int, y as int, nx as int, ny as int),
{
    let mut out = to_chars("Label \"");
    extend_str(&mut out, text);
    extend_str(&mut out, "\" moved from (");
    extend_plain(&mut out, x);
    extend_str(&mut out, ", ");
    extend_plain(&mut out, y);
    extend_str(&mut out, ") to (");
    extend_plain(&mut out, nx);
    extend_str(&mut out, ", ");
    extend_plain(&mut out, ny);
    extend_str(&mut out, ")");
    proof {
        assert(out@ =~= label_moved(text@, x as int, y as int, nx as int, ny as int));
    }
    to_text(out.as_slice())
}

/// A label text as it stands in a file.
pub open spec fn escaped(text: Seq<char>) -> Seq<char> {
    replaced(text, seq!['"'], seq!['\\', '"'])
}

pub(crate) fn escape(text: &str) -> (out: String)
    ensures
        out@ == escaped(text@),
{
    let chars = to_chars(text);
    let old_: Vec<char> = vec!['"'];
    let new: Vec<char> = vec!['\\', '"'];
    proof {
        assert(old_@ =~= seq!['"']);
        assert(new@ =~= seq!['\\', '"']);
    }
    let out = replace(chars.as_slice(), old_.as_slice(), new.as_slice());
    to_text(out.as_slice())
}

/// The turn that a placement gives, as it is written.
pub open spec fn written_turn(clause: Seq<char>) -> Seq<char> {
    match nth_word(clause, 1, 3) {
        Some(w) => w,
        None => "0"@,
    }
}

/// A schematic with the placement that begins at a place replaced; none if it does
/// not end.
pub open spec fn with_place(text: Seq<char>, at: int, x: int, y: int, turn: Option<int>) -> Option<
    Seq<char>,
> {
    match find(text, ")"@, at) {
        None => None,
        Some(close) => Some(
            spliced(
                text,
                at,
                close + 1,
                new_place(
                    x,
                    y,
                    match turn {
                        Some(t) => plain(t),
                        None => written_turn(text.subrange(at, close)),
                    },
                ),
            ),
        ),
    }
}

fn set_place(text: &[char], at: usize, x: i64, y: i64, turn: Option<i64>) -> (out: Option<Vec<char>>)
    requires
        at < text@.len(),
    ensures
        (match out {
            Some(t) => Some(t@),
            None => None,
        }) == with_place(text@, at as int, x as int, y as int, wide(turn)),
{
    let mark = to_chars(")");
    proof {
        reveal_strlit(")");
        lemma_find_is_first(text@, mark@, at as int);
    }
    match find_from(text, mark.as_slice(), at) {
        None => None,
        Some(close) => {
            let mut said: Vec<char> = Vec::new();
            match turn {
                Some(t) => {
                    extend_plain(&mut said, t);
                    proof {
                        assert(said@ =~= plain(t as int));
                    }
                },
                None => {
                    let clause = slice_subrange(text, at, close);
                    if clause.len() == 0 {
                        extend_str(&mut said, "0");
                    } else {
                        match find_word(clause, 1, 3) {
                            Some(w) => {
                                extend(&mut said, w.as_slice());
                            },
                            None => {
                                extend_str(&mut said, "0");
                            },
                        }
                    }
                    proof {
                        lemma_no_word_past_end(clause@);
                        assert(said@ =~= written_turn(clause@));
                    }
                },
            }
            let turn_text = to_text(said.as_slice());
            let new = to_chars(write_new_place(x, y, turn_text.as_str()).as_str());
            Some(splice(text, at, close + 1, new.as_slice()))
        },
    }
}

proof fn lemma_no_word_past_end(clause: Seq<char>)
    ensures
        clause.len() == 0 ==> nth_word(clause, 1, 3) is None,
{
    reveal_with_fuel(crate::fields::past_spaces, 2);
    reveal_with_fuel(nth_word, 2);
}

/// Where the placement is of the first block from `from` on that begins with `mark`
/// and whose placement, the first in it, is at the given coordinates.
pub open spec fn label_place(
    text: Seq<char>,
    mark: Seq<char>,
    x: int,
    y: int,
    from: int,
) -> Option<int>
    decreases text.len() - from,
    when 0 <= from && 0 < mark.len()
    via label_place_decreases
{
    match find(text, mark, from) {
        None => None,
        Some(start) => {
            let end = end_of_block(text, start);
            let found = match find(text.take(end), "(at "@, start) {
                Some(at) => if placed_at(text.take(end), at, x, y) {
                    Some(at)
                } else {
                    None
                },
                None => None,
            };
            match found {
                Some(at) => Some(at),
                None => label_place(text, mark, x, y, end),
            }
        },
    }
}

proof fn lemma_label_ahead(text: Seq<char>, mark: Seq<char>, from: int)
    requires
        0 <= from,
        0 < mark.len(),
    ensures
        find(text, mark, from) matches Some(start) ==> from <= start < end_of_block(text, start)
            <= text.len(),
{
    lemma_find_is_first(text, mark, from);
    if let Some(start) = find(text, mark, from) {
        lemma_close_bounds(text, start, 0, false);
    }
}

#[via_fn]
proof fn label_place_decreases(text: Seq<char>, mark: Seq<char>, x: int, y: int, from: int) {
    lemma_label_ahead(text, mark, from);
}

/// A schematic with a label of a place moved; none if there is no such label.
pub open spec fn with_label_moved(
    text: Seq<char>,
    label: Seq<char>,
    from: (int, int),
    to: (int, int),
    turn: Option<int>,
) -> Option<Seq<char>> {
    let first = match label_place(text, local_mark(escaped(label)), from.0, from.1, 0) {
        None => None,
        Some(at) => with_place(text, at, to.0, to.1, turn),
    };
    match first {
        Some(new) => Some(new),
        None => match label_place(text, global_mark(escaped(label)), from.0, from.1, 0) {
            None => None,
            Some(at) => with_place(text, at, to.0, to.1, turn),
        },
    }
}

fn is_placed_at(text: &[char], at: usize, x: i64, y: i64) -> (yes: bool)
    ensures
        yes == placed_at(text@, at as int, x as int, y as int),
{
    let mark = to_chars(write_placed_mark(x, y).as_str());
    let n: usize = text.len();
    if !has_at(text, mark.as_slice(), at) {
        return false;
    }
    let past: usize = at + mark.len();
    past < n && (space(text[past]) || text[past] == ')')
}

fn find_place(text: &[char], mark: &[char], x: i64, y: i64) -> (at: Option<usize>)
    requires
        0 < mark@.len(),
    ensures
        (match at {
            Some(p) => Some(p as int),
            None => None,
        }) == label_place(text@, mark@, x as int, y as int, 0),
        at matches Some(p) ==> p < text@.len(),
{
    let key = to_chars("(at ");
    let mut from: usize = 0;
    loop
        invariant
            0 < mark@.len(),
            key@ == "(at "@,
            from <= text@.len(),
            label_place(text@, mark@, x as int, y as int, 0) == label_place(
                text@,
                mark@,
                x as int,
                y as int,
                from as int,
            ),
        decreases text@.len() - from,
    {
        proof {
            lemma_label_ahead(text@, mark@, from as int);
        }
        match find_from(text, mark, from) {
            None => {
                return None;
            },
            Some(start) => {
                let end: usize = block_end(text, start);
                let block = slice_subrange(text, 0, end);
                proof {
                    reveal_strlit("(at ");
                    assert(block@ =~= text@.take(end as int));
                    lemma_find_is_first(block@, key@, start as int);
                }
                match find_from(block, key.as_slice(), start) {
                    Some(at) => {
                        if is_placed_at(block, at, x, y) {
                            return Some(at);
                        }
                    },
                    None => {},
                }
                from = end;
            },
        }
    }
}

fn shift_label(
    text: &[char],
    label: &str,
    from: (i64, i64),
    to: (i64, i64),
    turn: Option<i64>,
) -> (out: Option<Vec<char>>)
    ensures
        (match out {
            Some(t) => Some(t@),
            None => None,
        }) == with_label_moved(
            text@,
            label@,
            (from.0 as int, from.1 as int),
            (to.0 as int, to.1 as int),
            wide(turn),
        ),
{
    let said = escape(label);
    let local = to_chars(write_local_mark(said.as_str()).as_str());
    let global = to_chars(write_global_mark(said.as_str()).as_str());
    proof {
        reveal_strlit("(label \"");
        reveal_strlit("(global_label \"");
    }
    match find_place(text, local.as_slice(), from.0, from.1) {
        None => {},
        Some(at) => {
            match set_place(text, at, to.0, to.1, turn) {
                Some(new) => {
                    return Some(new);
                },
                None => {},
            }
        },
    }
    match find_place(text, global.as_slice(), from.0, from.1) {
        None => None,
        Some(at) => set_place(text, at, to.0, to.1, turn),
    }
}

/// Moves a label from a place to another. Its turn stays unless another is given.
pub fn move_label(
    content: &str,
    path: &str,
    label: &str,
    from: (i64, i64),
    to: (i64, i64),
    rotation: Option<i64>,
) -> (out: Result<Edit, String>)
    ensures
        edit_model(out) == (match with_label_moved(
            content@,
            label@,
            (from.0 as int, from.1 as int),
            (to.0 as int, to.1 as int),
            wide(rotation),
        ) {
            Some(new) => Ok(
                (
                    new,
                    label_moved(
                        label@,
                        from.0 as int,
                        from.1 as int,
                        to.0 as int,
                        to.1 as int,
                    ),
                ),
            ),
            None => Err(label_missing(label@, from.0 as int, from.1 as int, path@)),
        }),
{
    let text = to_chars(content);
    match shift_label(text.as_slice(), label, from, to, rotation) {
        Some(new) => Ok(
            Edit {
                content: to_text(new.as_slice()),
                summary: write_label_moved(label, from.0, from.1, to.0, to.1),
            },
        ),
        None => Err(write_label_missing(label, from.0, from.1, path)),
    }
}

/// No symbol has the reference.
pub open spec fn symbol_missing(reference: Seq<char>) -> Seq<char> {
    "Symbol '"@ + reference + "' not found in schematic."@
}

fn write_symbol_missing(reference: &str) -> (out: String)
    ensures
        out@ == symbol_missing(reference@),
{
    let mut out = to_chars("Symbol '");
    extend_str(&mut out, reference);
    extend_str(&mut out, "' not found in schematic.");
    proof {
        assert(out@ =~= symbol_missing(reference@));
    }
    to_text(out.as_slice())
}

/// Where a symbol was moved to.
pub open spec fn symbol_moved(reference: Seq<char>, x: int, y: int) -> Seq<char> {
    "Moved "@ + reference + " to ("@ + plain(x) + ", "@ + plain(y) + ")"@
}

fn write_symbol_moved(reference: &str, x: i64, y: i64) -> (out: String)
    ensures
        out@ == symbol_moved(reference@, x as int, y as int),
{
    let mut out = to_chars("Moved ");
    extend_str(&mut out, reference);
    extend_str(&mut out, " to (");
    extend_plain(&mut out, x);
    extend_str(&mut out, ", ");
    extend_plain(&mut out, y);
    extend_str(&mut out, ")");
    proof {
        assert(out@ =~= symbol_moved(reference@, x as int, y as int));
    }
    to_text(out.as_slice())
}

/// Moves a symbol, and tells where to.
pub fn move_symbol_to(content: &str, reference: &str, x: i64, y: i64, rotation: Option<i64>) -> (out:
    Result<Edit, String>)
    ensures
        edit_model(out) == (match with_symbol_at(
            content@,
            reference@,
            x as int,
            y as int,
            wide(rotation),
        ) {
            Some(new) => Ok((new, symbol_moved(reference@, x as int, y as int))),
            None => Err(symbol_missing(reference@)),
        }),
{
    match move_symbol(content, reference, x, y, rotation) {
        Some(content) => Ok(Edit { content, summary: write_symbol_moved(reference, x, y) }),
        None => Err(write_symbol_missing(reference)),
    }
}

/// The symbol is not there, or has no pins.
pub open spec fn pins_missing(reference: Seq<char>) -> Seq<char> {
    "Symbol '"@ + reference + "' not found or has no pins in lib_symbols."@
}

fn write_pins_missing(reference: &str) -> (out: String)
    ensures
        out@ == pins_missing(reference@),
{
    let mut out = to_chars("Symbol '");
    extend_str(&mut out, reference);
    extend_str(&mut out, "' not found or has no pins in lib_symbols.");
    proof {
        assert(out@ =~= pins_missing(reference@));
    }
    to_text(out.as_slice())
}

/// The pins of a symbol on the sheet.
pub open spec fn pins_on_sheet(text: Seq<char>, reference: Seq<char>, cos: int, sin: int) -> Seq<
    (Seq<char>, Seq<char>, int, int),
> {
    match symbol_pins(text, reference) {
        None => Seq::empty(),
        Some((at, pins)) => spots_of(pins, at, cos, sin),
    }
}

/// Tells where the pins of a symbol are, or one of them. `cos` and `sin` are those of
/// the turn of the symbol.
pub fn get_pin_position(content: &str, reference: &str, pin: Option<&str>, cos: i64, sin: i64) -> (out:
    Result<String, String>)
    requires
        -1_000_000_000 <= cos <= 1_000_000_000,
        -1_000_000_000 <= sin <= 1_000_000_000,
    ensures
        answer_model(out) == ({
            let list = pins_on_sheet(content@, reference@, cos as int, sin as int);
            if list.len() == 0 {
                Err(pins_missing(reference@))
            } else {
                Ok(pins_report(list, reference@, pin))
            }
        }),
{
    let list = compute_pin_positions(content, reference, cos, sin);
    proof {
        assert(pin_spots(list@).len() == list@.len());
    }
    if list.len() == 0 {
        Err(write_pins_missing(reference))
    } else {
        Ok(describe_pins(&list, reference, pin))
    }
}

} // verus!
