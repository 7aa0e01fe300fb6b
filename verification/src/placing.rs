//! Where symbols and parts are placed, and moving them.
//!
//! Coordinates are in nanometres, angles in millionths of a degree. Turning takes the
//! cosine and the sine of the angle in billionths.

use crate::decimal::parse_nanometres;
use crate::fields::{next_word, trim_brackets, without_brackets, word};
use crate::insert::{extend_point, point_text};
use crate::pads::length_of;
use crate::schematic::{definition, definition_span, span_map, symbol_table, symbols};
use crate::sexpr::{block_end, end_of_block, pair, quoted, quoted_after, Span};
use crate::replace::library_span;
use crate::tables::place;
use crate::text::{
    extend, extend_str, find, find_from, lemma_find_is_first, line_start, same_str, splice,
    spliced, start_of_line, to_chars, to_text,
};
use crate::traces::field_or_empty;
use crate::units::{extend_fixed, extend_plain, fixed, magnitude, plain};
use vstd::prelude::*;
use vstd::slice::slice_subrange;

verus! {

/// The nearest whole number to a number of billionths, a half rounded up.
pub open spec fn from_billionths(n: int) -> int {
    (n + 500_000_000) / 1_000_000_000
}

/// A point turned about the origin.
pub open spec fn turned(p: (int, int), cos: int, sin: int) -> (int, int) {
    (from_billionths(p.0 * cos - p.1 * sin), from_billionths(p.0 * sin + p.1 * cos))
}

fn nearest(n: i128) -> (m: i128)
    requires
        -0x4000_0000_0000_0000_0000_0000 <= n <= 0x4000_0000_0000_0000_0000_0000,
    ensures
        m == from_billionths(n as int),
{
    let k: i128 = n + 500_000_000;
    if k >= 0 {
        k / 1_000_000_000
    } else {
        -((-k + 999_999_999) / 1_000_000_000)
    }
}

/// Turns a point about the origin and moves it. None if it ends out of range.
pub fn turn_and_move(p: (i64, i64), cos: i64, sin: i64, by_: (i64, i64)) -> (out: Option<(i64, i64)>)
    requires
        -1_000_000_000 <= cos <= 1_000_000_000,
        -1_000_000_000 <= sin <= 1_000_000_000,
    ensures
        ({
            let t = turned((p.0 as int, p.1 as int), cos as int, sin as int);
            let x = by_.0 + t.0;
            let y = by_.1 + t.1;
            if i64::MIN <= x <= i64::MAX && i64::MIN <= y <= i64::MAX {
                out == Some((x as i64, y as i64))
            } else {
                out is None
            }
        }),
{
    proof {
        lemma_turn_bound(p.0 as int, cos as int);
        lemma_turn_bound(p.1 as int, sin as int);
        lemma_turn_bound(p.0 as int, sin as int);
        lemma_turn_bound(p.1 as int, cos as int);
    }
    let x: i128 = by_.0 as i128 + nearest(p.0 as i128 * cos as i128 - p.1 as i128 * sin as i128);
    let y: i128 = by_.1 as i128 + nearest(p.0 as i128 * sin as i128 + p.1 as i128 * cos as i128);
    if -0x8000_0000_0000_0000 <= x && x <= 0x7fff_ffff_ffff_ffff && -0x8000_0000_0000_0000 <= y && y
        <= 0x7fff_ffff_ffff_ffff {
        Some((x as i64, y as i64))
    } else {
        None
    }
}

proof fn lemma_turn_bound(x: int, c: int)
    requires
        -0x8000_0000_0000_0000 <= x <= 0x8000_0000_0000_0000,
        -1_000_000_000 <= c <= 1_000_000_000,
    ensures
        -0x2000_0000_0000_0000_0000_0000 <= x * c <= 0x2000_0000_0000_0000_0000_0000,
{
    assert(-0x2000_0000_0000_0000_0000_0000 <= x * c <= 0x2000_0000_0000_0000_0000_0000)
        by (nonlinear_arith)
        requires
            -0x8000_0000_0000_0000 <= x <= 0x8000_0000_0000_0000,
            -1_000_000_000 <= c <= 1_000_000_000,
    ;
}

/// By a quarter turn, points keep exactly to the grid.
pub proof fn lemma_quarter_turns(p: (int, int))
    ensures
        turned(p, 1_000_000_000, 0) == p,
        turned(p, 0, 1_000_000_000) == (-p.1, p.0),
        turned(p, -1_000_000_000, 0) == (-p.0, -p.1),
        turned(p, 0, -1_000_000_000) == (p.1, -p.0),
{
}

/// The word `n` words after a place.
pub open spec fn nth_word(text: Seq<char>, from: int, n: nat) -> Option<Seq<char>>
    decreases n,
{
    match word(text, from) {
        None => None,
        Some((a, b)) => if n == 0 {
            Some(text.subrange(a, b))
        } else {
            nth_word(text, b, (n - 1) as nat)
        },
    }
}

/// Finds the word `n` words after a place.
pub fn find_word(text: &[char], from: usize, n: usize) -> (found: Option<Vec<char>>)
    requires
        from <= text@.len(),
    ensures
        (match found {
            Some(w) => Some(w@),
            None => None,
        }) == nth_word(text@, from as int, n as nat),
    decreases n,
{
    match next_word(text, from) {
        None => None,
        Some((a, b)) => if n == 0 {
            let mut out: Vec<char> = Vec::new();
            extend(&mut out, slice_subrange(text, a, b));
            proof {
                assert(out@ =~= text@.subrange(a as int, b as int));
            }
            Some(out)
        } else {
            find_word(text, b, n - 1)
        },
    }
}

/// What a word gives as a number; nothing counts as zero.
pub open spec fn word_number(w: Option<Seq<char>>, bracketed: bool) -> int {
    match w {
        None => 0,
        Some(w) => length_of(if bracketed {
            trim_brackets(w)
        } else {
            w
        }),
    }
}

fn read_word_number(text: &[char], from: usize, n: usize, bracketed: bool) -> (v: i64)
    requires
        from <= text@.len(),
    ensures
        v == word_number(nth_word(text@, from as int, n as nat), bracketed),
{
    match find_word(text, from, n) {
        None => 0,
        Some(w) => {
            let found = if bracketed {
                parse_nanometres(without_brackets(w.as_slice()))
            } else {
                parse_nanometres(w.as_slice())
            };
            match found {
                Some(v) => v,
                None => 0,
            }
        },
    }
}

/// Where something says it is placed: across, down and turn. What is missing counts as
/// zero.
pub open spec fn stated_place(block: Seq<char>) -> (int, int, int) {
    match find(block, "(at "@, 0) {
        None => (0, 0, 0),
        Some(at) => (
            word_number(nth_word(block, at + 4, 0), false),
            word_number(nth_word(block, at + 4, 1), true),
            word_number(nth_word(block, at + 4, 2), true),
        ),
    }
}

/// Where something says it is placed.
pub fn read_stated_place(block: &[char]) -> (p: (i64, i64, i64))
    ensures
        (p.0 as int, p.1 as int, p.2 as int) == stated_place(block@),
{
    let marker = to_chars("(at ");
    proof {
        reveal_strlit("(at ");
        lemma_find_is_first(block@, marker@, 0);
    }
    match find_from(block, marker.as_slice(), 0) {
        None => (0, 0, 0),
        Some(at) => (
            read_word_number(block, at + 4, 0, false),
            read_word_number(block, at + 4, 1, true),
            read_word_number(block, at + 4, 2, true),
        ),
    }
}

/// Where the bracket closes that was opened `depth` times before a place; brackets in
/// quotation marks count like others.
pub open spec fn closing(text: Seq<char>, at: int, depth: int) -> Option<int>
    decreases text.len() - at,
{
    if at < 0 || at >= text.len() {
        None
    } else if text[at] == '(' {
        closing(text, at + 1, depth + 1)
    } else if text[at] == ')' {
        if depth == 1 {
            Some(at)
        } else {
            closing(text, at + 1, depth - 1)
        }
    } else {
        closing(text, at + 1, depth)
    }
}

fn find_closing(text: &[char], from: usize) -> (found: Option<usize>)
    requires
        from <= text@.len(),
    ensures
        (match found {
            Some(p) => Some(p as int),
            None => None,
        }) == closing(text@, from as int, 1),
        found matches Some(p) ==> from <= p < text@.len(),
{
    let mut at: usize = from;
    let mut depth: u128 = 1;
    while at < text.len()
        invariant
            from <= at <= text@.len(),
            1 <= depth <= at - from + 1,
            closing(text@, from as int, 1) == closing(text@, at as int, depth as int),
        decreases text@.len() - at,
    {
        if text[at] == '(' {
            depth += 1;
        } else if text[at] == ')' {
            if depth == 1 {
                return Some(at);
            }
            depth -= 1;
        }
        at += 1;
    }
    None
}

/// A placement. A turn of less than a thousandth of a degree is left out.
pub open spec fn place_text(x: int, y: int, turn: int) -> Seq<char> {
    if magnitude(turn) < 1000 {
        "(at "@ + point_text(x, y) + ")"@
    } else {
        "(at "@ + point_text(x, y) + " "@ + plain(turn) + ")"@
    }
}

pub(crate) fn write_place(x: i64, y: i64, turn: i64) -> (out: Vec<char>)
    ensures
        out@ == place_text(x as int, y as int, turn as int),
{
    let mut out = to_chars("(at ");
    extend_point(&mut out, x, y);
    if !(-1000 < turn && turn < 1000) {
        extend_str(&mut out, " ");
        extend_plain(&mut out, turn);
    }
    extend_str(&mut out, ")");
    out
}

/// Where the placement of a block ends.
pub open spec fn place_end(block: Seq<char>, at: int) -> int {
    match closing(block, at + 4, 1) {
        Some(p) => p + 1,
        None => if at + 5 <= block.len() {
            at + 5
        } else {
            block.len() as int
        },
    }
}

/// The turn that the placement of a block gives.
pub open spec fn place_turn(block: Seq<char>, at: int) -> int {
    word_number(nth_word(block.subrange(at + 4, place_end(block, at)), 0, 2), true)
}

/// A block of a schematic at another place; its turn stays unless another is given.
pub open spec fn placed_at(block: Seq<char>, x: int, y: int, turn: Option<int>) -> Seq<char> {
    match find(block, "(at "@, 0) {
        None => block,
        Some(at) => spliced(
            block,
            at,
            place_end(block, at),
            place_text(
                x,
                y,
                match turn {
                    Some(t) => t,
                    None => place_turn(block, at),
                },
            ),
        ),
    }
}

pub open spec fn wide(n: Option<i64>) -> Option<int> {
    match n {
        Some(n) => Some(n as int),
        None => None,
    }
}

fn put_at(block: &[char], x: i64, y: i64, turn: Option<i64>) -> (out: Vec<char>)
    ensures
        out@ == placed_at(block@, x as int, y as int, wide(turn)),
{
    let marker = to_chars("(at ");
    proof {
        reveal_strlit("(at ");
        lemma_find_is_first(block@, marker@, 0);
    }
    match find_from(block, marker.as_slice(), 0) {
        None => {
            let mut out: Vec<char> = Vec::new();
            extend(&mut out, block);
            proof {
                assert(out@ =~= block@);
            }
            out
        },
        Some(at) => {
            let end: usize = match find_closing(block, at + 4) {
                Some(p) => p + 1,
                None => if at + 4 < block.len() {
                    at + 5
                } else {
                    block.len()
                },
            };
            let inner = slice_subrange(block, at + 4, end);
            let turn: i64 = match turn {
                Some(t) => t,
                None => read_word_number(inner, 0, 2, true),
            };
            let new = write_place(x, y, turn);
            splice(block, at, end, new.as_slice())
        },
    }
}

/// Puts a block of a schematic at another place.
pub fn sch_replace_at(block: &str, x: i64, y: i64, rotation: Option<i64>) -> (out: String)
    ensures
        out@ == placed_at(block@, x as int, y as int, wide(rotation)),
{
    let text = to_chars(block);
    let out = put_at(text.as_slice(), x, y, rotation);
    to_text(out.as_slice())
}

/// A schematic with a symbol at another place; none if there is no such symbol.
pub open spec fn with_symbol_at(
    text: Seq<char>,
    reference: Seq<char>,
    x: int,
    y: int,
    turn: Option<int>,
) -> Option<Seq<char>> {
    if symbols(text).contains_key(reference) {
        let span = symbols(text)[reference];
        Some(
            spliced(
                text,
                span.0,
                span.1,
                placed_at(text.subrange(span.0, span.1), x, y, turn),
            ),
        )
    } else {
        None
    }
}

pub open spec fn text_of(t: Option<String>) -> Option<Seq<char>> {
    match t {
        Some(t) => Some(t@),
        None => None,
    }
}

fn symbol_span(text: &[char], reference: &str) -> (span: Option<Span>)
    ensures
        span is Some == symbols(text@).contains_key(reference@),
        span matches Some(s) ==> pair(s) == symbols(text@)[reference@] && s.start <= s.end
            <= text@.len(),
{
    let table = symbol_table(text);
    match table.get(reference) {
        Some(s) => {
            proof {
                assert(span_map(table@)[reference@] == pair(*s));
            }
            Some(Span { start: s.start, end: s.end })
        },
        None => {
            proof {
                assert(span_map(table@).contains_key(reference@) == table@.contains_key(
                    reference@,
                ));
            }
            None
        },
    }
}

/// Puts a symbol of a schematic at another place.
pub fn move_symbol(content: &str, reference: &str, x: i64, y: i64, rotation: Option<i64>) -> (out:
    Option<String>)
    ensures
        text_of(out) == with_symbol_at(content@, reference@, x as int, y as int, wide(rotation)),
{
    let text = to_chars(content);
    match symbol_span(text.as_slice(), reference) {
        None => None,
        Some(s) => {
            let block = put_at(
                slice_subrange(text.as_slice(), s.start, s.end),
                x,
                y,
                rotation,
            );
            let out = splice(text.as_slice(), s.start, s.end, block.as_slice());
            Some(to_text(out.as_slice()))
        },
    }
}

/// A pin as its symbol is defined.
#[derive(Debug)]
pub struct PinPlace {
    pub number: String,
    pub name: String,
    pub x: i64,
    pub y: i64,
}

/// A pin as its symbol is defined, in texts and numbers.
#[verifier::ext_equal]
pub struct PinModel {
    pub number: Seq<char>,
    pub name: Seq<char>,
    pub x: int,
    pub y: int,
}

pub open spec fn pin_model(p: PinPlace) -> PinModel {
    PinModel { number: p.number@, name: p.name@, x: p.x as int, y: p.y as int }
}

pub open spec fn pin_models(list: Seq<PinPlace>) -> Seq<PinModel> {
    list.map_values(|p: PinPlace| pin_model(p))
}

/// Whether nothing but blanks stands before a place on its line.
pub open spec fn first_on_line(text: Seq<char>, at: int) -> bool {
    let start = line_start(text, at);
    forall|i: int| start <= i < at ==> (#[trigger] text[i] == ' ' || text[i] == '\t')
}

pub(crate) fn is_first_on_line(text: &[char], at: usize) -> (yes: bool)
    requires
        at <= text@.len(),
    ensures
        yes == first_on_line(text@, at as int),
{
    let start: usize = start_of_line(text, at);
    let mut i: usize = start;
    while i < at
        invariant
            start <= i <= at <= text@.len(),
            start == line_start(text@, at as int),
            forall|j: int| start <= j < i ==> (#[trigger] text@[j] == ' ' || text@[j] == '\t'),
        decreases at - i,
    {
        if text[i] != ' ' && text[i] != '\t' {
            assert(!(text@[i as int] == ' ' || text@[i as int] == '\t'));
            return false;
        }
        i += 1;
    }
    true
}

/// The pins of a definition from a place on. A pin without a number does not count.
pub open spec fn pins_from(text: Seq<char>, from: int) -> Seq<PinModel>
    decreases text.len() - from,
    when 0 <= from
    via pins_decreases
{
    match find(text, "(pin "@, from) {
        None => Seq::empty(),
        Some(at) => if first_on_line(text, at) {
            let end = end_of_block(text, at);
            let block = text.subrange(at, end);
            let number = field_or_empty(block, "(number \""@);
            let rest = pins_from(text, end);
            if number.len() == 0 {
                rest
            } else {
                let p = stated_place(block);
                seq![
                    PinModel {
                        number,
                        name: field_or_empty(block, "(name \""@),
                        x: p.0,
                        y: p.1,
                    },
                ] + rest
            }
        } else {
            pins_from(text, at + 1)
        },
    }
}

#[via_fn]
proof fn pins_decreases(text: Seq<char>, from: int) {
    reveal_strlit("(pin ");
    lemma_find_is_first(text, "(pin "@, from);
    match find(text, "(pin "@, from) {
        None => {},
        Some(at) => {
            crate::sexpr::lemma_close_bounds(text, at, 0, false);
        },
    }
}

fn field_text(block: &[char], marker: &str) -> (out: String)
    ensures
        out@ == field_or_empty(block@, marker@),
{
    let wanted = to_chars(marker);
    match quoted(block, wanted.as_slice()) {
        Some(v) => to_text(v.as_slice()),
        None => {
            let out = String::new();
            proof {
                assert(out@ =~= field_or_empty(block@, marker@));
            }
            out
        },
    }
}

fn read_pins(text: &[char]) -> (out: Vec<PinPlace>)
    ensures
        pin_models(out@) == pins_from(text@, 0),
{
    let marker = to_chars("(pin ");
    proof {
        reveal_strlit("(pin ");
    }
    let mut out: Vec<PinPlace> = Vec::new();
    let mut from: usize = 0;
    let ghost all = pins_from(text@, 0);
    proof {
        assert(pin_models(out@) + all =~= all);
    }
    loop
        invariant
            from <= text@.len(),
            marker@ == "(pin "@,
            marker@.len() == 5,
            all == pin_models(out@) + pins_from(text@, from as int),
        ensures
            pin_models(out@) == all,
        decreases text@.len() - from,
    {
        proof {
            lemma_find_is_first(text@, marker@, from as int);
            assert(pin_models(out@) + Seq::<PinModel>::empty() =~= pin_models(out@));
        }
        match find_from(text, marker.as_slice(), from) {
            None => {
                break;
            },
            Some(at) => {
                if is_first_on_line(text, at) {
                    let end: usize = block_end(text, at);
                    let block = slice_subrange(text, at, end);
                    let number = field_text(block, "(number \"");
                    let digits = to_chars(number.as_str());
                    let ghost rest = pins_from(text@, end as int);
                    if digits.len() > 0 {
                        let p = read_stated_place(block);
                        let pin = PinPlace {
                            number,
                            name: field_text(block, "(name \""),
                            x: p.0,
                            y: p.1,
                        };
                        let ghost done = out@;
                        out.push(pin);
                        proof {
                            assert(pin_models(out@) =~= pin_models(done).push(pin_model(pin)));
                            assert(pin_models(done) + (seq![pin_model(pin)] + rest) =~= pin_models(
                                out@,
                            ) + rest);
                        }
                    }
                    from = end;
                } else {
                    from = at + 1;
                }
            },
        }
    }
    out
}

/// A symbol on a sheet: where it is placed, and the pins of its definition.
pub open spec fn symbol_pins(text: Seq<char>, reference: Seq<char>) -> Option<
    ((int, int, int), Seq<PinModel>),
> {
    if !symbols(text).contains_key(reference) {
        None
    } else {
        let span = symbols(text)[reference];
        let block = text.subrange(span.0, span.1);
        match (quoted_after(block, "(lib_id \""@), library_span(text)) {
            (Some(id), Some(lib)) => {
                let library = text.subrange(lib.0, lib.1);
                match definition(library, id) {
                    None => None,
                    Some(d) => Some(
                        (stated_place(block), pins_from(library.subrange(d.0, d.1), 0)),
                    ),
                }
            },
            _ => None,
        }
    }
}

/// Where a symbol is placed on its sheet, and the pins of its definition.
pub fn read_symbol_pins(content: &str, reference: &str) -> (out: Option<
    ((i64, i64, i64), Vec<PinPlace>),
>)
    ensures
        (match out {
            Some(r) => Some(
                (((r.0).0 as int, (r.0).1 as int, (r.0).2 as int), pin_models(r.1@)),
            ),
            None => None,
        }) == symbol_pins(content@, reference@),
{
    let text = to_chars(content);
    let span: Span = match symbol_span(text.as_slice(), reference) {
        None => {
            return None;
        },
        Some(s) => s,
    };
    let block = slice_subrange(text.as_slice(), span.start, span.end);
    let id_mark = to_chars("(lib_id \"");
    let id = match quoted(block, id_mark.as_slice()) {
        None => {
            return None;
        },
        Some(id) => to_text(id.as_slice()),
    };
    let mark = to_chars("(lib_symbols");
    proof {
        reveal_strlit("(lib_symbols");
        lemma_find_is_first(text@, mark@, 0);
    }
    let start: usize = match find_from(text.as_slice(), mark.as_slice(), 0) {
        None => {
            return None;
        },
        Some(at) => at,
    };
    let end: usize = block_end(text.as_slice(), start);
    let library = slice_subrange(text.as_slice(), start, end);
    match definition_span(library, id.as_str()) {
        None => None,
        Some(d) => {
            let place = read_stated_place(block);
            let pins = read_pins(slice_subrange(library, d.start, d.end));
            Some((place, pins))
        },
    }
}

/// A pin on the sheet, its symbol turned and moved; none if it ends out of range.
pub open spec fn on_sheet(p: PinModel, at: (int, int, int), cos: int, sin: int) -> (int, int) {
    let t = turned((p.x, p.y), cos, sin);
    (at.0 + t.0, at.1 + t.1)
}

/// Where the pins of a symbol are on the sheet: number, name and coordinates. `cos`
/// and `sin` are those of the turn of the symbol. A pin that ends out of range is left
/// out.
pub fn compute_pin_positions(content: &str, reference: &str, cos: i64, sin: i64) -> (out: Vec<
    (String, String, i64, i64),
>)
    requires
        -1_000_000_000 <= cos <= 1_000_000_000,
        -1_000_000_000 <= sin <= 1_000_000_000,
    ensures
        pin_spots(out@) == (match symbol_pins(content@, reference@) {
            None => Seq::empty(),
            Some((at, pins)) => spots_of(pins, at, cos as int, sin as int),
        }),
{
    let mut out: Vec<(String, String, i64, i64)> = Vec::new();
    proof {
        assert(pin_spots(out@) =~= Seq::empty());
    }
    match read_symbol_pins(content, reference) {
        None => out,
        Some((at, pins)) => {
            let ghost all = pin_models(pins@);
            let ghost where_ = (at.0 as int, at.1 as int, at.2 as int);
            let mut i: usize = 0;
            proof {
                assert(all.take(0).len() == 0);
            }
            while i < pins.len()
                invariant
                    i <= pins@.len(),
                    all == pin_models(pins@),
                    where_ == (at.0 as int, at.1 as int, at.2 as int),
                    -1_000_000_000 <= cos <= 1_000_000_000,
                    -1_000_000_000 <= sin <= 1_000_000_000,
                    pin_spots(out@) == spots_of(all.take(i as int), where_, cos as int, sin as int),
                decreases pins@.len() - i,
            {
                proof {
                    assert(all.take(i + 1).drop_last() =~= all.take(i as int));
                    assert(all.take(i + 1).last() == pin_model(pins@[i as int]));
                }
                let p = &pins[i];
                match turn_and_move((p.x, p.y), cos, sin, (at.0, at.1)) {
                    None => {},
                    Some(q) => {
                        let ghost done = out@;
                        let spot = (p.number.clone(), p.name.clone(), q.0, q.1);
                        out.push(spot);
                        proof {
                            assert(pin_spots(out@) =~= pin_spots(done).push(pin_spot(spot)));
                        }
                    },
                }
                i += 1;
            }
            proof {
                assert(all.take(all.len() as int) =~= all);
            }
            out
        },
    }
}

pub open spec fn pin_spot(p: (String, String, i64, i64)) -> (Seq<char>, Seq<char>, int, int) {
    (p.0@, p.1@, p.2 as int, p.3 as int)
}

pub open spec fn pin_spots(list: Seq<(String, String, i64, i64)>) -> Seq<
    (Seq<char>, Seq<char>, int, int),
> {
    list.map_values(|p: (String, String, i64, i64)| pin_spot(p))
}

/// The pins that stay in range, on the sheet.
pub open spec fn spots_of(pins: Seq<PinModel>, at: (int, int, int), cos: int, sin: int) -> Seq<
    (Seq<char>, Seq<char>, int, int),
>
    decreases pins.len(),
{
    if pins.len() == 0 {
        Seq::empty()
    } else {
        let front = spots_of(pins.drop_last(), at, cos, sin);
        let p = pins.last();
        let q = on_sheet(p, at, cos, sin);
        if i64::MIN <= q.0 <= i64::MAX && i64::MIN <= q.1 <= i64::MAX {
            front.push((p.number, p.name, q.0, q.1))
        } else {
            front
        }
    }
}

/// A pin and where it is.
pub open spec fn pin_line(p: (Seq<char>, Seq<char>, int, int)) -> Seq<char> {
    "  pin "@ + p.0 + " \""@ + p.1 + "\": ("@ + fixed(p.2, 10_000) + ", "@ + fixed(p.3, 10_000)
        + ")"@
}

pub open spec fn pin_lines(list: Seq<(Seq<char>, Seq<char>, int, int)>) -> Seq<char>
    decreases list.len(),
{
    if list.len() == 0 {
        Seq::empty()
    } else {
        pin_lines(list.drop_last()) + "\n"@ + pin_line(list.last())
    }
}

/// The first pin of a number.
pub open spec fn pin_numbered(
    list: Seq<(Seq<char>, Seq<char>, int, int)>,
    number: Seq<char>,
    from: int,
) -> Option<int>
    decreases list.len() - from,
{
    if from < 0 || from >= list.len() {
        None
    } else if list[from].0 == number {
        Some(from)
    } else {
        pin_numbered(list, number, from + 1)
    }
}

/// What is said of the pins of a symbol, or of one of them.
pub open spec fn pins_report(
    list: Seq<(Seq<char>, Seq<char>, int, int)>,
    reference: Seq<char>,
    pin: Option<&str>,
) -> Seq<char> {
    match pin {
        None => "Pins for "@ + reference + ":"@ + pin_lines(list),
        Some(n) => match pin_numbered(list, n@, 0) {
            Some(i) => "Pin "@ + list[i].0 + " (\""@ + list[i].1 + "\") of "@ + reference + ": ("@
                + fixed(list[i].2, 10_000) + ", "@ + fixed(list[i].3, 10_000) + ")"@,
            None => "Pin "@ + n@ + " not found in "@ + reference,
        },
    }
}

fn extend_pin_line(out: &mut Vec<char>, p: &(String, String, i64, i64))
    ensures
        final(out)@ == old(out)@ + pin_line(pin_spot(*p)),
{
    extend_str(out, "  pin ");
    extend_str(out, p.0.as_str());
    extend_str(out, " \"");
    extend_str(out, p.1.as_str());
    extend_str(out, "\": (");
    extend_fixed(out, p.2 as i128, 10_000);
    extend_str(out, ", ");
    extend_fixed(out, p.3 as i128, 10_000);
    extend_str(out, ")");
    proof {
        assert(out@ =~= old(out)@ + pin_line(pin_spot(*p)));
    }
}

/// Tells where the pins of a symbol are, or one of them.
pub fn describe_pins(
    list: &Vec<(String, String, i64, i64)>,
    reference: &str,
    pin: Option<&str>,
) -> (out: String)
    ensures
        out@ == pins_report(pin_spots(list@), reference@, pin),
{
    let ghost all = pin_spots(list@);
    match pin {
        None => {
            let mut out = to_chars("Pins for ");
            extend_str(&mut out, reference);
            extend_str(&mut out, ":");
            let ghost head = out@;
            let mut i: usize = 0;
            proof {
                assert(all.take(0).len() == 0);
                assert(out@ =~= head + pin_lines(all.take(0)));
            }
            while i < list.len()
                invariant
                    i <= list@.len(),
                    all == pin_spots(list@),
                    out@ == head + pin_lines(all.take(i as int)),
                decreases list@.len() - i,
            {
                proof {
                    assert(all.take(i + 1).drop_last() =~= all.take(i as int));
                    assert(all.take(i + 1).last() == pin_spot(list@[i as int]));
                }
                extend_str(&mut out, "\n");
                extend_pin_line(&mut out, &list[i]);
                proof {
                    assert(out@ =~= head + pin_lines(all.take(i + 1)));
                }
                i += 1;
            }
            proof {
                assert(all.take(all.len() as int) =~= all);
            }
            to_text(out.as_slice())
        },
        Some(n) => {
            let mut i: usize = 0;
            while i < list.len()
                invariant
                    i <= list@.len(),
                    all == pin_spots(list@),
                    pin == Some(n),
                    pin_numbered(all, n@, 0) == pin_numbered(all, n@, i as int),
                decreases list@.len() - i,
            {
                assert(all[i as int] == pin_spot(list@[i as int]));
                if same_str(list[i].0.as_str(), n) {
                    let p = &list[i];
                    let mut out = to_chars("Pin ");
                    extend_str(&mut out, p.0.as_str());
                    extend_str(&mut out, " (\"");
                    extend_str(&mut out, p.1.as_str());
                    extend_str(&mut out, "\") of ");
                    extend_str(&mut out, reference);
                    extend_str(&mut out, ": (");
                    extend_fixed(&mut out, p.2 as i128, 10_000);
                    extend_str(&mut out, ", ");
                    extend_fixed(&mut out, p.3 as i128, 10_000);
                    extend_str(&mut out, ")");
                    return to_text(out.as_slice());
                }
                i += 1;
            }
            let mut out = to_chars("Pin ");
            extend_str(&mut out, n);
            extend_str(&mut out, " not found in ");
            extend_str(&mut out, reference);
            to_text(out.as_slice())
        },
    }
}

} // verus!
