//! Power symbols of a schematic.

use crate::edits::{edit_model, Edit};
use crate::sexpr::{block_end, end_of_block};
use crate::strings::{decimal, join, joined, lines, lines_of, strings, texts};
use crate::text::{
    contains, extend, extend_str, find, find_back, find_from, has_str, lemma_find_is_first, splice,
    spliced, to_chars, to_text,
};
use crate::units::{extend_decimal, extend_plain, plain};
use crate::wiring::{put_in, put_into};
use crate::wiring::{escape, escaped};
use vstd::prelude::*;
use vstd::slice::slice_subrange;

verus! {

/// Where the library of power symbols may be, those of the user last.
pub open spec fn library_paths(home: Option<&str>) -> Seq<Seq<char>> {
    let shared = seq![
        "/usr/share/kicad/symbols/power.kicad_sym"@,
        "/usr/local/share/kicad/symbols/power.kicad_sym"@,
    ];
    match home {
        None => shared,
        Some(h) => shared + seq![
            own_library(h@, "9.0"@),
            own_library(h@, "8.0"@),
            own_library(h@, "7.0"@),
        ],
    }
}

/// Where a user has the library of a version.
pub open spec fn own_library(home: Seq<char>, version: Seq<char>) -> Seq<char> {
    home + "/.local/share/kicad/"@ + version + "/symbols/power.kicad_sym"@
}

fn write_own_library(home: &str, version: &str) -> (out: String)
    ensures
        out@ == own_library(home@, version@),
{
    let mut out = to_chars(home);
    extend_str(&mut out, "/.local/share/kicad/");
    extend_str(&mut out, version);
    extend_str(&mut out, "/symbols/power.kicad_sym");
    proof {
        assert(out@ =~= own_library(home@, version@));
    }
    to_text(out.as_slice())
}

/// Where to look for the library of power symbols, in this order.
pub fn power_library_paths(home: Option<&str>) -> (out: Vec<String>)
    ensures
        strings(out@) == library_paths(home),
{
    let mut out: Vec<String> = Vec::new();
    out.push("/usr/share/kicad/symbols/power.kicad_sym".to_string());
    out.push("/usr/local/share/kicad/symbols/power.kicad_sym".to_string());
    match home {
        None => {},
        Some(h) => {
            out.push(write_own_library(h, "9.0"));
            out.push(write_own_library(h, "8.0"));
            out.push(write_own_library(h, "7.0"));
        },
    }
    proof {
        assert(strings(out@) =~= library_paths(home));
    }
    out
}

/// How the definition of a power symbol begins.
pub open spec fn power_mark(net: Seq<char>) -> Seq<char> {
    "(symbol \"power:"@ + net + "\""@
}

fn write_power_mark(net: &str) -> (out: String)
    ensures
        out@ == power_mark(net@),
{
    let mut out = to_chars("(symbol \"power:");
    extend_str(&mut out, net);
    extend_str(&mut out, "\"");
    proof {
        assert(out@ =~= power_mark(net@));
    }
    to_text(out.as_slice())
}

/// Where the line of a place begins; the place itself if it is on the first line.
pub open spec fn from_line(text: Seq<char>, at: int) -> int {
    match find_back(text, '\n', at) {
        Some(p) => p + 1,
        None => at,
    }
}

fn find_line(text: &[char], at: usize) -> (start: usize)
    requires
        at <= text@.len(),
    ensures
        start == from_line(text@, at as int),
        start <= at,
{
    let mut i: usize = at;
    while i > 0
        invariant
            i <= at <= text@.len(),
            find_back(text@, '\n', at as int) == find_back(text@, '\n', i as int),
        decreases i,
    {
        if text[i - 1] == '\n' {
            return i;
        }
        i -= 1;
    }
    at
}

/// A line, set in by two steps unless it is empty.
pub open spec fn set_in(line: Seq<char>) -> Seq<char> {
    if line.len() == 0 {
        line
    } else {
        "\t\t"@ + line
    }
}

pub open spec fn all_set_in(list: Seq<Seq<char>>) -> Seq<Seq<char>> {
    list.map_values(|l: Seq<char>| set_in(l))
}

/// The definition of a power symbol, as it stands in a schematic.
pub open spec fn power_definition(library: Seq<char>, net: Seq<char>) -> Option<Seq<char>> {
    match find(library, power_mark(net), 0) {
        None => None,
        Some(at) => Some(
            joined(
                all_set_in(
                    lines_of(library.subrange(from_line(library, at), end_of_block(library, at))),
                ),
                "\n"@,
            ),
        ),
    }
}

/// Takes the definition of a power symbol from a library.
pub fn extract_lib_symbol(lib_content: &str, net_name: &str) -> (out: Option<String>)
    ensures
        (match out {
            Some(t) => Some(t@),
            None => None,
        }) == power_definition(lib_content@, net_name@),
{
    let text = to_chars(lib_content);
    let mark = to_chars(write_power_mark(net_name).as_str());
    proof {
        reveal_strlit("(symbol \"power:");
        lemma_find_is_first(text@, mark@, 0);
    }
    match find_from(text.as_slice(), mark.as_slice(), 0) {
        None => None,
        Some(at) => {
            let start: usize = find_line(text.as_slice(), at);
            let end: usize = block_end(text.as_slice(), at);
            let raw = slice_subrange(text.as_slice(), start, end);
            let list = lines(raw);
            let mut out: Vec<String> = Vec::new();
            let mut i: usize = 0;
            while i < list.len()
                invariant
                    i <= list@.len(),
                    out@.len() == i,
                    forall|j: int| 0 <= j < i ==> (#[trigger] out@[j])@ == set_in(list@[j]@),
                decreases list@.len() - i,
            {
                let mut line: Vec<char> = Vec::new();
                if list[i].len() > 0 {
                    extend_str(&mut line, "\t\t");
                    extend(&mut line, list[i].as_slice());
                }
                proof {
                    assert(line@ =~= set_in(list@[i as int]@));
                }
                out.push(to_text(line.as_slice()));
                i += 1;
            }
            proof {
                assert(strings(out@) =~= all_set_in(texts(list@)));
            }
            Some(join(&out, "\n"))
        },
    }
}

/// Where the digits that begin at a place end.
pub open spec fn past_digits(text: Seq<char>, at: int) -> int
    decreases text.len() - at,
{
    if 0 <= at < text.len() && '0' <= text[at] <= '9' {
        past_digits(text, at + 1)
    } else {
        at
    }
}

/// The value of the digits between two places.
pub open spec fn digits_value(text: Seq<char>, from: int, to: int) -> nat
    decreases to - from,
{
    if from >= to {
        0
    } else {
        digits_value(text, from, to - 1) * 10 + (text[to - 1] as nat - '0' as nat) as nat
    }
}

/// The number that begins at a place; none if it needs more than 32 bits.
pub open spec fn number_at(text: Seq<char>, at: int) -> Option<nat> {
    let end = past_digits(text, at);
    let value = digits_value(text, at, end);
    if end > at && value <= u32::MAX {
        Some(value)
    } else {
        None
    }
}

/// More digits behind make a number no smaller.
pub proof fn lemma_value_grows(text: Seq<char>, from: int, mid: int, to: int)
    requires
        0 <= from <= mid <= to <= text.len(),
        forall|i: int| from <= i < to ==> '0' <= #[trigger] text[i] <= '9',
    ensures
        digits_value(text, from, mid) <= digits_value(text, from, to),
    decreases to - mid,
{
    if mid < to {
        lemma_value_grows(text, from, mid, to - 1);
        assert('0' <= text[to - 1] <= '9');
    }
}

proof fn lemma_past_digits(text: Seq<char>, at: int)
    requires
        0 <= at <= text.len(),
    ensures
        at <= past_digits(text, at) <= text.len(),
        forall|i: int| at <= i < past_digits(text, at) ==> '0' <= #[trigger] text[i] <= '9',
    decreases text.len() - at,
{
    if at < text.len() && '0' <= text[at] <= '9' {
        lemma_past_digits(text, at + 1);
    }
}

fn read_number_at(text: &[char], at: usize) -> (found: Option<u32>)
    requires
        at <= text@.len(),
    ensures
        (match found {
            Some(n) => Some(n as nat),
            None => None,
        }) == number_at(text@, at as int),
{
    let mut i: usize = at;
    let mut value: u64 = 0;
    proof {
        lemma_past_digits(text@, at as int);
    }
    let ghost end = past_digits(text@, at as int);
    while i < text.len() && '0' <= text[i] && text[i] <= '9'
        invariant
            at <= i <= end <= text@.len(),
            past_digits(text@, i as int) == end,
            end == past_digits(text@, at as int),
            forall|j: int| at <= j < end ==> '0' <= #[trigger] text@[j] <= '9',
            value == digits_value(text@, at as int, i as int),
            value <= 0xffff_ffff,
        decreases text@.len() - i,
    {
        let d: u64 = text[i] as u64 - '0' as u64;
        proof {
            lemma_past_digits(text@, i + 1);
            lemma_value_grows(text@, at as int, i + 1, end);
        }
        value = value * 10 + d;
        i += 1;
        if value > 0xffff_ffff {
            return None;
        }
    }
    if i > at {
        Some(value as u32)
    } else {
        None
    }
}

pub open spec fn larger(a: nat, b: nat) -> nat {
    if a >= b {
        a
    } else {
        b
    }
}

/// The highest number of a power reference from a place on.
pub open spec fn highest_power(text: Seq<char>, from: int) -> nat
    decreases text.len() - from,
    when 0 <= from
    via highest_decreases
{
    match find(text, "#PWR"@, from) {
        None => 0,
        Some(at) => {
            let rest = highest_power(text, at + 4);
            match number_at(text, at + 4) {
                None => rest,
                Some(n) => larger(n, rest),
            }
        },
    }
}

#[via_fn]
proof fn highest_decreases(text: Seq<char>, from: int) {
    reveal_strlit("#PWR");
    lemma_find_is_first(text, "#PWR"@, from);
}

fn find_highest(text: &[char]) -> (n: u32)
    ensures
        n == highest_power(text@, 0),
{
    let mark = to_chars("#PWR");
    proof {
        reveal_strlit("#PWR");
    }
    let mut from: usize = 0;
    let mut best: u32 = 0;
    loop
        invariant
            from <= text@.len(),
            mark@ == "#PWR"@,
            mark@.len() == 4,
            highest_power(text@, 0) == larger(best as nat, highest_power(text@, from as int)),
        ensures
            best == highest_power(text@, 0),
        decreases text@.len() - from,
    {
        proof {
            lemma_find_is_first(text@, mark@, from as int);
        }
        match find_from(text, mark.as_slice(), from) {
            None => {
                break;
            },
            Some(at) => {
                match read_number_at(text, at + 4) {
                    None => {},
                    Some(n) => {
                        if n > best {
                            best = n;
                        }
                    },
                }
                from = at + 4;
            },
        }
    }
    best
}

/// A power reference is new: its number is higher than any that follows a `#PWR`.
pub proof fn lemma_power_reference_is_new(text: Seq<char>, from: int, at: int)
    requires
        0 <= from <= at,
        find(text, "#PWR"@, from) == Some(at),
        number_at(text, at + 4) is Some,
    ensures
        number_at(text, at + 4)->0 < highest_power(text, from) + 1,
{
}

/// A number with three digits at least.
pub open spec fn three_digits(n: nat) -> Seq<char> {
    if n < 10 {
        "00"@ + decimal(n)
    } else if n < 100 {
        "0"@ + decimal(n)
    } else {
        decimal(n)
    }
}

/// The next power reference of a schematic.
pub open spec fn next_power(text: Seq<char>) -> Seq<char> {
    "#PWR"@ + three_digits(highest_power(text, 0) + 1)
}

fn read_next_power(text: &[char]) -> (out: String)
    ensures
        out@ == next_power(text@),
{
    let n: u64 = find_highest(text) as u64 + 1;
    let mut out = to_chars("#PWR");
    if n < 10 {
        extend_str(&mut out, "00");
    } else if n < 100 {
        extend_str(&mut out, "0");
    }
    extend_decimal(&mut out, n as u128);
    proof {
        assert(out@ =~= next_power(text@));
    }
    to_text(out.as_slice())
}

/// What a sheet without any path is taken for.
pub const NO_SHEET: &'static str = "00000000-0000-0000-0000-000000000000";

/// The first path of a schematic.
pub open spec fn root_path(text: Seq<char>) -> Seq<char> {
    match crate::sexpr::quoted_after(text, "(path \"/"@) {
        Some(p) => p,
        None => NO_SHEET@,
    }
}

fn read_root_path(text: &[char]) -> (out: String)
    ensures
        out@ == root_path(text@),
{
    let mark = to_chars("(path \"/");
    match crate::sexpr::quoted(text, mark.as_slice()) {
        Some(p) => to_text(p.as_slice()),
        None => NO_SHEET.to_string(),
    }
}

/// Where a definition goes into a schematic.
pub open spec fn library_inside(text: Seq<char>, at: int) -> int {
    match find(text, "\n"@, at) {
        Some(p) => p + 1,
        None => at + "(lib_symbols"@.len(),
    }
}

/// A schematic that holds the definition of a power symbol; none if it has no place
/// for definitions.
pub open spec fn with_definition(text: Seq<char>, net: Seq<char>, definition: Seq<char>) -> Option<
    Seq<char>,
> {
    if contains(text, power_mark(net)) {
        Some(text)
    } else {
        match find(text, "(lib_symbols"@, 0) {
            None => None,
            Some(at) => {
                let inside = library_inside(text, at);
                Some(spliced(text, inside, inside, definition + "\n"@))
            },
        }
    }
}

fn define(text: &[char], net: &str, definition: &str) -> (out: Option<Vec<char>>)
    ensures
        (match out {
            Some(t) => Some(t@),
            None => None,
        }) == with_definition(text@, net@, definition@),
{
    let mark = write_power_mark(net);
    if has_str(text, mark.as_str()) {
        let mut out: Vec<char> = Vec::new();
        extend(&mut out, text);
        proof {
            assert(out@ =~= text@);
        }
        return Some(out);
    }
    let key = to_chars("(lib_symbols");
    let end = to_chars("\n");
    proof {
        reveal_strlit("(lib_symbols");
        reveal_strlit("\n");
        lemma_find_is_first(text@, key@, 0);
    }
    match find_from(text, key.as_slice(), 0) {
        None => None,
        Some(at) => {
            proof {
                lemma_find_is_first(text@, end@, at as int);
            }
            let inside: usize = match find_from(text, end.as_slice(), at) {
                Some(p) => p + 1,
                None => at + key.len(),
            };
            let mut new = to_chars(definition);
            extend_str(&mut new, "\n");
            Some(splice(text, inside, inside, new.as_slice()))
        },
    }
}

/// A power symbol, up to its properties.
pub open spec fn power_head(net: Seq<char>, x: int, y: int, turn: int, stamp: Seq<char>) -> Seq<char> {
    "\n\t(symbol\n\t\t(lib_id \"power:"@ + net + "\")\n\t\t(at "@ + plain(x) + " "@ + plain(y)
        + " "@ + plain(turn)
        + ")\n\t\t(unit 1)\n\t\t(body_style 1)\n\t\t(exclude_from_sim no)\n\t\t(in_bom yes)\n\t\t(on_board yes)\n\t\t(in_pos_files yes)\n\t\t(dnp no)\n\t\t(fields_autoplaced yes)\n\t\t(uuid \""@
        + stamp + "\")\n"@
}

fn write_power_head(net: &str, x: i64, y: i64, turn: i64, stamp: &str) -> (out: String)
    ensures
        out@ == power_head(net@, x as int, y as int, turn as int, stamp@),
{
    let mut out = to_chars("\n\t(symbol\n\t\t(lib_id \"power:");
    extend_str(&mut out, net);
    extend_str(&mut out, "\")\n\t\t(at ");
    extend_plain(&mut out, x);
    extend_str(&mut out, " ");
    extend_plain(&mut out, y);
    extend_str(&mut out, " ");
    extend_plain(&mut out, turn);
    extend_str(&mut out, ")\n\t\t(unit 1)\n\t\t(body_style 1)\n\t\t(exclude_from_sim no)\n\t\t(in_bom yes)\n\t\t(on_board yes)\n\t\t(in_pos_files yes)\n\t\t(dnp no)\n\t\t(fields_autoplaced yes)\n\t\t(uuid \"");
    extend_str(&mut out, stamp);
    extend_str(&mut out, "\")\n");
    proof {
        assert(out@ =~= power_head(net@, x as int, y as int, turn as int, stamp@));
    }
    to_text(out.as_slice())
}

/// A property of a power symbol; quotation marks in its value are escaped.
pub open spec fn power_property(name: Seq<char>, value: Seq<char>, x: int, y: int, hidden: Seq<char>) -> Seq<char> {
    "\t\t(property \""@ + name + "\" \""@ + escaped(value) + "\"\n\t\t\t(at "@ + plain(x) + " "@
        + plain(y) + " 0)\n"@ + hidden
        + "\t\t\t(show_name no)\n\t\t\t(do_not_autoplace no)\n\t\t\t(effects (font (size 1.27 1.27)))\n\t\t)\n"@
}

fn write_power_property(name: &str, value: &str, x: i64, y: i64, hidden: &str) -> (out: String)
    ensures
        out@ == power_property(name@, value@, x as int, y as int, hidden@),
{
    let said = escape(value);
    let mut out = to_chars("\t\t(property \"");
    extend_str(&mut out, name);
    extend_str(&mut out, "\" \"");
    extend_str(&mut out, said.as_str());
    extend_str(&mut out, "\"\n\t\t\t(at ");
    extend_plain(&mut out, x);
    extend_str(&mut out, " ");
    extend_plain(&mut out, y);
    extend_str(&mut out, " 0)\n");
    extend_str(&mut out, hidden);
    extend_str(&mut out, "\t\t\t(show_name no)\n\t\t\t(do_not_autoplace no)\n\t\t\t(effects (font (size 1.27 1.27)))\n\t\t)\n");
    proof {
        assert(out@ =~= power_property(name@, value@, x as int, y as int, hidden@));
    }
    to_text(out.as_slice())
}

/// The rest of a power symbol.
pub open spec fn power_tail(pin: Seq<char>, project: Seq<char>, root: Seq<char>, reference: Seq<char>) -> Seq<char> {
    "\t\t(pin \"1\" (uuid \""@ + pin + "\"))\n\t\t(instances\n\t\t\t(project \""@ + project
        + "\"\n\t\t\t\t(path \"/"@ + root + "\"\n\t\t\t\t\t(reference \""@ + reference
        + "\")\n\t\t\t\t\t(unit 1)\n\t\t\t\t)\n\t\t\t)\n\t\t)\n\t)"@
}

fn write_power_tail(pin: &str, project: &str, root: &str, reference: &str) -> (out: String)
    ensures
        out@ == power_tail(pin@, project@, root@, reference@),
{
    let mut out = to_chars("\t\t(pin \"1\" (uuid \"");
    extend_str(&mut out, pin);
    extend_str(&mut out, "\"))\n\t\t(instances\n\t\t\t(project \"");
    extend_str(&mut out, project);
    extend_str(&mut out, "\"\n\t\t\t\t(path \"/");
    extend_str(&mut out, root);
    extend_str(&mut out, "\"\n\t\t\t\t\t(reference \"");
    extend_str(&mut out, reference);
    extend_str(&mut out, "\")\n\t\t\t\t\t(unit 1)\n\t\t\t\t)\n\t\t\t)\n\t\t)\n\t)");
    proof {
        assert(out@ =~= power_tail(pin@, project@, root@, reference@));
    }
    to_text(out.as_slice())
}

/// What a power symbol is for.
pub open spec fn power_description(net: Seq<char>) -> Seq<char> {
    "Power symbol creates a global label with name \""@ + net + "\""@
}

fn write_power_description(net: &str) -> (out: String)
    ensures
        out@ == power_description(net@),
{
    let mut out = to_chars("Power symbol creates a global label with name \"");
    extend_str(&mut out, net);
    extend_str(&mut out, "\"");
    proof {
        assert(out@ =~= power_description(net@));
    }
    to_text(out.as_slice())
}

/// A property that is not shown.
pub const HIDDEN: &'static str = "\t\t\t(hide yes)\n";

/// A power symbol to be placed: its net, where it is to stand, the name of the project
/// and the identifiers for it and for its pin.
#[derive(Debug, Clone, Copy)]
pub struct Power<'a> {
    pub net: &'a str,
    pub x: i64,
    pub y: i64,
    pub rotation: Option<i64>,
    pub project: &'a str,
    pub stamp: &'a str,
    pub pin_stamp: &'a str,
}

pub open spec fn turn_of(p: Power) -> int {
    match p.rotation {
        Some(r) => r as int,
        None => 0,
    }
}

/// The shown properties of a power symbol: the reference below it, the net above.
pub open spec fn shown_properties(p: Power, reference: Seq<char>) -> Seq<char> {
    power_property("Reference"@, reference, p.x as int, p.y + 3_810_000, HIDDEN@) + power_property(
        "Value"@,
        p.net@,
        p.x as int,
        p.y - 3_556_000,
        ""@,
    )
}

/// The other properties of a power symbol.
pub open spec fn other_properties(p: Power) -> Seq<char> {
    power_property("Footprint"@, ""@, p.x as int, p.y as int, HIDDEN@) + power_property(
        "Datasheet"@,
        ""@,
        p.x as int,
        p.y as int,
        HIDDEN@,
    ) + power_property(
        "Description"@,
        power_description(p.net@),
        p.x as int,
        p.y as int,
        HIDDEN@,
    )
}

/// A power symbol as it is written into a schematic.
pub open spec fn power_text(p: Power, reference: Seq<char>, root: Seq<char>) -> Seq<char> {
    power_head(p.net@, p.x as int, p.y as int, turn_of(p), p.stamp@) + shown_properties(
        p,
        reference,
    ) + other_properties(p) + power_tail(p.pin_stamp@, p.project@, root, reference)
}

fn write_power(p: Power, reference: &str, root: &str) -> (out: String)
    requires
        p.y + 3_810_000 <= i64::MAX,
        p.y - 3_556_000 >= i64::MIN,
    ensures
        out@ == power_text(p, reference@, root@),
{
    let turn: i64 = match p.rotation {
        Some(r) => r,
        None => 0,
    };
    let head = write_power_head(p.net, p.x, p.y, turn, p.stamp);
    let mut out = to_chars(head.as_str());
    let mut shown = to_chars(
        write_power_property("Reference", reference, p.x, p.y + 3_810_000, HIDDEN).as_str(),
    );
    let value = write_power_property("Value", p.net, p.x, p.y - 3_556_000, "");
    extend_str(&mut shown, value.as_str());
    extend(&mut out, shown.as_slice());
    let mut other = to_chars(write_power_property("Footprint", "", p.x, p.y, HIDDEN).as_str());
    let sheet = write_power_property("Datasheet", "", p.x, p.y, HIDDEN);
    extend_str(&mut other, sheet.as_str());
    let what = write_power_description(p.net);
    let last = write_power_property("Description", what.as_str(), p.x, p.y, HIDDEN);
    extend_str(&mut other, last.as_str());
    extend(&mut out, other.as_slice());
    let tail = write_power_tail(p.pin_stamp, p.project, root, reference);
    extend_str(&mut out, tail.as_str());
    proof {
        assert(shown@ =~= shown_properties(p, reference@));
        assert(other@ =~= other_properties(p));
        assert(out@ =~= power_text(p, reference@, root@));
    }
    to_text(out.as_slice())
}

/// The library has no such symbol.
pub open spec fn power_missing(net: Seq<char>, path: Seq<char>) -> Seq<char> {
    "Symbol 'power:"@ + net + "' not found in "@ + path
        + ".\nCheck the net name — it must exactly match a symbol in the KiCad power library.\nCommon names: GND, VBUS, +5V, +3.3V, VCC, PWR_FLAG"@
}

fn write_power_missing(net: &str, path: &str) -> (out: String)
    ensures
        out@ == power_missing(net@, path@),
{
    let mut out = to_chars("Symbol 'power:");
    extend_str(&mut out, net);
    extend_str(&mut out, "' not found in ");
    extend_str(&mut out, path);
    extend_str(&mut out, ".\nCheck the net name — it must exactly match a symbol in the KiCad power library.\nCommon names: GND, VBUS, +5V, +3.3V, VCC, PWR_FLAG");
    proof {
        assert(out@ =~= power_missing(net@, path@));
    }
    to_text(out.as_slice())
}

/// Which power symbol was added, and where.
pub open spec fn power_added(net: Seq<char>, x: int, y: int, turn: int, reference: Seq<char>, note: Seq<char>, path: Seq<char>) -> Seq<char> {
    "Added power symbol 'power:"@ + net + "' at ("@ + plain(x) + ", "@ + plain(y) + ") rot="@
        + plain(turn) + "° as "@ + reference + note + "\nLib: "@ + path
}

fn write_power_added(net: &str, x: i64, y: i64, turn: i64, reference: &str, note: &str, path: &str) -> (out: String)
    ensures
        out@ == power_added(net@, x as int, y as int, turn as int, reference@, note@, path@),
{
    let mut out = to_chars("Added power symbol 'power:");
    extend_str(&mut out, net);
    extend_str(&mut out, "' at (");
    extend_plain(&mut out, x);
    extend_str(&mut out, ", ");
    extend_plain(&mut out, y);
    extend_str(&mut out, ") rot=");
    extend_plain(&mut out, turn);
    extend_str(&mut out, "° as ");
    extend_str(&mut out, reference);
    extend_str(&mut out, note);
    extend_str(&mut out, "\nLib: ");
    extend_str(&mut out, path);
    proof {
        assert(out@ =~= power_added(net@, x as int, y as int, turn as int, reference@, note@, path@));
    }
    to_text(out.as_slice())
}

/// Why no definition can be added.
pub const NO_LIBRARY: &'static str =
    "No (lib_symbols ...) section found in schematic. Is this a valid .kicad_sch file?";

/// Why no symbol can be placed.
pub const NO_END: &'static str = "Could not find end of schematic file.";

/// Why a symbol cannot be placed there.
pub const TOO_FAR: &'static str = "The position is out of range.";

pub open spec fn definition_note(known: bool) -> Seq<char> {
    if known {
        " (lib_symbols already present)"@
    } else {
        " (lib_symbols definition added)"@
    }
}

/// A schematic with a power symbol placed.
pub open spec fn with_power(
    text: Seq<char>,
    library: Seq<char>,
    path: Seq<char>,
    p: Power,
) -> Result<(Seq<char>, Seq<char>), Seq<char>> {
    if p.y + 3_810_000 > i64::MAX || p.y - 3_556_000 < i64::MIN {
        Err(TOO_FAR@)
    } else {
        match power_definition(library, p.net@) {
            None => Err(power_missing(p.net@, path)),
            Some(definition) => match with_definition(text, p.net@, definition) {
                None => Err(NO_LIBRARY@),
                Some(full) => {
                    let reference = next_power(full);
                    match put_in(full, power_text(p, reference, root_path(full))) {
                        None => Err(NO_END@),
                        Some(new) => Ok(
                            (
                                new,
                                power_added(
                                    p.net@,
                                    p.x as int,
                                    p.y as int,
                                    turn_of(p),
                                    reference,
                                    definition_note(contains(text, power_mark(p.net@))),
                                    path,
                                ),
                            ),
                        ),
                    }
                },
            },
        }
    }
}

/// Places a power symbol, with its definition from the library if the schematic has
/// none yet.
pub fn add_power_symbol(content: &str, library: &str, path: &str, p: Power) -> (out: Result<
    Edit,
    String,
>)
    ensures
        edit_model(out) == with_power(content@, library@, path@, p),
{
    if p.y > 0x7fff_ffff_ffff_ffff - 3_810_000 || p.y < -0x8000_0000_0000_0000 + 3_556_000 {
        return Err(TOO_FAR.to_string());
    }
    let text = to_chars(content);
    let definition = match extract_lib_symbol(library, p.net) {
        None => {
            return Err(write_power_missing(p.net, path));
        },
        Some(d) => d,
    };
    let known: bool = has_str(text.as_slice(), write_power_mark(p.net).as_str());
    let full = match define(text.as_slice(), p.net, definition.as_str()) {
        None => {
            return Err(NO_LIBRARY.to_string());
        },
        Some(t) => t,
    };
    let reference = read_next_power(full.as_slice());
    let root = read_root_path(full.as_slice());
    let element = write_power(p, reference.as_str(), root.as_str());
    let whole = to_text(full.as_slice());
    match put_into(whole.as_str(), element.as_str()) {
        None => Err(NO_END.to_string()),
        Some(content) => {
            let turn: i64 = match p.rotation {
                Some(r) => r,
                None => 0,
            };
            let note: &str = if known {
                " (lib_symbols already present)"
            } else {
                " (lib_symbols definition added)"
            };
            let summary = write_power_added(p.net, p.x, p.y, turn, reference.as_str(), note, path);
            Ok(Edit { content, summary })
        },
    }
}

} // verus!
