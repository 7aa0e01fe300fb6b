//! Putting another symbol in the place of a placed one.

use crate::pins::{
    extract_instance_pins, extract_symbol_pins, instance_pins, pin_list, remap_pin_uuids,
    remapped, seconds, text_pairs, unmatched,
};
use crate::schematic::{
    definition, definition_marker, definition_span, make_definition_marker, property, read_property,
    replace_sch_property, symbol_table, symbols, with_property,
};
use crate::sexpr::{block_end, end_of_block, lemma_close_bounds, pair, quoted, quoted_after, Span};
use crate::strings::{
    decimal, find_back_from_end, join, joined, last_of, number, replace_once, replaced_once, starts_with, strings,
};
use crate::tables::TextMap;
use crate::text::{
    extend, extend_str, find, find_from, has_at, lemma_find_is_first, matches_at, same_str, splice,
    spliced, to_chars, to_text,
};
use vstd::prelude::*;
use vstd::slice::slice_subrange;
use vstd::utf8::encode_scalar;

verus! {

/// How many bytes a character takes.
pub open spec fn width(c: char) -> int {
    encode_scalar(c as u32).len() as int
}

fn width_of(c: char) -> (n: usize)
    ensures
        n == width(c),
{
    proof {
        vstd::utf8::char_is_scalar(c);
    }
    let code: u32 = c as u32;
    if code < 0x80 {
        1
    } else if code < 0x800 {
        2
    } else if code < 0x10000 {
        3
    } else {
        4
    }
}

/// Where the last three bytes of a text start, or the end of the text if no
/// character starts there.
pub open spec fn last_three_bytes(text: Seq<char>) -> int {
    let n = text.len() as int;
    if n >= 1 && width(text[n - 1]) == 3 {
        n - 1
    } else if n >= 2 && width(text[n - 1]) + width(text[n - 2]) == 3 {
        n - 2
    } else if n >= 3 && width(text[n - 1]) + width(text[n - 2]) + width(text[n - 3]) == 3 {
        n - 3
    } else {
        n
    }
}

fn find_last_three_bytes(text: &[char]) -> (at: usize)
    ensures
        at == last_three_bytes(text@),
        at <= text.len(),
{
    let n: usize = text.len();
    if n >= 1 && width_of(text[n - 1]) == 3 {
        n - 1
    } else if n >= 2 && width_of(text[n - 1]) + width_of(text[n - 2]) == 3 {
        n - 2
    } else if n >= 3 && width_of(text[n - 1]) + width_of(text[n - 2]) + width_of(text[n - 3]) == 3 {
        n - 3
    } else {
        n
    }
}

/// The block with another symbol named in it.
pub open spec fn with_lib_id(block: Seq<char>, lib_id: Seq<char>) -> Seq<char> {
    let prefix = "(lib_id \""@;
    match find(block, prefix, 0) {
        None => block,
        Some(at) => match find(block, seq!['"'], at + prefix.len()) {
            None => block,
            Some(end) => spliced(block, at + prefix.len(), end, lib_id),
        },
    }
}

/// One line for each pin.
pub open spec fn pin_lines(pins: Seq<(Seq<char>, Seq<char>)>) -> Seq<char>
    decreases pins.len(),
{
    if pins.len() == 0 {
        Seq::empty()
    } else {
        pin_lines(pins.drop_last()) + "\n    (pin \""@ + pins.last().0 + "\" (uuid \""@
            + pins.last().1 + "\"))"@
    }
}

/// A line for each pin, two tabs deep.
pub open spec fn tabbed_lines(pins: Seq<(Seq<char>, Seq<char>)>) -> Seq<char>
    decreases pins.len(),
{
    if pins.len() == 0 {
        Seq::empty()
    } else {
        tabbed_lines(pins.drop_last()) + "\n\t\t(pin \""@ + pins.last().0 + "\" (uuid \""@
            + pins.last().1 + "\"))"@
    }
}

/// A text without its pins, those two tabs and those four spaces deep. Where taking one
/// out brings its surroundings together to another, that one goes too.
pub open spec fn pinless(text: Seq<char>) -> Seq<char>
    decreases text.len(),
    via pinless_decreases
{
    match find(text, "\n\t\t(pin \""@, 0) {
        Some(at) => pinless(text.take(at) + text.skip(end_of_block(text, at + 3))),
        None => match find(text, "\n    (pin \""@, 0) {
            Some(at) => pinless(text.take(at) + text.skip(end_of_block(text, at + 5))),
            None => text,
        },
    }
}

#[via_fn]
proof fn pinless_decreases(text: Seq<char>) {
    lemma_pin_ahead(text);
}

proof fn lemma_pin_ahead(text: Seq<char>)
    ensures
        find(text, "\n\t\t(pin \""@, 0) matches Some(at) ==> 0 <= at < end_of_block(text, at + 3)
            <= text.len(),
        find(text, "\n    (pin \""@, 0) matches Some(at) ==> 0 <= at < end_of_block(text, at + 5)
            <= text.len(),
        find(text, "\n\t\t(pin \""@, 0) matches Some(at) ==> at + 3 < text.len(),
        find(text, "\n    (pin \""@, 0) matches Some(at) ==> at + 5 < text.len(),
{
    reveal_strlit("\n\t\t(pin \"");
    reveal_strlit("\n    (pin \"");
    lemma_find_is_first(text, "\n\t\t(pin \""@, 0);
    lemma_find_is_first(text, "\n    (pin \""@, 0);
    if let Some(at) = find(text, "\n\t\t(pin \""@, 0) {
        lemma_close_bounds(text, at + 3, 0, false);
    }
    if let Some(at) = find(text, "\n    (pin \""@, 0) {
        lemma_close_bounds(text, at + 5, 0, false);
    }
}

/// The block with the given pins in place of its own. Where pins stand on lines four
/// spaces deep, everything from the first such line on makes room for the new ones.
/// Where they are two tabs deep, they alone go, and the new ones stand where the first
/// one stood. If the block lists no pin, they go in front of its closing line: the last
/// line that is a bracket two spaces deep, else the last three bytes.
pub open spec fn with_pins(block: Seq<char>, pins: Seq<(Seq<char>, Seq<char>)>) -> Seq<char> {
    match find(block, "\n    (pin \""@, 0) {
        Some(at) => pinless(block.take(at)) + (pin_lines(pins) + "\n  )"@),
        None => match find(block, "\n\t\t(pin \""@, 0) {
            Some(at) => if pins.len() == 0 {
                pinless(block)
            } else {
                block.take(at) + tabbed_lines(pins) + pinless(block.skip(at))
            },
            None => {
                let start = match last_of(block, "\n  )"@) {
                    Some(at) => at,
                    None => last_three_bytes(block),
                };
                block.take(start) + (pin_lines(pins) + "\n  )"@)
            },
        },
    }
}

/// The block of a symbol instance for another symbol, value, footprint and pins.
pub open spec fn rebuilt(
    block: Seq<char>,
    lib_id: Seq<char>,
    value: Seq<char>,
    footprint: Seq<char>,
    pins: Seq<(Seq<char>, Seq<char>)>,
) -> Seq<char> {
    with_pins(
        with_property(
            with_property(with_lib_id(block, lib_id), "Value"@, value),
            "Footprint"@,
            footprint,
        ),
        pins,
    )
}

fn quote_mark() -> (mark: Vec<char>)
    ensures
        mark@ == seq!['"'],
{
    let mark: Vec<char> = vec!['"'];
    proof {
        assert(mark@ =~= seq!['"']);
    }
    mark
}

fn set_lib_id(block: &str, lib_id: &str) -> (out: String)
    ensures
        out@ == with_lib_id(block@, lib_id@),
{
    let text = to_chars(block);
    let prefix = to_chars("(lib_id \"");
    let mark = quote_mark();
    match find_from(text.as_slice(), prefix.as_slice(), 0) {
        None => block.to_string(),
        Some(at) => {
            let start: usize = at + prefix.len();
            match find_from(text.as_slice(), mark.as_slice(), start) {
                None => block.to_string(),
                Some(end) => {
                    let id = to_chars(lib_id);
                    let out = splice(text.as_slice(), start, end, id.as_slice());
                    to_text(out.as_slice())
                },
            }
        },
    }
}

fn write_pin_lines(pins: &Vec<(String, String)>) -> (out: Vec<char>)
    ensures
        out@ == pin_lines(text_pairs(pins@)),
{
    let mut out: Vec<char> = Vec::new();
    let mut i: usize = 0;
    let ghost all = text_pairs(pins@);
    proof {
        assert(all.take(0).len() == 0);
    }
    while i < pins.len()
        invariant
            i <= pins.len(),
            all == text_pairs(pins@),
            out@ == pin_lines(all.take(i as int)),
        decreases pins.len() - i,
    {
        proof {
            assert(all.take(i + 1).drop_last() =~= all.take(i as int));
            assert(all.take(i + 1).last() == (pins@[i as int].0@, pins@[i as int].1@));
        }
        extend_str(&mut out, "\n    (pin \"");
        extend_str(&mut out, pins[i].0.as_str());
        extend_str(&mut out, "\" (uuid \"");
        extend_str(&mut out, pins[i].1.as_str());
        extend_str(&mut out, "\"))");
        i += 1;
    }
    proof {
        assert(all.take(all.len() as int) =~= all);
    }
    out
}

fn write_tabbed_lines(pins: &Vec<(String, String)>) -> (out: Vec<char>)
    ensures
        out@ == tabbed_lines(text_pairs(pins@)),
{
    let mut out: Vec<char> = Vec::new();
    let mut i: usize = 0;
    let ghost all = text_pairs(pins@);
    proof {
        assert(all.take(0).len() == 0);
    }
    while i < pins.len()
        invariant
            i <= pins.len(),
            all == text_pairs(pins@),
            out@ == tabbed_lines(all.take(i as int)),
        decreases pins.len() - i,
    {
        proof {
            assert(all.take(i + 1).drop_last() =~= all.take(i as int));
            assert(all.take(i + 1).last() == (pins@[i as int].0@, pins@[i as int].1@));
        }
        extend_str(&mut out, "\n\t\t(pin \"");
        extend_str(&mut out, pins[i].0.as_str());
        extend_str(&mut out, "\" (uuid \"");
        extend_str(&mut out, pins[i].1.as_str());
        extend_str(&mut out, "\"))");
        i += 1;
    }
    proof {
        assert(all.take(all.len() as int) =~= all);
    }
    out
}

fn without_block(text: &[char], at: usize, opens: usize) -> (out: Vec<char>)
    requires
        at <= opens < text@.len(),
    ensures
        out@ == text@.take(at as int) + text@.skip(end_of_block(text@, opens as int)),
{
    let end: usize = block_end(text, opens);
    let mut out: Vec<char> = Vec::new();
    extend(&mut out, slice_subrange(text, 0, at));
    extend(&mut out, slice_subrange(text, end, text.len()));
    proof {
        assert(out@ =~= text@.take(at as int) + text@.skip(end as int));
    }
    out
}

fn drop_pins(text: &[char]) -> (out: Vec<char>)
    ensures
        out@ == pinless(text@),
{
    let tab_mark = to_chars("\n\t\t(pin \"");
    let line_mark = to_chars("\n    (pin \"");
    let mut out: Vec<char> = Vec::new();
    extend(&mut out, text);
    proof {
        assert(out@ =~= text@);
    }
    loop
        invariant_except_break
            tab_mark@ == "\n\t\t(pin \""@,
            line_mark@ == "\n    (pin \""@,
            pinless(text@) == pinless(out@),
        ensures
            out@ == pinless(text@),
        decreases out@.len(),
    {
        proof {
            lemma_pin_ahead(out@);
        }
        match find_from(out.as_slice(), tab_mark.as_slice(), 0) {
            Some(at) => {
                out = without_block(out.as_slice(), at, at + 3);
            },
            None => match find_from(out.as_slice(), line_mark.as_slice(), 0) {
                Some(at) => {
                    out = without_block(out.as_slice(), at, at + 5);
                },
                None => {
                    break;
                },
            },
        }
    }
    out
}

fn set_pins(block: &str, pins: &Vec<(String, String)>) -> (out: String)
    ensures
        out@ == with_pins(block@, text_pairs(pins@)),
{
    let text = to_chars(block);
    let line_mark = to_chars("\n    (pin \"");
    let tab_mark = to_chars("\n\t\t(pin \"");
    let close_mark = to_chars("\n  )");
    proof {
        assert(text_pairs(pins@).len() == pins@.len());
    }
    let mut out: Vec<char> = match find_from(text.as_slice(), line_mark.as_slice(), 0) {
        Some(at) => drop_pins(slice_subrange(text.as_slice(), 0, at)),
        None => match find_from(text.as_slice(), tab_mark.as_slice(), 0) {
            Some(at) => {
                if pins.len() == 0 {
                    let bare = drop_pins(text.as_slice());
                    return to_text(bare.as_slice());
                }
                let mut kept: Vec<char> = Vec::new();
                extend(&mut kept, slice_subrange(text.as_slice(), 0, at));
                let lines = write_tabbed_lines(pins);
                extend(&mut kept, lines.as_slice());
                let rest = slice_subrange(text.as_slice(), at, text.len());
                proof {
                    assert(rest@ =~= text@.skip(at as int));
                }
                let bare = drop_pins(rest);
                extend(&mut kept, bare.as_slice());
                proof {
                    assert(kept@ =~= with_pins(block@, text_pairs(pins@)));
                }
                return to_text(kept.as_slice());
            },
            None => {
                let start: usize = match find_back_from_end(text.as_slice(), close_mark.as_slice()) {
                    Some(at) => at,
                    None => find_last_three_bytes(text.as_slice()),
                };
                let mut front: Vec<char> = Vec::new();
                extend(&mut front, slice_subrange(text.as_slice(), 0, start));
                proof {
                    assert(front@ =~= text@.take(start as int));
                }
                front
            },
        },
    };
    let ghost front = out@;
    let lines = write_pin_lines(pins);
    extend(&mut out, lines.as_slice());
    extend_str(&mut out, "\n  )");
    proof {
        assert(out@ =~= front + (pin_lines(text_pairs(pins@)) + "\n  )"@));
    }
    to_text(out.as_slice())
}

/// The block of a symbol instance for another symbol, value, footprint and pins.
pub fn rebuild_symbol_instance(
    old_block: &str,
    new_lib_id: &str,
    new_value: &str,
    new_footprint: &str,
    new_pins: &Vec<(String, String)>,
) -> (out: String)
    ensures
        out@ == rebuilt(
            old_block@,
            new_lib_id@,
            new_value@,
            new_footprint@,
            text_pairs(new_pins@),
        ),
{
    let named = set_lib_id(old_block, new_lib_id);
    let valued = replace_sch_property(named.as_str(), "Value", new_value);
    let placed = replace_sch_property(valued.as_str(), "Footprint", new_footprint);
    set_pins(placed.as_str(), new_pins)
}

/// The part of an identifier behind its first colon, or all of it.
pub open spec fn bare_name(lib_id: Seq<char>) -> Seq<char> {
    match find(lib_id, seq![':'], 0) {
        Some(at) => lib_id.skip(at + 1),
        None => lib_id,
    }
}

fn read_bare_name(lib_id: &str) -> (name: String)
    ensures
        name@ == bare_name(lib_id@),
{
    let text = to_chars(lib_id);
    let mark: Vec<char> = vec![':'];
    proof {
        assert(mark@ =~= seq![':']);
    }
    match find_from(text.as_slice(), mark.as_slice(), 0) {
        None => lib_id.to_string(),
        Some(at) => {
            let rest = slice_subrange(text.as_slice(), at + 1, text.len());
            proof {
                assert(rest@ =~= text@.skip(at + 1));
            }
            to_text(rest)
        },
    }
}

/// The symbol that an instance names; empty if it names none.
pub open spec fn named_symbol(block: Seq<char>) -> Seq<char> {
    match quoted_after(block, "(lib_id \""@) {
        Some(id) => id,
        None => Seq::empty(),
    }
}

fn read_named_symbol(block: &[char]) -> (id: String)
    ensures
        id@ == named_symbol(block@),
{
    let prefix = to_chars("(lib_id \"");
    match quoted(block, prefix.as_slice()) {
        Some(id) => to_text(id.as_slice()),
        None => String::new(),
    }
}

/// The text of the block that defines the symbol `lib_id`.
pub open spec fn definition_text(library: Seq<char>, lib_id: Seq<char>) -> Option<Seq<char>> {
    match definition(library, lib_id) {
        Some((start, end)) => Some(library.subrange(start, end)),
        None => None,
    }
}

fn read_definition(library: &[char], lib_id: &str) -> (text: Option<String>)
    ensures
        text is Some == definition_text(library@, lib_id@) is Some,
        text matches Some(t) ==> definition_text(library@, lib_id@) == Some(t@),
{
    match definition_span(library, lib_id) {
        Some(span) => Some(to_text(slice_subrange(library, span.start, span.end))),
        None => None,
    }
}

/// The definition of the symbol `lib_id`: the one in the library file, under its
/// full or its bare name, else the one that the schematic holds already.
pub open spec fn chosen_definition(
    library: Seq<char>,
    file: Option<Seq<char>>,
    lib_id: Seq<char>,
) -> Option<Seq<char>> {
    let from_file = match file {
        None => None,
        Some(f) => match definition_text(f, lib_id) {
            Some(t) => Some(t),
            None => definition_text(f, bare_name(lib_id)),
        },
    };
    match from_file {
        Some(t) => Some(t),
        None => definition_text(library, lib_id),
    }
}

fn choose_definition(library: &[char], file: Option<&str>, lib_id: &str) -> (text: Option<String>)
    ensures
        ({
            let given = match file {
                Some(f) => Some(f@),
                None => None,
            };
            let want = chosen_definition(library@, given, lib_id@);
            &&& text is Some == want is Some
            &&& text matches Some(t) ==> want == Some(t@)
        }),
{
    if let Some(f) = file {
        let content = to_chars(f);
        if let Some(t) = read_definition(content.as_slice(), lib_id) {
            return Some(t);
        }
        let bare = read_bare_name(lib_id);
        if let Some(t) = read_definition(content.as_slice(), bare.as_str()) {
            return Some(t);
        }
    }
    read_definition(library, lib_id)
}

/// The pins of a symbol by its definition: those under its full name, else those
/// under its bare name. No definition gives no pins.
pub open spec fn defined_pins(definition: Option<Seq<char>>, lib_id: Seq<char>) -> Seq<
    (Seq<char>, Seq<char>),
> {
    match definition {
        None => Seq::empty(),
        Some(d) => {
            let full = pin_list(d, lib_id);
            if full.len() > 0 {
                full
            } else {
                pin_list(d, bare_name(lib_id))
            }
        },
    }
}

fn read_defined_pins(definition: &Option<String>, lib_id: &str) -> (table: TextMap<String>)
    ensures
        table.well_formed(),
        text_pairs(table.entries@) == defined_pins(
            match *definition {
                Some(d) => Some(d@),
                None => None,
            },
            lib_id@,
        ),
{
    match definition {
        None => {
            let table: TextMap<String> = TextMap::new();
            proof {
                assert(text_pairs(table.entries@) =~= Seq::<(Seq<char>, Seq<char>)>::empty());
            }
            table
        },
        Some(d) => {
            let full = extract_symbol_pins(d.as_str(), lib_id);
            if full.len() > 0 {
                proof {
                    assert(text_pairs(full.entries@).len() == full.entries@.len());
                }
                full
            } else {
                proof {
                    assert(text_pairs(full.entries@).len() == full.entries@.len());
                }
                let bare = read_bare_name(lib_id);
                extract_symbol_pins(d.as_str(), bare.as_str())
            }
        },
    }
}

/// The section of symbol definitions without the definition of `lib_id`, and
/// without the line break and indent in front of it.
pub open spec fn without_definition(library: Seq<char>, lib_id: Seq<char>) -> Seq<char> {
    match definition(library, lib_id) {
        None => library,
        Some((start, end)) => library.take(
            if matches_at(library, "\n  "@, start - 3) {
                start - 3
            } else {
                start
            },
        ) + library.skip(end),
    }
}

fn remove_definition(library: &[char], lib_id: &str) -> (out: Vec<char>)
    ensures
        out@ == without_definition(library@, lib_id@),
{
    match definition_span(library, lib_id) {
        None => {
            let mut out: Vec<char> = Vec::new();
            extend(&mut out, library);
            proof {
                assert(out@ =~= library@);
            }
            out
        },
        Some(span) => {
            let indent = to_chars("\n  ");
            proof {
                reveal_strlit("\n  ");
            }
            let start: usize = if span.start >= 3 && has_at(
                library,
                indent.as_slice(),
                span.start - 3,
            ) {
                span.start - 3
            } else {
                span.start
            };
            let out = splice(library, start, span.end, &[]);
            proof {
                assert(out@ =~= library@.take(start as int) + library@.skip(span.end as int));
            }
            out
        },
    }
}

/// A definition under its full name.
pub open spec fn fully_named(text: Seq<char>, lib_id: Seq<char>) -> Seq<char> {
    if starts_with(text, definition_marker(lib_id)) {
        text
    } else {
        replaced_once(text, definition_marker(bare_name(lib_id)), definition_marker(lib_id))
    }
}

fn name_fully(text: &str, lib_id: &str) -> (out: Vec<char>)
    ensures
        out@ == fully_named(text@, lib_id@),
{
    let chars = to_chars(text);
    let full = make_definition_marker(lib_id);
    if has_at(chars.as_slice(), full.as_slice(), 0) {
        chars
    } else {
        let bare = read_bare_name(lib_id);
        let marker = make_definition_marker(bare.as_str());
        replace_once(chars.as_slice(), marker.as_slice(), full.as_slice())
    }
}

/// The section of symbol definitions after the symbol `old` gave way to `new`: the
/// old definition is gone, and the new one stands in front of the last bracket if
/// it is known and was not there.
pub open spec fn updated_library(
    library: Seq<char>,
    old: Seq<char>,
    new: Seq<char>,
    definition: Option<Seq<char>>,
) -> Seq<char> {
    let kept = if old == new {
        library
    } else {
        without_definition(library, old)
    };
    match definition {
        Some(d) => if definition_text(kept, new) is None {
            let close = match last_of(kept, seq![')']) {
                Some(at) => at,
                None => kept.len() as int,
            };
            kept.take(close) + "\n  "@ + fully_named(d, new) + "\n"@ + kept.skip(close)
        } else {
            kept
        },
        None => kept,
    }
}

fn update_library(library: &[char], old: &str, new: &str, definition: &Option<String>) -> (out: Vec<
    char,
>)
    ensures
        out@ == updated_library(
            library@,
            old@,
            new@,
            match *definition {
                Some(d) => Some(d@),
                None => None,
            },
        ),
{
    let kept: Vec<char> = if same_str(old, new) {
        let mut copy: Vec<char> = Vec::new();
        extend(&mut copy, library);
        proof {
            assert(copy@ =~= library@);
        }
        copy
    } else {
        remove_definition(library, old)
    };
    if let Some(d) = definition {
        if definition_span(kept.as_slice(), new).is_none() {
            let mark: Vec<char> = vec![')'];
            proof {
                assert(mark@ =~= seq![')']);
            }
            let close: usize = match find_back_from_end(kept.as_slice(), mark.as_slice()) {
                Some(at) => at,
                None => kept.len(),
            };
            let mut out: Vec<char> = Vec::new();
            extend(&mut out, slice_subrange(kept.as_slice(), 0, close));
            proof {
                assert(out@ =~= kept@.take(close as int));
            }
            extend_str(&mut out, "\n  ");
            let named = name_fully(d.as_str(), new);
            extend(&mut out, named.as_slice());
            extend_str(&mut out, "\n");
            extend(&mut out, slice_subrange(kept.as_slice(), close, kept.len()));
            proof {
                assert(kept@.subrange(close as int, kept@.len() as int) =~= kept@.skip(
                    close as int,
                ));
            }
            return out;
        }
    }
    kept
}

/// Why a symbol was not replaced.
#[derive(Clone, Copy, Debug, PartialEq, Eq)]
pub enum SymbolError {
    /// No placed symbol has the reference.
    UnknownReference,
    /// The schematic has no section of symbol definitions.
    NoLibrary,
    /// The symbol stands in front of the end of the symbol definitions.
    Misplaced,
}

/// What replacing a symbol gives.
pub struct SymbolReplacement {
    /// The schematic after the change.
    pub content: String,
    /// The symbol that was named before.
    pub old_lib_id: String,
    /// The value before and after.
    pub old_value: String,
    pub new_value: String,
    /// The footprint before and after.
    pub old_footprint: String,
    pub new_footprint: String,
    /// How many pins the instance lists now.
    pub pins: usize,
    /// The names of the old pins that the new symbol lacks.
    pub lost: Vec<String>,
    /// Whether the pins of the new symbol are known.
    pub pins_known: bool,
}

/// Where the section of symbol definitions stands.
pub open spec fn library_span(content: Seq<char>) -> Option<(int, int)> {
    match find(content, "(lib_symbols"@, 0) {
        Some(at) => Some((at, end_of_block(content, at))),
        None => None,
    }
}

/// The pins that the instance lists after the change, when the pins of the new
/// symbol are `new`: the old ones under fresh identifiers if none are known.
pub open spec fn new_instance_pins(
    old: Seq<(Seq<char>, Seq<char>)>,
    new: Seq<(Seq<char>, Seq<char>)>,
    pins: Seq<(Seq<char>, Seq<char>)>,
    fresh: Seq<Seq<char>>,
) -> Seq<(Seq<char>, Seq<char>)> {
    if new.len() > 0 {
        remapped(old, new, pins, fresh)
    } else {
        Seq::new(pins.len(), |i: int| (pins[i].0, fresh[i]))
    }
}

pub open spec fn given(text: Option<&str>) -> Option<Seq<char>> {
    match text {
        Some(t) => Some(t@),
        None => None,
    }
}

pub open spec fn or(first: Option<Seq<char>>, second: Seq<char>) -> Seq<char> {
    match first {
        Some(v) => v,
        None => second,
    }
}

/// How many fresh identifiers replacing a symbol can take.
pub open spec fn fresh_needed(
    content: Seq<char>,
    reference: Seq<char>,
    lib_id: Seq<char>,
    file: Option<Seq<char>>,
) -> nat {
    match (symbols(content).contains_key(reference), library_span(content)) {
        (true, Some((start, end))) => {
            let library = content.subrange(start, end);
            let spot = symbols(content)[reference];
            let block = content.subrange(spot.0, spot.1);
            let new = defined_pins(chosen_definition(library, file, lib_id), lib_id);
            if new.len() > 0 {
                new.len()
            } else {
                instance_pins(block).len()
            }
        },
        _ => 0,
    }
}

fn fresh_pins(pins: &Vec<(String, String)>, fresh: &Vec<String>) -> (out: Vec<(String, String)>)
    requires
        pins@.len() <= fresh@.len(),
    ensures
        text_pairs(out@) == Seq::new(
            pins@.len(),
            |i: int| (text_pairs(pins@)[i].0, strings(fresh@)[i]),
        ),
{
    let mut out: Vec<(String, String)> = Vec::new();
    let mut i: usize = 0;
    while i < pins.len()
        invariant
            i <= pins.len() <= fresh.len(),
            out@.len() == i,
            forall|j: int|
                0 <= j < i ==> (#[trigger] out@[j]).0@ == pins@[j].0@ && out@[j].1@ == fresh@[j]@,
        decreases pins.len() - i,
    {
        out.push((pins[i].0.clone(), fresh[i].clone()));
        i += 1;
    }
    proof {
        assert(text_pairs(out@) =~= Seq::new(
            pins@.len(),
            |i: int| (text_pairs(pins@)[i].0, strings(fresh@)[i]),
        ));
    }
    out
}

/// Puts the symbol `new_lib_id` in the place of the symbol that `reference` names.
///
/// `library_file` is what the library file of the new symbol holds, if there is
/// one. `fresh` holds identifiers for pins that keep none of their own.
pub fn replace_symbol(
    content: &str,
    reference: &str,
    new_lib_id: &str,
    new_value: Option<&str>,
    new_footprint: Option<&str>,
    library_file: Option<&str>,
    fresh: &Vec<String>,
) -> (out: Result<SymbolReplacement, SymbolError>)
    requires
        fresh_needed(content@, reference@, new_lib_id@, given(library_file)) <= fresh@.len(),
    ensures
        out == Err::<SymbolReplacement, SymbolError>(SymbolError::UnknownReference) <==> !symbols(
            content@,
        ).contains_key(reference@),
        symbols(content@).contains_key(reference@) ==> (out == Err::<
            SymbolReplacement,
            SymbolError,
        >(SymbolError::NoLibrary) <==> library_span(content@) is None),
        symbols(content@).contains_key(reference@) && library_span(content@) is Some ==> (out
            == Err::<SymbolReplacement, SymbolError>(SymbolError::Misplaced) <==> (library_span(
            content@,
        )->0).1 > symbols(content@)[reference@].0),
        out matches Ok(done) ==> {
            let spot = symbols(content@)[reference@];
            let block = content@.subrange(spot.0, spot.1);
            let section = library_span(content@)->0;
            let library = content@.subrange(section.0, section.1);
            let old_id = named_symbol(block);
            let text = chosen_definition(library, given(library_file), new_lib_id@);
            let new = defined_pins(text, new_lib_id@);
            let old = pin_list(library, old_id);
            let old_value = or(property(block, "Value"@), reference@);
            let old_footprint = or(property(block, "Footprint"@), Seq::empty());
            let value = or(given(new_value), old_value);
            let footprint = or(given(new_footprint), old_footprint);
            let pins = new_instance_pins(
                old,
                new,
                instance_pins(block),
                strings(fresh@),
            );
            &&& done.content@ == content@.take(section.0) + updated_library(
                library,
                old_id,
                new_lib_id@,
                text,
            ) + content@.subrange(section.1, spot.0) + rebuilt(
                block,
                new_lib_id@,
                value,
                footprint,
                pins,
            ) + content@.skip(spot.1)
            &&& done.old_lib_id@ == old_id
            &&& done.old_value@ == old_value
            &&& done.new_value@ == value
            &&& done.old_footprint@ == old_footprint
            &&& done.new_footprint@ == footprint
            &&& done.pins == pins.len()
            &&& strings(done.lost@) == (if new.len() > 0 {
                unmatched(seconds(old), seconds(new))
            } else {
                Seq::empty()
            })
            &&& done.pins_known == (new.len() > 0)
        },
{
    let text = to_chars(content);
    let table = symbol_table(text.as_slice());
    proof {
        assert(crate::schematic::span_map(table@).contains_key(reference@) == table@.contains_key(
            reference@,
        ));
    }
    let spot: Span = match table.get(reference) {
        Some(s) => *s,
        None => {
            return Err(SymbolError::UnknownReference);
        },
    };
    proof {
        assert(crate::schematic::span_map(table@)[reference@] == pair(spot));
    }
    let block = slice_subrange(text.as_slice(), spot.start, spot.end);
    let old_lib_id = read_named_symbol(block);
    let old_value: String = match read_property(block, "Value") {
        Some(v) => to_text(v.as_slice()),
        None => reference.to_string(),
    };
    let old_footprint: String = match read_property(block, "Footprint") {
        Some(v) => to_text(v.as_slice()),
        None => String::new(),
    };
    let value: String = match new_value {
        Some(v) => v.to_string(),
        None => old_value.clone(),
    };
    let footprint: String = match new_footprint {
        Some(v) => v.to_string(),
        None => old_footprint.clone(),
    };
    let mark = to_chars("(lib_symbols");
    let start: usize = match find_from(text.as_slice(), mark.as_slice(), 0) {
        Some(at) => at,
        None => {
            return Err(SymbolError::NoLibrary);
        },
    };
    let end: usize = block_end(text.as_slice(), start);
    if end > spot.start {
        return Err(SymbolError::Misplaced);
    }
    let library = slice_subrange(text.as_slice(), start, end);
    let library_text = to_text(library);
    let block_text = to_text(block);
    let old_pins = extract_symbol_pins(library_text.as_str(), old_lib_id.as_str());
    let listed_pins = extract_instance_pins(block_text.as_str());
    let definition = choose_definition(library, library_file, new_lib_id);
    let new_pins = read_defined_pins(&definition, new_lib_id);
    let pins_known: bool = new_pins.len() > 0;
    proof {
        assert(text_pairs(new_pins.entries@).len() == new_pins.entries@.len());
        assert(text_pairs(listed_pins@).len() == listed_pins@.len());
    }
    let (pins, lost): (Vec<(String, String)>, Vec<String>) = if pins_known {
        remap_pin_uuids(&old_pins, &new_pins, &listed_pins, fresh)
    } else {
        let none: Vec<String> = Vec::new();
        proof {
            assert(strings(none@) =~= Seq::<Seq<char>>::empty());
        }
        (fresh_pins(&listed_pins, fresh), none)
    };
    let new_block = rebuild_symbol_instance(
        block_text.as_str(),
        new_lib_id,
        value.as_str(),
        footprint.as_str(),
        &pins,
    );
    let new_library = update_library(library, old_lib_id.as_str(), new_lib_id, &definition);
    let mut out: Vec<char> = Vec::new();
    extend(&mut out, slice_subrange(text.as_slice(), 0, start));
    proof {
        assert(out@ =~= text@.take(start as int));
    }
    extend(&mut out, new_library.as_slice());
    extend(&mut out, slice_subrange(text.as_slice(), end, spot.start));
    extend_str(&mut out, new_block.as_str());
    extend(&mut out, slice_subrange(text.as_slice(), spot.end, text.len()));
    proof {
        assert(text@.subrange(spot.end as int, text@.len() as int) =~= text@.skip(
            spot.end as int,
        ));
        assert(text_pairs(pins@).len() == pins@.len());
    }
    let count: usize = pins.len();
    Ok(
        SymbolReplacement {
            content: to_text(out.as_slice()),
            old_lib_id,
            old_value,
            new_value: value,
            old_footprint,
            new_footprint: footprint,
            pins: count,
            lost,
            pins_known,
        },
    )
}

/// How many fresh identifiers replacing a symbol takes.
pub fn fresh_wanted(
    content: &str,
    reference: &str,
    new_lib_id: &str,
    library_file: Option<&str>,
) -> (n: usize)
    ensures
        n == fresh_needed(content@, reference@, new_lib_id@, given(library_file)),
{
    let text = to_chars(content);
    let table = symbol_table(text.as_slice());
    proof {
        assert(crate::schematic::span_map(table@).contains_key(reference@) == table@.contains_key(
            reference@,
        ));
    }
    let spot: Span = match table.get(reference) {
        Some(s) => *s,
        None => {
            return 0;
        },
    };
    proof {
        assert(crate::schematic::span_map(table@)[reference@] == pair(spot));
    }
    let mark = to_chars("(lib_symbols");
    let start: usize = match find_from(text.as_slice(), mark.as_slice(), 0) {
        Some(at) => at,
        None => {
            return 0;
        },
    };
    let end: usize = block_end(text.as_slice(), start);
    let library = slice_subrange(text.as_slice(), start, end);
    let definition = choose_definition(library, library_file, new_lib_id);
    let new_pins = read_defined_pins(&definition, new_lib_id);
    proof {
        assert(text_pairs(new_pins.entries@).len() == new_pins.entries@.len());
    }
    if new_pins.len() > 0 {
        new_pins.len()
    } else {
        let block = to_text(slice_subrange(text.as_slice(), spot.start, spot.end));
        let pins = extract_instance_pins(block.as_str());
        proof {
            assert(text_pairs(pins@).len() == pins@.len());
        }
        pins.len()
    }
}

/// Which symbol was replaced by which, with its value, footprint and pins.
pub open spec fn replaced_symbol(reference: Seq<char>, path: Seq<char>, old: Seq<char>, new: Seq<char>, old_value: Seq<char>, new_value: Seq<char>, old_footprint: Seq<char>, new_footprint: Seq<char>, pins: nat) -> Seq<char> {
    "Replaced symbol "@ + reference + " in "@ + path + ":\n  lib_id: "@ + old + " → "@ + new
        + "\n  value: "@ + old_value + " → "@ + new_value + "\n  footprint: "@ + old_footprint
        + " → "@ + new_footprint + "\n  pins remapped: "@ + decimal(pins)
}

fn write_replaced_symbol(reference: &str, path: &str, old: &str, new: &str, old_value: &str, new_value: &str, old_footprint: &str, new_footprint: &str, pins: usize) -> (out: String)
    ensures
        out@ == replaced_symbol(reference@, path@, old@, new@, old_value@, new_value@, old_footprint@, new_footprint@, pins as nat),
{
    let mut out = to_chars("Replaced symbol ");
    extend_str(&mut out, reference);
    extend_str(&mut out, " in ");
    extend_str(&mut out, path);
    extend_str(&mut out, ":\n  lib_id: ");
    extend_str(&mut out, old);
    extend_str(&mut out, " → ");
    extend_str(&mut out, new);
    extend_str(&mut out, "\n  value: ");
    extend_str(&mut out, old_value);
    extend_str(&mut out, " → ");
    extend_str(&mut out, new_value);
    extend_str(&mut out, "\n  footprint: ");
    extend_str(&mut out, old_footprint);
    extend_str(&mut out, " → ");
    extend_str(&mut out, new_footprint);
    extend_str(&mut out, "\n  pins remapped: ");
    let digits = number(pins);
    extend(&mut out, digits.as_slice());
    proof {
        assert(out@ =~= replaced_symbol(reference@, path@, old@, new@, old_value@, new_value@, old_footprint@, new_footprint@, pins as nat));
    }
    to_text(out.as_slice())
}

/// A warning of pins that found no counterpart.
pub open spec fn lost_pins(n: nat, list: Seq<char>) -> Seq<char> {
    "\n  WARNING: "@ + decimal(n)
        + " pin(s) from old symbol have no match in new symbol — wires may be dangling: "@
        + list
}

fn write_lost_pins(n: usize, list: &str) -> (out: String)
    ensures
        out@ == lost_pins(n as nat, list@),
{
    let mut out = to_chars("\n  WARNING: ");
    let digits = number(n);
    extend(&mut out, digits.as_slice());
    extend_str(&mut out, " pin(s) from old symbol have no match in new symbol — wires may be dangling: ");
    extend_str(&mut out, list);
    proof {
        assert(out@ =~= lost_pins(n as nat, list@));
    }
    to_text(out.as_slice())
}

/// A reference that a file lacks.
pub open spec fn not_in_file(reference: Seq<char>, path: Seq<char>) -> Seq<char> {
    "Reference '"@ + reference + "' not found in "@ + path + "."@
}

fn write_not_in_file(reference: &str, path: &str) -> (out: String)
    ensures
        out@ == not_in_file(reference@, path@),
{
    let mut out = to_chars("Reference '");
    extend_str(&mut out, reference);
    extend_str(&mut out, "' not found in ");
    extend_str(&mut out, path);
    extend_str(&mut out, ".");
    proof {
        assert(out@ =~= not_in_file(reference@, path@));
    }
    to_text(out.as_slice())
}

/// A warning that the new symbol is not known.
pub const UNKNOWN_SYMBOL: &'static str =
    "\n  WARNING: Could not find new symbol definition — all pin UUIDs are fresh. Check wire connections.";

/// Why there is no place for a definition.
pub const NO_DEFINITIONS: &'static str = "No lib_symbols section found in schematic.";

/// Why a symbol is not replaced where it stands.
pub const MISPLACED: &'static str = "The symbol stands in front of the end of lib_symbols.";

/// What is told of a symbol that was replaced.
pub open spec fn replacement_text(
    reference: Seq<char>,
    path: Seq<char>,
    new_lib_id: Seq<char>,
    done: SymbolReplacement,
) -> Seq<char> {
    replaced_symbol(
        reference,
        path,
        done.old_lib_id@,
        new_lib_id,
        done.old_value@,
        done.new_value@,
        done.old_footprint@,
        done.new_footprint@,
        done.pins as nat,
    ) + (if done.lost@.len() > 0 {
        lost_pins(done.lost@.len(), joined(strings(done.lost@), ", "@))
    } else {
        Seq::empty()
    }) + (if done.pins_known {
        Seq::empty()
    } else {
        UNKNOWN_SYMBOL@
    })
}

/// Tells of a symbol that was replaced.
pub fn describe_replaced_symbol(
    reference: &str,
    path: &str,
    new_lib_id: &str,
    done: &SymbolReplacement,
) -> (out: String)
    ensures
        out@ == replacement_text(reference@, path@, new_lib_id@, *done),
{
    let mut out = to_chars(
        write_replaced_symbol(
            reference,
            path,
            done.old_lib_id.as_str(),
            new_lib_id,
            done.old_value.as_str(),
            done.new_value.as_str(),
            done.old_footprint.as_str(),
            done.new_footprint.as_str(),
            done.pins,
        ).as_str(),
    );
    if done.lost.len() > 0 {
        let list = join(&done.lost, ", ");
        let lost = write_lost_pins(done.lost.len(), list.as_str());
        extend_str(&mut out, lost.as_str());
    }
    if !done.pins_known {
        extend_str(&mut out, UNKNOWN_SYMBOL);
    }
    proof {
        assert(out@ =~= replacement_text(reference@, path@, new_lib_id@, *done));
    }
    to_text(out.as_slice())
}

/// Tells why a symbol was not replaced.
pub fn describe_symbol_error(why: SymbolError, reference: &str, path: &str) -> (out: String)
    ensures
        out@ == (match why {
            SymbolError::UnknownReference => not_in_file(reference@, path@),
            SymbolError::NoLibrary => NO_DEFINITIONS@,
            SymbolError::Misplaced => MISPLACED@,
        }),
{
    match why {
        SymbolError::UnknownReference => write_not_in_file(reference, path),
        SymbolError::NoLibrary => NO_DEFINITIONS.to_string(),
        SymbolError::Misplaced => MISPLACED.to_string(),
    }
}

} // verus!
