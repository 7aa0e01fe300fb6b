//! Symbols of a schematic: finding them, reading their pins and properties, and
//! rewriting an instance.

use crate::sexpr::{
    block_end, end_of_block, pair, pairs, quoted, quoted_after, top_level, top_level_blocks, Span,
};
use crate::tables::TextMap;
use crate::text::{
    byte_offset, byte_position, extend, extend_str, find, find_from, lemma_find_in_start,
    lemma_find_is_first, splice, spliced, to_chars, to_text,
};
use vstd::prelude::*;
use vstd::slice::slice_subrange;

verus! {

/// The quoted text that starts at `at`, up to its closing quotation mark. A
/// backslash and the character behind it are left out.
pub open spec fn quoted_value(text: Seq<char>, at: int) -> Option<Seq<char>>
    decreases text.len() + 1 - at,
{
    if at < 0 || at >= text.len() {
        None
    } else if text[at] == '"' {
        Some(Seq::empty())
    } else if text[at] == '\\' {
        quoted_value(text, at + 2)
    } else {
        match quoted_value(text, at + 1) {
            Some(rest) => Some(seq![text[at]] + rest),
            None => None,
        }
    }
}

/// What a property of the name `key` is introduced by.
pub open spec fn property_marker(key: Seq<char>) -> Seq<char> {
    "(property \""@ + key + "\" \""@
}

/// The value of the property `key` of a symbol.
pub open spec fn property(block: Seq<char>, key: Seq<char>) -> Option<Seq<char>> {
    let marker = property_marker(key);
    match find(block, marker, 0) {
        None => None,
        Some(at) => quoted_value(block, at + marker.len()),
    }
}

fn make_property_marker(key: &str) -> (marker: Vec<char>)
    ensures
        marker@ == property_marker(key@),
{
    let mut marker = to_chars("(property \"");
    extend_str(&mut marker, key);
    extend_str(&mut marker, "\" \"");
    marker
}

/// The value of the property `key`, as characters.
pub fn read_property(block: &[char], key: &str) -> (value: Option<Vec<char>>)
    ensures
        value is Some == property(block@, key@) is Some,
        value matches Some(v) ==> property(block@, key@) == Some(v@),
{
    let marker = make_property_marker(key);
    match find_from(block, marker.as_slice(), 0) {
        None => None,
        Some(found) => {
            let start: usize = found + marker.len();
            let mut at: usize = start;
            let mut value: Vec<char> = Vec::new();
            proof {
                if let Some(rest) = quoted_value(block@, start as int) {
                    assert(value@ + rest =~= rest);
                }
            }
            while at < block.len()
                invariant
                    start <= at <= block.len(),
                    property(block@, key@) == quoted_value(block@, start as int),
                    quoted_value(block@, start as int) == (match quoted_value(block@, at as int) {
                        Some(rest) => Some(value@ + rest),
                        None => None,
                    }),
                decreases block.len() - at,
            {
                let c: char = block[at];
                if c == '"' {
                    proof {
                        assert(value@ + Seq::<char>::empty() =~= value@);
                    }
                    return Some(value);
                }
                if c == '\\' {
                    if block.len() - at <= 2 {
                        proof {
                            assert(quoted_value(block@, at + 2) is None);
                        }
                        return None;
                    }
                    at += 2;
                } else {
                    let ghost done = value@;
                    value.push(c);
                    proof {
                        if let Some(rest) = quoted_value(block@, at + 1) {
                            assert(done + (seq![c] + rest) =~= value@ + rest);
                        }
                    }
                    at += 1;
                }
            }
            None
        },
    }
}

/// The value of `(property "KEY" "VALUE" ...)` in a symbol block.
pub fn sch_property_value(block: &str, key: &str) -> (value: Option<String>)
    ensures
        value is Some == property(block@, key@) is Some,
        value matches Some(v) ==> property(block@, key@) == Some(v@),
{
    let text = to_chars(block);
    match read_property(text.as_slice(), key) {
        Some(v) => Some(to_text(v.as_slice())),
        None => None,
    }
}

/// The block that each reference names, where a later block takes the place of an
/// earlier one with the same reference. A block without a reference names nothing.
pub open spec fn symbols_among(text: Seq<char>, blocks: Seq<(int, int)>) -> Map<
    Seq<char>,
    (int, int),
>
    decreases blocks.len(),
{
    if blocks.len() == 0 {
        Map::empty()
    } else {
        let known = symbols_among(text, blocks.drop_last());
        let block = blocks.last();
        match property(text.subrange(block.0, block.1), "Reference"@) {
            Some(reference) => known.insert(reference, block),
            None => known,
        }
    }
}

/// The block of each placed symbol of a schematic, by its reference.
pub open spec fn symbols(text: Seq<char>) -> Map<Seq<char>, (int, int)> {
    symbols_among(text, top_level(text, "(symbol"@, 0))
}

/// A table of runs, as a map to pairs of numbers.
pub open spec fn span_map(table: Map<Seq<char>, Span>) -> Map<Seq<char>, (int, int)> {
    table.map_values(|s: Span| pair(s))
}

/// The block of each placed symbol, by its reference, as character positions.
pub fn symbol_table(text: &[char]) -> (table: TextMap<Span>)
    ensures
        table.well_formed(),
        span_map(table@) == symbols(text@),
        forall|k: Seq<char>|
            table@.contains_key(k) ==> (#[trigger] table@[k]).start < table@[k].end <= text@.len(),
{
    proof {
        reveal_strlit("(symbol");
    }
    let blocks = top_level_blocks(text, "(symbol");
    let mut table: TextMap<Span> = TextMap::new();
    let mut i: usize = 0;
    proof {
        assert(span_map(table@) =~= Map::empty());
        assert(pairs(blocks@).take(0) =~= Seq::<(int, int)>::empty());
    }
    while i < blocks.len()
        invariant
            i <= blocks.len(),
            table.well_formed(),
            span_map(table@) == symbols_among(text@, pairs(blocks@).take(i as int)),
            forall|j: int|
                0 <= j < blocks@.len() ==> (#[trigger] blocks@[j]).start < blocks@[j].end
                    <= text@.len(),
            forall|k: Seq<char>|
                table@.contains_key(k) ==> (#[trigger] table@[k]).start < table@[k].end
                    <= text@.len(),
        decreases blocks.len() - i,
    {
        let block: Span = blocks[i];
        proof {
            let next = pairs(blocks@).take(i + 1);
            assert(next.drop_last() =~= pairs(blocks@).take(i as int));
            assert(next.last() == pair(block));
        }
        let here = slice_subrange(text, block.start, block.end);
        match read_property(here, "Reference") {
            Some(reference) => {
                let name = to_text(reference.as_slice());
                let ghost known = table@;
                table.insert(name, block);
                proof {
                    assert(span_map(table@) =~= span_map(known).insert(reference@, pair(block)));
                }
            },
            None => {},
        }
        i += 1;
    }
    proof {
        assert(pairs(blocks@).take(blocks@.len() as int) =~= pairs(blocks@));
    }
    table
}

/// The block of each placed symbol of a schematic, by its reference, as character
/// positions.
pub fn find_symbol_blocks(content: &str) -> (table: TextMap<Span>)
    ensures
        table.well_formed(),
        span_map(table@) == symbols(content@),
{
    let text = to_chars(content);
    symbol_table(text.as_slice())
}

/// The block of the symbol that `reference` names, as byte positions.
pub fn find_sch_symbol_by_ref(content: &str, reference: &str) -> (range: Option<
    core::ops::Range<usize>,
>)
    ensures
        range is Some == symbols(content@).contains_key(reference@),
        range matches Some(r) ==> {
            let block = symbols(content@)[reference@];
            &&& r.start == byte_position(content@, block.0)
            &&& r.end == byte_position(content@, block.1)
        },
{
    let text = to_chars(content);
    let bytes: usize = content.as_bytes().len();
    let table = symbol_table(text.as_slice());
    match table.get(reference) {
        Some(block) => {
            proof {
                assert(span_map(table@)[reference@] == pair(*block));
                assert(bytes == vstd::utf8::encode_utf8(content@).len());
            }
            Some(
                byte_offset(text.as_slice(), block.start)..byte_offset(text.as_slice(), block.end),
            )
        },
        None => {
            proof {
                assert(span_map(table@).contains_key(reference@) == table@.contains_key(
                    reference@,
                ));
            }
            None
        },
    }
}

/// Where the quoted text that starts at `at` has its closing quotation mark; one behind
/// a backslash closes nothing.
pub open spec fn value_end(text: Seq<char>, at: int) -> Option<int>
    decreases text.len() + 1 - at,
{
    if at < 0 || at >= text.len() {
        None
    } else if text[at] == '"' {
        Some(at)
    } else if text[at] == '\\' {
        value_end(text, at + 2)
    } else {
        value_end(text, at + 1)
    }
}

/// The block with the value of the property `key` replaced.
pub open spec fn with_property(block: Seq<char>, key: Seq<char>, value: Seq<char>) -> Seq<char> {
    let marker = property_marker(key);
    match find(block, marker, 0) {
        None => block,
        Some(at) => match value_end(block, at + marker.len()) {
            None => block,
            Some(end) => spliced(block, at + marker.len(), end, value),
        },
    }
}

proof fn lemma_value_end(text: Seq<char>, at: int)
    requires
        0 <= at,
    ensures
        quoted_value(text, at) is Some == value_end(text, at) is Some,
        value_end(text, at) matches Some(end) ==> at <= end < text.len() && text[end] == '"',
    decreases text.len() + 1 - at,
{
    if at < text.len() && text[at] != '"' {
        if text[at] == '\\' {
            lemma_value_end(text, at + 2);
        } else {
            lemma_value_end(text, at + 1);
        }
    }
}

proof fn lemma_plain_value(text: Seq<char>, at: int, end: int)
    requires
        0 <= at <= end < text.len(),
        text[end] == '"',
        forall|i: int| at <= i < end ==> #[trigger] text[i] != '"' && text[i] != '\\',
    ensures
        quoted_value(text, at) == Some(text.subrange(at, end)),
    decreases end - at,
{
    if at < end {
        lemma_plain_value(text, at + 1, end);
        assert(seq![text[at]] + text.subrange(at + 1, end) =~= text.subrange(at, end));
    } else {
        assert(text.subrange(at, end) =~= Seq::empty());
    }
}

/// The value that a property is given is read back, if it holds no quotation mark
/// and no backslash.
pub proof fn lemma_property_read_back(block: Seq<char>, key: Seq<char>, value: Seq<char>)
    requires
        property(block, key) is Some,
        forall|i: int| 0 <= i < value.len() ==> #[trigger] value[i] != '"' && value[i] != '\\',
    ensures
        property(with_property(block, key, value), key) == Some(value),
{
    let marker = property_marker(key);
    let at = find(block, marker, 0)->0;
    lemma_find_is_first(block, marker, 0);
    let start = at + marker.len();
    lemma_value_end(block, start);
    let out = with_property(block, key, value);
    assert(out.take(start) =~= block.take(start));
    lemma_find_in_start(block, out, marker, at);
    lemma_plain_value(out, start, start + value.len());
    assert(out.subrange(start, start + value.len()) =~= value);
}

fn copy(text: &[char]) -> (out: Vec<char>)
    ensures
        out@ == text@,
{
    let mut out: Vec<char> = Vec::new();
    extend(&mut out, text);
    proof {
        assert(out@ =~= text@);
    }
    out
}

fn end_of_value(text: &[char], from: usize) -> (end: Option<usize>)
    requires
        from <= text@.len(),
    ensures
        (match end {
            Some(p) => Some(p as int),
            None => None,
        }) == value_end(text@, from as int),
        end matches Some(p) ==> from <= p < text@.len(),
{
    let mut at: usize = from;
    while at < text.len()
        invariant
            from <= at <= text@.len(),
            value_end(text@, from as int) == value_end(text@, at as int),
        decreases text@.len() - at,
    {
        if text[at] == '"' {
            return Some(at);
        }
        if text[at] == '\\' {
            if at + 1 >= text.len() {
                assert(value_end(text@, at + 2) is None);
                return None;
            }
            at += 2;
        } else {
            at += 1;
        }
    }
    None
}

fn set_property(block: &[char], key: &str, value: &[char]) -> (out: Vec<char>)
    ensures
        out@ == with_property(block@, key@, value@),
{
    let marker = make_property_marker(key);
    match find_from(block, marker.as_slice(), 0) {
        None => copy(block),
        Some(at) => {
            let start: usize = at + marker.len();
            match end_of_value(block, start) {
                None => copy(block),
                Some(end) => splice(block, start, end, value),
            }
        },
    }
}

/// The block with the value of `(property "KEY" "VALUE" ...)` replaced. The old
/// value ends at the next quotation mark that no backslash stands before.
pub fn replace_sch_property(block: &str, key: &str, new_value: &str) -> (out: String)
    ensures
        out@ == with_property(block@, key@, new_value@),
{
    let text = to_chars(block);
    let value = to_chars(new_value);
    let out = set_property(text.as_slice(), key, value.as_slice());
    to_text(out.as_slice())
}

/// What stands between the first occurrence of `prefix` and the next quotation
/// mark.
pub fn extract_quoted_after(text: &str, prefix: &str) -> (value: Option<String>)
    ensures
        value is Some == quoted_after(text@, prefix@) is Some,
        value matches Some(v) ==> quoted_after(text@, prefix@) == Some(v@),
{
    crate::fields::parse_quoted_field(text, prefix)
}

/// What stands between the first occurrence of `keyword` and the next quotation
/// mark, or nothing.
pub fn extract_quoted_after_kw(block: &str, keyword: &str) -> (value: String)
    ensures
        value@ == (match quoted_after(block@, keyword@) {
            Some(v) => v,
            None => Seq::empty(),
        }),
{
    match crate::fields::parse_quoted_field(block, keyword) {
        Some(v) => v,
        None => String::new(),
    }
}

/// What a field of the name `field` is introduced by.
pub open spec fn field_marker(field: Seq<char>) -> Seq<char> {
    "("@ + field + " \""@
}

/// The quoted value of the field `field`, as characters.
pub fn read_field(block: &[char], field: &str) -> (value: Option<Vec<char>>)
    ensures
        value is Some == quoted_after(block@, field_marker(field@)) is Some,
        value matches Some(v) ==> quoted_after(block@, field_marker(field@)) == Some(v@),
{
    let mut marker = to_chars("(");
    extend_str(&mut marker, field);
    extend_str(&mut marker, " \"");
    quoted(block, marker.as_slice())
}

/// The value of `(FIELD "VALUE" ...)` in a block.
pub fn extract_quoted_field(block: &str, field: &str) -> (value: Option<String>)
    ensures
        value is Some == quoted_after(block@, field_marker(field@)) is Some,
        value matches Some(v) ==> quoted_after(block@, field_marker(field@)) == Some(v@),
{
    let text = to_chars(block);
    match read_field(text.as_slice(), field) {
        Some(v) => Some(to_text(v.as_slice())),
        None => None,
    }
}

/// The value of `(name "VALUE" ...)` or `(number "VALUE" ...)` in a pin block.
pub fn extract_pin_field(pin_block: &str, field: &str) -> (value: Option<String>)
    ensures
        value is Some == quoted_after(pin_block@, field_marker(field@)) is Some,
        value matches Some(v) ==> quoted_after(pin_block@, field_marker(field@)) == Some(v@),
{
    extract_quoted_field(pin_block, field)
}

/// What the definition of the symbol `lib_id` is introduced by.
pub open spec fn definition_marker(lib_id: Seq<char>) -> Seq<char> {
    "(symbol \""@ + lib_id + "\""@
}

/// The block that defines the symbol `lib_id`.
pub open spec fn definition(library: Seq<char>, lib_id: Seq<char>) -> Option<(int, int)> {
    match find(library, definition_marker(lib_id), 0) {
        None => None,
        Some(at) => Some((at, end_of_block(library, at))),
    }
}

pub fn make_definition_marker(lib_id: &str) -> (marker: Vec<char>)
    ensures
        marker@ == definition_marker(lib_id@),
        marker@.len() > 0,
{
    let mut marker = to_chars("(symbol \"");
    extend_str(&mut marker, lib_id);
    extend_str(&mut marker, "\"");
    proof {
        reveal_strlit("\"");
    }
    marker
}

/// The block that defines the symbol `lib_id`, as character positions.
pub fn definition_span(library: &[char], lib_id: &str) -> (span: Option<Span>)
    ensures
        span is Some == definition(library@, lib_id@) is Some,
        span matches Some(s) ==> {
            &&& definition(library@, lib_id@) == Some(pair(s))
            &&& s.start < s.end <= library@.len()
        },
{
    let marker = make_definition_marker(lib_id);
    match find_from(library, marker.as_slice(), 0) {
        None => None,
        Some(at) => {
            proof {
                crate::sexpr::lemma_close_bounds(library@, at as int, 0, false);
            }
            Some(Span { start: at, end: block_end(library, at) })
        },
    }
}

/// The block that defines the symbol `lib_id`, as character positions.
pub fn find_lib_symbol_def(lib_symbols_block: &str, lib_id: &str) -> (span: Option<Span>)
    ensures
        span is Some == definition(lib_symbols_block@, lib_id@) is Some,
        span matches Some(s) ==> definition(lib_symbols_block@, lib_id@) == Some(pair(s)),
{
    let text = to_chars(lib_symbols_block);
    definition_span(text.as_slice(), lib_id)
}

} // verus!
