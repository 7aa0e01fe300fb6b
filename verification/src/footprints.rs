//! Footprints of a board: finding them, and reading and changing what they say of
//! themselves.

use crate::fields::{read_field_numerals, views};
use crate::schematic::{property, read_property, replace_sch_property, with_property};
use crate::sexpr::{
    block_end, end_of_block, lemma_top_level_blocks, pair, pairs, quoted, quoted_after, top_level,
    top_level_blocks, Span,
};
use crate::tables::{
    changed, lemma_place_bounds, lemma_place_changed, lemma_put_changed, lemma_table_list, listed, place,
    put, TextMap,
};
use crate::text::{
    extend, extend_str, find, find_from, has_at, matches_at, splice, spliced, to_chars, to_text,
};
use vstd::prelude::*;
use vstd::slice::slice_subrange;

verus! {

/// The first part of a block that opens with `keyword`, reading from `at` with
/// `depth` brackets open, inside a quoted string or not.
pub open spec fn part_from(
    text: Seq<char>,
    at: int,
    depth: int,
    quoted: bool,
    keyword: Seq<char>,
) -> Option<int>
    decreases text.len() + 1 - at,
{
    if at < 0 || at >= text.len() {
        None
    } else if quoted {
        if text[at] == '\\' {
            part_from(text, at + 2, depth, true, keyword)
        } else {
            part_from(text, at + 1, depth, text[at] != '"', keyword)
        }
    } else if text[at] == '"' {
        part_from(text, at + 1, depth, true, keyword)
    } else if text[at] == '(' {
        if depth == 1 && matches_at(text, keyword, at) {
            Some(at)
        } else {
            part_from(text, at + 1, depth + 1, false, keyword)
        }
    } else if text[at] == ')' {
        if depth <= 1 {
            None
        } else {
            part_from(text, at + 1, depth - 1, false, keyword)
        }
    } else {
        part_from(text, at + 1, depth, false, keyword)
    }
}

/// The first part of a block that opens with `keyword`: one that stands in the
/// block itself and not in another part of it.
pub open spec fn part(block: Seq<char>, keyword: Seq<char>) -> Option<int> {
    part_from(block, 0, 0, false, keyword)
}

/// The first part of a block that opens with `keyword`.
pub fn find_part(block: &[char], keyword: &[char]) -> (found: Option<usize>)
    ensures
        found is Some == part(block@, keyword@) is Some,
        found matches Some(p) ==> {
            &&& part(block@, keyword@) == Some(p as int)
            &&& p + keyword@.len() <= block.len()
            &&& p < block.len()
            &&& matches_at(block@, keyword@, p as int)
        },
{
    let mut at: usize = 0;
    let mut depth: usize = 0;
    let mut quoted: bool = false;
    while at < block.len()
        invariant
            at <= block.len(),
            depth <= at,
            part(block@, keyword@) == part_from(
                block@,
                at as int,
                depth as int,
                quoted,
                keyword@,
            ),
        decreases block.len() - at,
    {
        let c: char = block[at];
        if quoted {
            if c == '\\' {
                if block.len() - at <= 2 {
                    proof {
                        assert(part_from(block@, at + 2, depth as int, true, keyword@) is None);
                    }
                    return None;
                }
                at += 2;
            } else {
                if c == '"' {
                    quoted = false;
                }
                at += 1;
            }
        } else if c == '"' {
            quoted = true;
            at += 1;
        } else if c == '(' {
            if depth == 1 && has_at(block, keyword, at) {
                return Some(at);
            }
            depth += 1;
            at += 1;
        } else if c == ')' {
            if depth <= 1 {
                return None;
            }
            depth -= 1;
            at += 1;
        } else {
            at += 1;
        }
    }
    None
}

/// The text of a footprint of the given kind: its property, else the text that
/// older files give in its place.
pub open spec fn footprint_text(block: Seq<char>, key: Seq<char>, kind: Seq<char>) -> Option<
    Seq<char>,
> {
    match property(block, key) {
        Some(v) => Some(v),
        None => quoted_after(block, "(fp_text "@ + kind + " \""@),
    }
}

fn read_footprint_text(block: &[char], key: &str, kind: &str) -> (value: Option<Vec<char>>)
    ensures
        value is Some == footprint_text(block@, key@, kind@) is Some,
        value matches Some(v) ==> footprint_text(block@, key@, kind@) == Some(v@),
{
    match read_property(block, key) {
        Some(v) => Some(v),
        None => {
            let mut marker = to_chars("(fp_text ");
            extend_str(&mut marker, kind);
            extend_str(&mut marker, " \"");
            quoted(block, marker.as_slice())
        },
    }
}

/// The reference of a footprint.
pub open spec fn reference_of(block: Seq<char>) -> Option<Seq<char>> {
    footprint_text(block, "Reference"@, "reference"@)
}

/// The value of a footprint.
pub open spec fn value_of(block: Seq<char>) -> Option<Seq<char>> {
    footprint_text(block, "Value"@, "value"@)
}

/// The reference of a footprint.
pub fn read_reference(block: &[char]) -> (value: Option<Vec<char>>)
    ensures
        value is Some == reference_of(block@) is Some,
        value matches Some(v) ==> reference_of(block@) == Some(v@),
{
    read_footprint_text(block, "Reference", "reference")
}

/// The value of a footprint.
pub fn read_value(block: &[char]) -> (value: Option<Vec<char>>)
    ensures
        value is Some == value_of(block@) is Some,
        value matches Some(v) ==> value_of(block@) == Some(v@),
{
    read_footprint_text(block, "Value", "value")
}

/// The reference and block of each footprint among the given blocks. A later block
/// takes the place of an earlier one with the same reference; one without a
/// reference is left out.
pub open spec fn footprints_among(text: Seq<char>, blocks: Seq<(int, int)>) -> Seq<
    (Seq<char>, (int, int)),
>
    decreases blocks.len(),
{
    if blocks.len() == 0 {
        Seq::empty()
    } else {
        let known = footprints_among(text, blocks.drop_last());
        let block = blocks.last();
        match reference_of(text.subrange(block.0, block.1)) {
            Some(reference) => put(known, reference, block),
            None => known,
        }
    }
}

/// The reference and block of each footprint of a board.
pub open spec fn footprints(text: Seq<char>) -> Seq<(Seq<char>, (int, int))> {
    footprints_among(text, top_level(text, "(footprint \""@, 0))
}

/// The entries of a table of runs, in numbers.
pub open spec fn span_list(entries: Seq<(String, Span)>) -> Seq<(Seq<char>, (int, int))> {
    changed(listed(entries), |s: Span| pair(s))
}

/// What a table of footprints is to hold for a board.
pub open spec fn is_table_of(table: TextMap<Span>, text: Seq<char>) -> bool {
    &&& table.well_formed()
    &&& span_list(table.entries@) == footprints(text)
}

proof fn lemma_footprints_members(text: Seq<char>, blocks: Seq<(int, int)>)
    ensures
        forall|i: int|
            0 <= i < footprints_among(text, blocks).len() ==> blocks.contains(
                (#[trigger] footprints_among(text, blocks)[i]).1,
            ),
        forall|i: int, j: int|
            0 <= i < j < footprints_among(text, blocks).len() ==> (
            #[trigger] footprints_among(text, blocks)[i]).0 != (
            #[trigger] footprints_among(text, blocks)[j]).0,
        forall|i: int|
            0 <= i < footprints_among(text, blocks).len() ==> reference_of(
                text.subrange(
                    (#[trigger] footprints_among(text, blocks)[i]).1.0,
                    footprints_among(text, blocks)[i].1.1,
                ),
            ) == Some(footprints_among(text, blocks)[i].0),
    decreases blocks.len(),
{
    if blocks.len() > 0 {
        let front = blocks.drop_last();
        lemma_footprints_members(text, front);
        let known = footprints_among(text, front);
        let out = footprints_among(text, blocks);
        let block = blocks.last();
        assert(blocks[blocks.len() - 1] == block);
        assert forall|i: int| 0 <= i < known.len() implies blocks.contains(
            (#[trigger] known[i]).1,
        ) by {
            assert(front.contains(known[i].1));
            let j = choose|j: int| 0 <= j < front.len() && front[j] == known[i].1;
            assert(blocks[j] == known[i].1);
        }
        match reference_of(text.subrange(block.0, block.1)) {
            None => {},
            Some(reference) => {
                lemma_place_bounds(known, reference);
                lemma_place_none(known, reference);
                assert forall|i: int| 0 <= i < out.len() implies blocks.contains(
                    (#[trigger] out[i]).1,
                ) by {
                    if i < known.len() && out[i] != known[i] {
                        assert(out[i] == (reference, block));
                    }
                }
            },
        }
    }
}

proof fn lemma_place_none(list: Seq<(Seq<char>, (int, int))>, key: Seq<char>)
    ensures
        place(list, key) is None ==> forall|i: int|
            0 <= i < list.len() ==> (#[trigger] list[i]).0 != key,
    decreases list.len(),
{
    if list.len() > 0 && place(list, key) is None {
        lemma_place_none(list.drop_last(), key);
        assert forall|i: int| 0 <= i < list.len() implies (#[trigger] list[i]).0 != key by {
            if i < list.len() - 1 {
                assert(list.drop_last()[i] == list[i]);
            }
        }
    }
}

/// Footprints stand in the board, each under the reference that its block gives,
/// no two under the same, and no two at the same place.
pub proof fn lemma_footprints(text: Seq<char>)
    ensures
        ({
            let list = footprints(text);
            &&& forall|i: int|
                0 <= i < list.len() ==> {
                    &&& 0 <= (#[trigger] list[i]).1.0 < list[i].1.1 <= text.len()
                    &&& matches_at(text, "(footprint \""@, list[i].1.0)
                    &&& reference_of(text.subrange(list[i].1.0, list[i].1.1)) == Some(list[i].0)
                }
            &&& forall|i: int, j: int|
                0 <= i < j < list.len() ==> (#[trigger] list[i]).0 != (#[trigger] list[j]).0
            &&& forall|i: int, j: int|
                0 <= i < j < list.len() ==> (#[trigger] list[i]).1.0 != (#[trigger] list[j]).1.0
        }),
{
    reveal_strlit("(footprint \"");
    let blocks = top_level(text, "(footprint \""@, 0);
    lemma_top_level_blocks(text, "(footprint \""@, 0);
    lemma_footprints_members(text, blocks);
    let list = footprints(text);
    assert forall|i: int| 0 <= i < list.len() implies {
        &&& 0 <= (#[trigger] list[i]).1.0 < list[i].1.1 <= text.len()
        &&& matches_at(text, "(footprint \""@, list[i].1.0)
        &&& list[i].1.1 == end_of_block(text, list[i].1.0)
    } by {
        assert(blocks.contains(list[i].1));
        let j = choose|j: int| 0 <= j < blocks.len() && blocks[j] == list[i].1;
        assert(blocks[j].0 < blocks[j].1);
    }
    assert forall|i: int, j: int| 0 <= i < j < list.len() implies (#[trigger] list[i]).1.0 != (
    #[trigger] list[j]).1.0 by {
        if list[i].1.0 == list[j].1.0 {
            assert(list[i].1 == list[j].1);
        }
    }
}

/// What a table of footprints holds for a reference.
pub proof fn lemma_footprint_get(table: &TextMap<Span>, text: Seq<char>, reference: Seq<char>)
    requires
        is_table_of(*table, text),
    ensures
        table@.contains_key(reference) == place(footprints(text), reference) is Some,
        place(footprints(text), reference) matches Some(i) ==> {
            &&& 0 <= i < footprints(text).len()
            &&& pair(table@[reference]) == footprints(text)[i].1
        },
{
    lemma_table_list(table, reference);
    lemma_place_changed(listed(table.entries@), |s: Span| pair(s), reference);
}

/// The block of each footprint of a board, by its reference, as character
/// positions.
pub fn footprint_table(text: &[char]) -> (table: TextMap<Span>)
    ensures
        is_table_of(table, text@),
{
    proof {
        reveal_strlit("(footprint \"");
    }
    let blocks = top_level_blocks(text, "(footprint \"");
    let mut table: TextMap<Span> = TextMap::new();
    let mut i: usize = 0;
    proof {
        assert(span_list(table.entries@) =~= Seq::<(Seq<char>, (int, int))>::empty());
        assert(pairs(blocks@).take(0).len() == 0);
    }
    while i < blocks.len()
        invariant
            i <= blocks.len(),
            table.well_formed(),
            span_list(table.entries@) == footprints_among(text@, pairs(blocks@).take(i as int)),
            forall|j: int|
                0 <= j < blocks@.len() ==> (#[trigger] blocks@[j]).start < blocks@[j].end
                    <= text@.len(),
        decreases blocks.len() - i,
    {
        let block: Span = blocks[i];
        proof {
            let next = pairs(blocks@).take(i + 1);
            assert(next.drop_last() =~= pairs(blocks@).take(i as int));
            assert(next.last() == pair(block));
        }
        match read_reference(slice_subrange(text, block.start, block.end)) {
            Some(reference) => {
                let name = to_text(reference.as_slice());
                let ghost before = listed(table.entries@);
                table.insert(name, block);
                proof {
                    lemma_put_changed(before, |s: Span| pair(s), reference@, block);
                }
            },
            None => {},
        }
        i += 1;
    }
    proof {
        assert(pairs(blocks@).take(blocks@.len() as int) =~= pairs(blocks@));
    }
    table
}

/// The block of each footprint of a board, by its reference, as character
/// positions.
pub fn find_footprint_blocks(content: &str) -> (table: TextMap<Span>)
    ensures
        is_table_of(table, content@),
{
    let text = to_chars(content);
    footprint_table(text.as_slice())
}

/// The name of the library part that a footprint is made from.
pub open spec fn footprint_name(block: Seq<char>) -> Option<Seq<char>> {
    quoted_after(block, "(footprint \""@)
}

/// The name of the library part that a footprint is made from.
pub fn read_footprint_name(block: &[char]) -> (name: Option<Vec<char>>)
    ensures
        name is Some == footprint_name(block@) is Some,
        name matches Some(v) ==> footprint_name(block@) == Some(v@),
{
    let marker = to_chars("(footprint \"");
    quoted(block, marker.as_slice())
}

/// The block with what stands between the first occurrence of `marker` and the
/// next quotation mark replaced.
pub open spec fn with_quoted(block: Seq<char>, marker: Seq<char>, value: Seq<char>) -> Seq<char> {
    match find(block, marker, 0) {
        None => block,
        Some(at) => match find(block, seq!['"'], at + marker.len()) {
            None => block,
            Some(end) => spliced(block, at + marker.len(), end, value),
        },
    }
}

fn set_quoted(block: &[char], marker: &[char], value: &[char]) -> (out: Vec<char>)
    ensures
        out@ == with_quoted(block@, marker@, value@),
{
    let mark: Vec<char> = vec!['"'];
    proof {
        assert(mark@ =~= seq!['"']);
    }
    let mut copy: Vec<char> = Vec::new();
    extend(&mut copy, block);
    proof {
        assert(copy@ =~= block@);
    }
    match find_from(block, marker, 0) {
        None => copy,
        Some(at) => {
            let start: usize = at + marker.len();
            match find_from(block, mark.as_slice(), start) {
                None => copy,
                Some(end) => splice(block, start, end, value),
            }
        },
    }
}

/// The block made from another library part.
pub open spec fn with_footprint_name(block: Seq<char>, name: Seq<char>) -> Seq<char> {
    with_quoted(block, "(footprint \""@, name)
}

/// The block with another value: in its property if it has one, else in the text
/// that older files give in its place.
pub open spec fn with_value(block: Seq<char>, value: Seq<char>) -> Seq<char> {
    if property(block, "Value"@) is Some {
        with_property(block, "Value"@, value)
    } else {
        with_quoted(block, "(fp_text value \""@, value)
    }
}

/// The block made from another library part.
pub fn set_footprint_name(block: &[char], name: &str) -> (out: Vec<char>)
    ensures
        out@ == with_footprint_name(block@, name@),
{
    let marker = to_chars("(footprint \"");
    let value = to_chars(name);
    set_quoted(block, marker.as_slice(), value.as_slice())
}

/// The block with another value.
pub fn set_value(block: &[char], value: &str) -> (out: Vec<char>)
    ensures
        out@ == with_value(block@, value@),
{
    if read_property(block, "Value").is_some() {
        let text = to_text(block);
        let out = replace_sch_property(text.as_str(), "Value", value);
        to_chars(out.as_str())
    } else {
        let marker = to_chars("(fp_text value \"");
        let new = to_chars(value);
        set_quoted(block, marker.as_slice(), new.as_slice())
    }
}

/// Where a footprint is placed: the numerals of its own `(at X Y [ROT])`, the
/// turn being `0` if none is given.
pub open spec fn placement(block: Seq<char>) -> Option<(Seq<char>, Seq<char>, Seq<char>)> {
    match part(block, "(at "@) {
        None => None,
        Some(at) => match crate::fields::field_numerals(block.skip(at), "(at "@) {
            None => None,
            Some(n) => if n.len() >= 3 {
                Some((n[0], n[1], n[2]))
            } else if n.len() == 2 {
                Some((n[0], n[1], "0"@))
            } else {
                None
            },
        },
    }
}

/// Where a footprint is placed, as it is written: across, down and turn.
pub fn extract_at(block: &str) -> (place: Option<(String, String, String)>)
    ensures
        place is Some == placement(block@) is Some,
        place matches Some((x, y, turn)) ==> placement(block@) == Some((x@, y@, turn@)),
{
    let text = to_chars(block);
    read_placement(text.as_slice())
}

/// Where a footprint is placed, as it is written: across, down and turn.
pub fn read_placement(block: &[char]) -> (place: Option<(String, String, String)>)
    ensures
        place is Some == placement(block@) is Some,
        place matches Some((x, y, turn)) ==> placement(block@) == Some((x@, y@, turn@)),
{
    let marker = to_chars("(at ");
    match find_part(block, marker.as_slice()) {
        None => None,
        Some(at) => {
            let rest = slice_subrange(block, at, block.len());
            proof {
                assert(rest@ =~= block@.skip(at as int));
            }
            match read_field_numerals(rest, marker.as_slice()) {
                None => None,
                Some(n) => {
                    proof {
                        assert(views(n@).len() == n@.len());
                        assert forall|i: int| 0 <= i < n@.len() implies views(n@)[i]
                            == #[trigger] n@[i]@ by {}
                    }
                    if n.len() >= 3 {
                        Some(
                            (
                                to_text(n[0].as_slice()),
                                to_text(n[1].as_slice()),
                                to_text(n[2].as_slice()),
                            ),
                        )
                    } else if n.len() == 2 {
                        Some(
                            (
                                to_text(n[0].as_slice()),
                                to_text(n[1].as_slice()),
                                "0".to_string(),
                            ),
                        )
                    } else {
                        None
                    }
                },
            }
        },
    }
}

/// The block with its own placement replaced by `place`.
pub open spec fn with_placement(block: Seq<char>, place: Seq<char>) -> Seq<char> {
    match part(block, "(at "@) {
        None => block,
        Some(at) => spliced(block, at, end_of_block(block, at), place),
    }
}

/// The block with its own placement replaced by `place`.
pub fn replace_at(block: &str, place: &str) -> (out: String)
    ensures
        out@ == with_placement(block@, place@),
{
    let text = to_chars(block);
    let marker = to_chars("(at ");
    match find_part(text.as_slice(), marker.as_slice()) {
        None => block.to_string(),
        Some(at) => {
            let end: usize = block_end(text.as_slice(), at);
            let new = to_chars(place);
            let out = splice(text.as_slice(), at, end, new.as_slice());
            to_text(out.as_slice())
        },
    }
}

} // verus!
