//! The words and numbers inside a block.

use crate::decimal::{nanometres, numeral, parse_nanometres};
use crate::sexpr::{quoted, quoted_after};
use crate::text::{extend, find, find_from, to_chars, to_text};
use vstd::prelude::*;
use vstd::slice::slice_subrange;

verus! {

/// Whether a character is white space, as Unicode has it.
pub open spec fn is_space(c: char) -> bool {
    ||| ('\u{9}' <= c && c <= '\u{d}')
    ||| c == ' '
    ||| c == '\u{85}'
    ||| c == '\u{a0}'
    ||| c == '\u{1680}'
    ||| ('\u{2000}' <= c && c <= '\u{200a}')
    ||| c == '\u{2028}'
    ||| c == '\u{2029}'
    ||| c == '\u{202f}'
    ||| c == '\u{205f}'
    ||| c == '\u{3000}'
}

/// Whether a character is white space.
pub fn space(c: char) -> (yes: bool)
    ensures
        yes == is_space(c),
{
    ('\u{9}' <= c && c <= '\u{d}') || c == ' ' || c == '\u{85}' || c == '\u{a0}' || c == '\u{1680}'
        || ('\u{2000}' <= c && c <= '\u{200a}') || c == '\u{2028}' || c == '\u{2029}' || c
        == '\u{202f}' || c == '\u{205f}' || c == '\u{3000}'
}

/// The first position at or after `from` that holds no white space.
pub open spec fn past_spaces(text: Seq<char>, from: int) -> int
    decreases text.len() - from,
{
    if 0 <= from < text.len() && is_space(text[from]) {
        past_spaces(text, from + 1)
    } else {
        from
    }
}

/// The first position at or after `from` that holds white space, or the end.
pub open spec fn past_word(text: Seq<char>, from: int) -> int
    decreases text.len() - from,
{
    if 0 <= from < text.len() && !is_space(text[from]) {
        past_word(text, from + 1)
    } else {
        from
    }
}

/// Where the next word at or after `from` starts and ends.
pub open spec fn word(text: Seq<char>, from: int) -> Option<(int, int)> {
    let start = past_spaces(text, from);
    if start < text.len() {
        Some((start, past_word(text, start)))
    } else {
        None
    }
}

pub proof fn lemma_word_bounds(text: Seq<char>, from: int)
    requires
        0 <= from <= text.len(),
    ensures
        from <= past_spaces(text, from) <= text.len(),
        from <= past_word(text, from) <= text.len(),
        past_spaces(text, from) < text.len() ==> !is_space(text[past_spaces(text, from)]),
        word(text, from) matches Some((a, b)) ==> from <= a < b <= text.len(),
    decreases text.len() - from,
{
    if from < text.len() {
        lemma_word_bounds(text, from + 1);
        if is_space(text[from]) {
        } else {
            assert(past_spaces(text, from) == from);
            assert(past_word(text, from) == past_word(text, from + 1));
        }
    }
}

/// The word that stands next at or after `from`.
pub fn next_word(text: &[char], from: usize) -> (found: Option<(usize, usize)>)
    requires
        from <= text@.len(),
    ensures
        found is Some == word(text@, from as int) is Some,
        found matches Some((a, b)) ==> {
            &&& word(text@, from as int) == Some((a as int, b as int))
            &&& from <= a < b <= text.len()
        },
{
    proof {
        lemma_word_bounds(text@, from as int);
    }
    let mut start: usize = from;
    while start < text.len() && space(text[start])
        invariant
            from <= start <= text.len(),
            past_spaces(text@, from as int) == past_spaces(text@, start as int),
        decreases text.len() - start,
    {
        start += 1;
    }
    if start == text.len() {
        return None;
    }
    let mut end: usize = start;
    while end < text.len() && !space(text[end])
        invariant
            start <= end <= text.len(),
            past_word(text@, start as int) == past_word(text@, end as int),
        decreases text.len() - end,
    {
        end += 1;
    }
    Some((start, end))
}

/// The text without the closing brackets at its end.
pub open spec fn trim_brackets(text: Seq<char>) -> Seq<char>
    decreases text.len(),
{
    if text.len() > 0 && text.last() == ')' {
        trim_brackets(text.drop_last())
    } else {
        text
    }
}

/// The text without the closing brackets at its end.
pub fn without_brackets(text: &[char]) -> (out: &[char])
    ensures
        out@ == trim_brackets(text@),
{
    let mut end: usize = text.len();
    proof {
        assert(text@.take(end as int) =~= text@);
    }
    while end > 0 && text[end - 1] == ')'
        invariant
            end <= text.len(),
            trim_brackets(text@) == trim_brackets(text@.take(end as int)),
        decreases end,
    {
        proof {
            assert(text@.take(end as int).drop_last() =~= text@.take(end - 1));
        }
        end -= 1;
    }
    proof {
        assert(text@.subrange(0, end as int) =~= text@.take(end as int));
    }
    slice_subrange(text, 0, end)
}

/// The two words that stand next at or after `from`, the second without the
/// closing brackets at its end.
pub open spec fn two_words(text: Seq<char>, from: int) -> Option<(Seq<char>, Seq<char>)> {
    match word(text, from) {
        None => None,
        Some((a, b)) => match word(text, b) {
            None => None,
            Some((c, d)) => Some((text.subrange(a, b), trim_brackets(text.subrange(c, d)))),
        },
    }
}

/// The point that the two words at or after `from` give, in nanometres.
pub open spec fn loose_point(text: Seq<char>, from: int) -> Option<(int, int)> {
    match two_words(text, from) {
        None => None,
        Some((x, y)) => match (nanometres(x), nanometres(y)) {
            (Some(px), Some(py)) => Some((px, py)),
            _ => None,
        },
    }
}

/// The point that the two words at or after `from` give, in nanometres.
pub fn read_point(text: &[char], from: usize) -> (point: Option<(i64, i64)>)
    requires
        from <= text@.len(),
    ensures
        point is Some == loose_point(text@, from as int) is Some,
        point matches Some((x, y)) ==> loose_point(text@, from as int) == Some(
            (x as int, y as int),
        ),
{
    match next_word(text, from) {
        None => None,
        Some((a, b)) => match next_word(text, b) {
            None => None,
            Some((c, d)) => {
                let x = parse_nanometres(slice_subrange(text, a, b));
                let y = parse_nanometres(without_brackets(slice_subrange(text, c, d)));
                match (x, y) {
                    (Some(px), Some(py)) => Some((px, py)),
                    _ => None,
                }
            },
        },
    }
}

/// The words of `text` from `from` on that are numerals.
pub open spec fn numerals(text: Seq<char>, from: int) -> Seq<Seq<char>>
    decreases text.len() - from,
    when 0 <= from <= text.len()
    via numerals_decreases
{
    match word(text, from) {
        None => Seq::empty(),
        Some((a, b)) => {
            let here = text.subrange(a, b);
            if numeral(here) is Some {
                seq![here] + numerals(text, b)
            } else {
                numerals(text, b)
            }
        },
    }
}

#[via_fn]
proof fn numerals_decreases(text: Seq<char>, from: int) {
    lemma_word_bounds(text, from);
}

/// The numerals between the first occurrence of `keyword` and the next closing
/// bracket.
pub open spec fn field_numerals(block: Seq<char>, keyword: Seq<char>) -> Option<Seq<Seq<char>>> {
    match find(block, keyword, 0) {
        None => None,
        Some(at) => match find(block, seq![')'], at + keyword.len()) {
            None => None,
            Some(close) => Some(numerals(block.subrange(at + keyword.len(), close), 0)),
        },
    }
}

/// The texts of a list.
pub open spec fn views(texts: Seq<Vec<char>>) -> Seq<Seq<char>> {
    texts.map_values(|t: Vec<char>| t@)
}

fn read_numerals(text: &[char]) -> (found: Vec<Vec<char>>)
    ensures
        views(found@) == numerals(text@, 0),
{
    let mut found: Vec<Vec<char>> = Vec::new();
    let mut from: usize = 0;
    proof {
        assert(views(found@) + numerals(text@, 0) =~= numerals(text@, 0));
    }
    loop
        invariant
            from <= text.len(),
            numerals(text@, 0) == views(found@) + numerals(text@, from as int),
        decreases text.len() - from,
    {
        match next_word(text, from) {
            None => {
                proof {
                    assert(views(found@) + Seq::<Seq<char>>::empty() =~= views(found@));
                }
                return found;
            },
            Some((a, b)) => {
                let here = slice_subrange(text, a, b);
                if parse_nanometres(here).is_some() {
                    let mut copy: Vec<char> = Vec::new();
                    extend(&mut copy, here);
                    let ghost done = found@;
                    proof {
                        assert(copy@ =~= here@);
                    }
                    found.push(copy);
                    proof {
                        assert(views(found@) =~= views(done).push(here@));
                        assert(views(done) + (seq![here@] + numerals(text@, b as int)) =~= views(
                            found@,
                        ) + numerals(text@, b as int));
                    }
                }
                from = b;
            },
        }
    }
}

/// The numerals between the first occurrence of `keyword` and the next closing
/// bracket.
pub fn read_field_numerals(block: &[char], keyword: &[char]) -> (found: Option<Vec<Vec<char>>>)
    ensures
        found is Some == field_numerals(block@, keyword@) is Some,
        found matches Some(v) ==> field_numerals(block@, keyword@) == Some(views(v@)),
{
    match find_from(block, keyword, 0) {
        None => None,
        Some(at) => {
            let start: usize = at + keyword.len();
            let mark: Vec<char> = vec![')'];
            proof {
                assert(mark@ =~= seq![')']);
            }
            match find_from(block, mark.as_slice(), start) {
                None => None,
                Some(close) => Some(read_numerals(slice_subrange(block, start, close))),
            }
        },
    }
}

/// The first two of the numerals in a field.
pub open spec fn xy_numerals(block: Seq<char>, keyword: Seq<char>) -> Option<
    (Seq<char>, Seq<char>),
> {
    match field_numerals(block, keyword) {
        Some(found) => if found.len() >= 2 {
            Some((found[0], found[1]))
        } else {
            None
        },
        None => None,
    }
}

/// The first two of the numerals in a field, in nanometres.
pub open spec fn xy_nanometres(block: Seq<char>, keyword: Seq<char>) -> Option<(int, int)> {
    match xy_numerals(block, keyword) {
        Some((x, y)) => match (nanometres(x), nanometres(y)) {
            (Some(px), Some(py)) => Some((px, py)),
            _ => None,
        },
        None => None,
    }
}

/// The first two of the numerals in a field, in nanometres.
pub fn read_xy(block: &[char], keyword: &[char]) -> (point: Option<(i64, i64)>)
    ensures
        point is Some == xy_nanometres(block@, keyword@) is Some,
        point matches Some((x, y)) ==> xy_nanometres(block@, keyword@) == Some(
            (x as int, y as int),
        ),
{
    match read_field_numerals(block, keyword) {
        None => None,
        Some(found) => {
            if found.len() >= 2 {
                proof {
                    assert(views(found@)[0] == found@[0]@);
                    assert(views(found@)[1] == found@[1]@);
                }
                match (
                    parse_nanometres(found[0].as_slice()),
                    parse_nanometres(found[1].as_slice()),
                ) {
                    (Some(x), Some(y)) => Some((x, y)),
                    _ => None,
                }
            } else {
                None
            }
        },
    }
}

/// The first two of the numerals between `keyword` and the next closing bracket,
/// as they are written.
pub fn parse_xy_field(block: &str, keyword: &str) -> (point: Option<(String, String)>)
    ensures
        point is Some == xy_numerals(block@, keyword@) is Some,
        point matches Some((x, y)) ==> xy_numerals(block@, keyword@) == Some((x@, y@)),
{
    let text = to_chars(block);
    let wanted = to_chars(keyword);
    match read_field_numerals(text.as_slice(), wanted.as_slice()) {
        None => None,
        Some(found) => {
            if found.len() >= 2 {
                proof {
                    assert(views(found@)[0] == found@[0]@);
                    assert(views(found@)[1] == found@[1]@);
                }
                Some((to_text(found[0].as_slice()), to_text(found[1].as_slice())))
            } else {
                None
            }
        },
    }
}

/// What stands between the first occurrence of `prefix` and the next quotation
/// mark.
pub fn parse_quoted_field(block: &str, prefix: &str) -> (value: Option<String>)
    ensures
        value is Some == quoted_after(block@, prefix@) is Some,
        value matches Some(v) ==> quoted_after(block@, prefix@) == Some(v@),
{
    let text = to_chars(block);
    let wanted = to_chars(prefix);
    match quoted(text.as_slice(), wanted.as_slice()) {
        None => None,
        Some(v) => Some(to_text(v.as_slice())),
    }
}

} // verus!
