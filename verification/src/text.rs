//! Sequences of characters: searching, cutting, joining and counting.

use vstd::prelude::*;
use vstd::slice::slice_subrange;
use vstd::utf8::{encode_scalar, encode_utf8};

verus! {

/// `String::push` appends one character at the end.
pub assume_specification[ String::push ](text: &mut String, c: char)
    ensures
        final(text)@ == old(text)@.push(c),
;

/// Whether `pattern` stands in `text` at position `at`.
pub open spec fn matches_at(text: Seq<char>, pattern: Seq<char>, at: int) -> bool {
    &&& 0 <= at
    &&& at + pattern.len() <= text.len()
    &&& text.subrange(at, at + pattern.len()) == pattern
}

/// The first position at or after `from` where `pattern` stands in `text`.
pub open spec fn find(text: Seq<char>, pattern: Seq<char>, from: int) -> Option<int>
    decreases text.len() + 1 - from,
{
    if from < 0 || from + pattern.len() > text.len() {
        None
    } else if matches_at(text, pattern, from) {
        Some(from)
    } else {
        find(text, pattern, from + 1)
    }
}

/// Whether `pattern` stands anywhere in `text`.
pub open spec fn contains(text: Seq<char>, pattern: Seq<char>) -> bool {
    find(text, pattern, 0) is Some
}

/// The last position before `before` where the character `c` stands in `text`.
pub open spec fn find_back(text: Seq<char>, c: char, before: int) -> Option<int>
    decreases before,
{
    if before <= 0 || before > text.len() {
        None
    } else if text[before - 1] == c {
        Some(before - 1)
    } else {
        find_back(text, c, before - 1)
    }
}

/// The first position of the line that holds position `at`.
pub open spec fn line_start(text: Seq<char>, at: int) -> int {
    match find_back(text, '\n', at) {
        Some(p) => p + 1,
        None => 0,
    }
}

/// `find` gives the least position at which the pattern stands, and gives none
/// exactly when the pattern stands nowhere at or after `from`.
pub proof fn lemma_find_is_first(text: Seq<char>, pattern: Seq<char>, from: int)
    requires
        0 <= from,
    ensures
        match find(text, pattern, from) {
            Some(p) => {
                &&& from <= p
                &&& matches_at(text, pattern, p)
                &&& forall|q: int| from <= q < p ==> !matches_at(text, pattern, q)
            },
            None => forall|q: int| from <= q ==> !matches_at(text, pattern, q),
        },
    decreases text.len() + 1 - from,
{
    if from + pattern.len() > text.len() {
    } else if matches_at(text, pattern, from) {
    } else {
        lemma_find_is_first(text, pattern, from + 1);
    }
}

/// A search finds a place where the pattern stands if it stands nowhere before.
pub proof fn lemma_find_at(text: Seq<char>, pattern: Seq<char>, from: int, p: int)
    requires
        0 <= from <= p,
        matches_at(text, pattern, p),
        forall|q: int| from <= q < p ==> !matches_at(text, pattern, q),
    ensures
        find(text, pattern, from) == Some(p),
{
    lemma_find_is_first(text, pattern, from);
    if let Some(r) = find(text, pattern, from) {
        assert(matches_at(text, pattern, r));
    }
}

/// A search finds the same place in a text that goes on in the same way until the
/// pattern has ended.
pub proof fn lemma_find_in_start(text: Seq<char>, other: Seq<char>, pattern: Seq<char>, p: int)
    requires
        find(text, pattern, 0) == Some(p),
        p + pattern.len() <= other.len(),
        other.take(p + pattern.len()) == text.take(p + pattern.len()),
    ensures
        find(other, pattern, 0) == Some(p),
{
    lemma_find_is_first(text, pattern, 0);
    let n = p + pattern.len();
    assert forall|q: int| 0 <= q <= p implies matches_at(other, pattern, q) == matches_at(
        text,
        pattern,
        q,
    ) by {
        assert forall|k: int| q <= k < q + pattern.len() implies other[k] == text[k] by {
            assert(other.take(n)[k] == text.take(n)[k]);
        }
        assert(other.subrange(q, q + pattern.len()) =~= text.subrange(q, q + pattern.len()));
    }
    lemma_find_at(other, pattern, 0, p);
}

/// Where a search can start later without changing its answer.
pub proof fn lemma_find_skip(text: Seq<char>, pattern: Seq<char>, from: int, to: int)
    requires
        0 <= from <= to,
        forall|q: int| from <= q < to ==> !matches_at(text, pattern, q),
    ensures
        find(text, pattern, from) == find(text, pattern, to),
    decreases to - from,
{
    if from < to {
        if from + pattern.len() <= text.len() {
            assert(!matches_at(text, pattern, from));
            lemma_find_skip(text, pattern, from + 1, to);
        }
    }
}

/// `find_back` gives the last position before `before` that holds `c`.
pub proof fn lemma_find_back_is_last(text: Seq<char>, c: char, before: int)
    requires
        0 <= before <= text.len(),
    ensures
        match find_back(text, c, before) {
            Some(p) => {
                &&& 0 <= p < before
                &&& text[p] == c
                &&& forall|q: int| p < q < before ==> text[q] != c
            },
            None => forall|q: int| 0 <= q < before ==> text[q] != c,
        },
    decreases before,
{
    if before > 0 && text[before - 1] != c {
        lemma_find_back_is_last(text, c, before - 1);
    }
}

/// The characters of a text.
pub fn to_chars(text: &str) -> (chars: Vec<char>)
    ensures
        chars@ == text@,
{
    let mut chars: Vec<char> = Vec::new();
    for c in it: text.chars()
        invariant
            it.seq() == text@,
            chars@ == text@.take(it.index() as int),
    {
        proof {
            assert(text@.take(it.index() as int).push(c) =~= text@.take(it.index() + 1));
        }
        chars.push(c);
    }
    proof {
        assert(text@.take(text@.len() as int) =~= text@);
    }
    chars
}

/// The text that holds the given characters.
pub fn to_text(chars: &[char]) -> (text: String)
    ensures
        text@ == chars@,
{
    let mut text = String::new();
    let mut i: usize = 0;
    while i < chars.len()
        invariant
            i <= chars.len(),
            text@ == chars@.take(i as int),
        decreases chars.len() - i,
    {
        text.push(chars[i]);
        proof {
            assert(chars@.take(i as int).push(chars@[i as int]) =~= chars@.take(i + 1));
        }
        i += 1;
    }
    proof {
        assert(chars@.take(chars@.len() as int) =~= chars@);
    }
    text
}

/// Whether `pattern` stands in `text` at position `at`.
pub fn has_at(text: &[char], pattern: &[char], at: usize) -> (found: bool)
    ensures
        found == matches_at(text@, pattern@, at as int),
{
    if at > text.len() || pattern.len() > text.len() - at {
        return false;
    }
    let mut i: usize = 0;
    while i < pattern.len()
        invariant
            i <= pattern.len(),
            at + pattern.len() <= text.len(),
            forall|j: int| 0 <= j < i ==> text@[at + j] == pattern@[j],
        decreases pattern.len() - i,
    {
        if text[at + i] != pattern[i] {
            proof {
                let cut = text@.subrange(at as int, at + pattern@.len());
                assert(cut[i as int] == text@[at + i]);
            }
            return false;
        }
        i += 1;
    }
    proof {
        assert(text@.subrange(at as int, at + pattern@.len()) =~= pattern@);
    }
    true
}

/// The first position at or after `from` where `pattern` stands in `text`.
pub fn find_from(text: &[char], pattern: &[char], from: usize) -> (found: Option<usize>)
    ensures
        found is Some == find(text@, pattern@, from as int) is Some,
        found matches Some(p) ==> {
            &&& find(text@, pattern@, from as int) == Some(p as int)
            &&& from <= p
            &&& p + pattern@.len() <= text.len()
            &&& matches_at(text@, pattern@, p as int)
        },
{
    if from > text.len() || pattern.len() > text.len() - from {
        return None;
    }
    let last: usize = text.len() - pattern.len();
    let mut i: usize = from;
    while i <= last
        invariant
            from <= i,
            last + pattern.len() == text.len(),
            i <= last + 1,
            find(text@, pattern@, from as int) == find(text@, pattern@, i as int),
        decreases last + 1 - i,
    {
        if has_at(text, pattern, i) {
            return Some(i);
        }
        if i == last {
            proof {
                assert(find(text@, pattern@, i + 1) is None);
            }
            return None;
        }
        i += 1;
    }
    None
}

/// Whether `pattern` stands anywhere in `text`.
pub fn holds(text: &[char], pattern: &[char]) -> (found: bool)
    ensures
        found == contains(text@, pattern@),
{
    find_from(text, pattern, 0).is_some()
}

/// Whether the literal `pattern` stands anywhere in `text`.
pub fn has_str(text: &[char], pattern: &str) -> (found: bool)
    ensures
        found == contains(text@, pattern@),
{
    let chars = to_chars(pattern);
    holds(text, chars.as_slice())
}

/// The first position of the line that holds position `at`.
pub fn start_of_line(text: &[char], at: usize) -> (start: usize)
    requires
        at <= text@.len(),
    ensures
        start == line_start(text@, at as int),
        start <= at,
{
    let mut i: usize = at;
    while i > 0
        invariant
            i <= at <= text@.len(),
            find_back(text@, '\n', at as int) == find_back(text@, '\n', i as int),
        decreases i,
    {
        if text[i - 1] == '\n' {
            return i;
        }
        i -= 1;
    }
    0
}

/// Whether two runs of characters are the same.
pub fn same(a: &[char], b: &[char]) -> (equal: bool)
    ensures
        equal == (a@ == b@),
{
    if a.len() != b.len() {
        return false;
    }
    let mut i: usize = 0;
    while i < a.len()
        invariant
            i <= a.len(),
            a.len() == b.len(),
            forall|j: int| 0 <= j < i ==> a@[j] == b@[j],
        decreases a.len() - i,
    {
        if a[i] != b[i] {
            return false;
        }
        i += 1;
    }
    proof {
        assert(a@ =~= b@);
    }
    true
}

/// Whether two texts are the same.
pub fn same_str(a: &str, b: &str) -> (equal: bool)
    ensures
        equal == (a@ == b@),
{
    let left = to_chars(a);
    let right = to_chars(b);
    same(left.as_slice(), right.as_slice())
}

/// Appends every character of `more` to `out`.
pub fn extend(out: &mut Vec<char>, more: &[char])
    ensures
        final(out)@ == old(out)@ + more@,
{
    let mut i: usize = 0;
    while i < more.len()
        invariant
            i <= more.len(),
            out@ == old(out)@ + more@.take(i as int),
        decreases more.len() - i,
    {
        out.push(more[i]);
        proof {
            assert(more@.take(i + 1) =~= more@.take(i as int).push(more@[i as int]));
        }
        i += 1;
    }
    proof {
        assert(more@.take(more@.len() as int) =~= more@);
    }
}

/// Appends the characters of `more` to `out`.
pub fn extend_str(out: &mut Vec<char>, more: &str)
    ensures
        final(out)@ == old(out)@ + more@,
{
    let chars = to_chars(more);
    extend(out, chars.as_slice());
}

/// The text with the characters from `start` up to `end` replaced by `middle`.
pub open spec fn spliced(text: Seq<char>, start: int, end: int, middle: Seq<char>) -> Seq<char> {
    text.take(start) + middle + text.skip(end)
}

/// The text with the characters from `start` up to `end` replaced by `middle`.
pub fn splice(text: &[char], start: usize, end: usize, middle: &[char]) -> (out: Vec<char>)
    requires
        start <= end <= text@.len(),
    ensures
        out@ == spliced(text@, start as int, end as int, middle@),
{
    let mut out: Vec<char> = Vec::new();
    extend(&mut out, slice_subrange(text, 0, start));
    extend(&mut out, middle);
    extend(&mut out, slice_subrange(text, end, text.len()));
    proof {
        assert(out@ =~= spliced(text@, start as int, end as int, middle@));
    }
    out
}

/// How many bytes the first `at` characters of a text take.
pub open spec fn byte_position(text: Seq<char>, at: int) -> nat {
    encode_utf8(text.take(at)).len()
}

proof fn lemma_encode_push(text: Seq<char>, c: char)
    ensures
        encode_utf8(text.push(c)) == encode_utf8(text) + encode_scalar(c as u32),
    decreases text.len(),
{
    if text.len() == 0 {
        reveal_with_fuel(encode_utf8, 2);
        assert(text.push(c).drop_first() =~= Seq::<char>::empty());
        assert(encode_utf8(text.push(c)) =~= encode_scalar(c as u32));
        assert(encode_utf8(text) + encode_scalar(c as u32) =~= encode_scalar(c as u32));
    } else {
        assert(text.push(c).drop_first() =~= text.drop_first().push(c));
        lemma_encode_push(text.drop_first(), c);
        assert(encode_utf8(text.push(c)) =~= encode_utf8(text) + encode_scalar(c as u32));
    }
}

/// A longer beginning of a text never takes fewer bytes.
pub proof fn lemma_byte_position_grows(text: Seq<char>, a: int, b: int)
    requires
        0 <= a <= b <= text.len(),
    ensures
        byte_position(text, a) + (b - a) <= byte_position(text, b),
        byte_position(text, 0) == 0,
        byte_position(text, text.len() as int) == encode_utf8(text).len(),
    decreases b - a,
{
    assert(text.take(text.len() as int) =~= text);
    assert(text.take(0).len() == 0);
    if a < b {
        lemma_byte_position_grows(text, a, b - 1);
        assert(text.take(b) =~= text.take(b - 1).push(text[b - 1]));
        lemma_encode_push(text.take(b - 1), text[b - 1]);
    }
}

/// How many bytes the first `at` characters of a text take.
pub fn byte_offset(text: &[char], at: usize) -> (bytes: usize)
    requires
        at <= text@.len(),
        encode_utf8(text@).len() <= usize::MAX,
    ensures
        bytes == byte_position(text@, at as int),
{
    let mut bytes: usize = 0;
    let mut i: usize = 0;
    proof {
        lemma_byte_position_grows(text@, 0, 0);
    }
    while i < at
        invariant
            i <= at <= text@.len(),
            encode_utf8(text@).len() <= usize::MAX,
            bytes == byte_position(text@, i as int),
        decreases at - i,
    {
        let code: u32 = text[i] as u32;
        proof {
            assert(text@.take(i + 1) =~= text@.take(i as int).push(text@[i as int]));
            lemma_encode_push(text@.take(i as int), text@[i as int]);
            vstd::utf8::char_is_scalar(text@[i as int]);
            lemma_byte_position_grows(text@, i + 1, text@.len() as int);
        }
        if code < 0x80 {
            bytes += 1;
        } else if code < 0x800 {
            bytes += 2;
        } else if code < 0x10000 {
            bytes += 3;
        } else {
            bytes += 4;
        }
        i += 1;
    }
    bytes
}

} // verus!
