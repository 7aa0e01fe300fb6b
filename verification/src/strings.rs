//! Whole texts: replacing, splitting into lines, joining, padding, ordering.

use crate::text::{extend, extend_str, find, find_from, has_at, matches_at, to_chars, to_text};
use vstd::prelude::*;
use vstd::slice::slice_subrange;

verus! {

/// The last position at or before `at` where `pattern` stands in `text`.
pub open spec fn find_last(text: Seq<char>, pattern: Seq<char>, at: int) -> Option<int>
    decreases at + 1,
{
    if at < 0 {
        None
    } else if matches_at(text, pattern, at) {
        Some(at)
    } else {
        find_last(text, pattern, at - 1)
    }
}

/// The last position where `pattern` stands in `text`.
pub open spec fn last_of(text: Seq<char>, pattern: Seq<char>) -> Option<int> {
    find_last(text, pattern, text.len() - pattern.len())
}

proof fn lemma_find_last_bounds(text: Seq<char>, pattern: Seq<char>, at: int)
    ensures
        find_last(text, pattern, at) matches Some(p) ==> 0 <= p <= at && matches_at(
            text,
            pattern,
            p,
        ),
    decreases at + 1,
{
    if at >= 0 && !matches_at(text, pattern, at) {
        lemma_find_last_bounds(text, pattern, at - 1);
    }
}

/// The last place of a pattern is a place where it stands.
pub proof fn lemma_last_of_bounds(text: Seq<char>, pattern: Seq<char>)
    ensures
        last_of(text, pattern) matches Some(p) ==> 0 <= p <= text.len() - pattern.len()
            && matches_at(text, pattern, p),
{
    lemma_find_last_bounds(text, pattern, text.len() - pattern.len());
}

/// The last position where `pattern` stands in `text`.
pub fn find_back_from_end(text: &[char], pattern: &[char]) -> (found: Option<usize>)
    ensures
        found is Some == last_of(text@, pattern@) is Some,
        found matches Some(p) ==> {
            &&& last_of(text@, pattern@) == Some(p as int)
            &&& p + pattern@.len() <= text.len()
        },
{
    if pattern.len() > text.len() {
        return None;
    }
    let mut at: usize = text.len() - pattern.len();
    loop
        invariant
            at + pattern.len() <= text.len(),
            last_of(text@, pattern@) == find_last(text@, pattern@, at as int),
        decreases at,
    {
        if has_at(text, pattern, at) {
            return Some(at);
        }
        if at == 0 {
            proof {
                assert(find_last(text@, pattern@, -1) is None);
            }
            return None;
        }
        at -= 1;
    }
}

/// How often `old` stands in `text` from `from` on, counting no character twice.
pub open spec fn occurrences(text: Seq<char>, old: Seq<char>, from: int) -> nat
    decreases text.len() - from,
    when old.len() > 0 && 0 <= from
    via occurrences_decreases
{
    match find(text, old, from) {
        None => 0,
        Some(at) => 1 + occurrences(text, old, at + old.len()),
    }
}

#[via_fn]
proof fn occurrences_decreases(text: Seq<char>, old: Seq<char>, from: int) {
    crate::text::lemma_find_is_first(text, old, from);
}

/// How often `old` stands in `text`. The empty text stands before, between and
/// after all characters.
pub open spec fn count_of(text: Seq<char>, old: Seq<char>) -> nat {
    if old.len() == 0 {
        text.len() + 1
    } else {
        occurrences(text, old, 0)
    }
}

/// The text from `from` on with `new` in the place of each `old`.
pub open spec fn replaced_from(
    text: Seq<char>,
    old: Seq<char>,
    new: Seq<char>,
    from: int,
) -> Seq<char>
    decreases text.len() - from,
    when old.len() > 0 && 0 <= from <= text.len()
    via replaced_decreases
{
    match find(text, old, from) {
        None => text.skip(from),
        Some(at) => text.subrange(from, at) + new + replaced_from(text, old, new, at + old.len()),
    }
}

#[via_fn]
proof fn replaced_decreases(text: Seq<char>, old: Seq<char>, new: Seq<char>, from: int) {
    crate::text::lemma_find_is_first(text, old, from);
}

/// The first `upto` characters, each with `new` in front of it.
pub open spec fn interleaved(text: Seq<char>, new: Seq<char>, upto: int) -> Seq<char>
    decreases upto,
{
    if upto <= 0 {
        Seq::empty()
    } else {
        interleaved(text, new, upto - 1) + new + seq![text[upto - 1]]
    }
}

/// The text with `new` in the place of each `old`.
pub open spec fn replaced(text: Seq<char>, old: Seq<char>, new: Seq<char>) -> Seq<char> {
    if old.len() == 0 {
        interleaved(text, new, text.len() as int) + new
    } else {
        replaced_from(text, old, new, 0)
    }
}

/// The text with `new` in the place of the first `old`.
pub open spec fn replaced_once(text: Seq<char>, old: Seq<char>, new: Seq<char>) -> Seq<char> {
    match find(text, old, 0) {
        None => text,
        Some(at) => text.take(at) + new + text.skip(at + old.len()),
    }
}

/// How often `old` stands in `text`, but no more than the greatest number there is.
pub fn count(text: &[char], old: &[char]) -> (n: usize)
    ensures
        n as nat == count_of(text@, old@) || (n == usize::MAX && count_of(text@, old@) > n),
{
    if old.len() == 0 {
        if text.len() == usize::MAX {
            return usize::MAX;
        }
        return text.len() + 1;
    }
    let mut n: usize = 0;
    let mut from: usize = 0;
    loop
        invariant
            old.len() > 0,
            n <= from <= text.len(),
            occurrences(text@, old@, 0) == n + occurrences(text@, old@, from as int),
        decreases text.len() - from,
    {
        match find_from(text, old, from) {
            None => {
                return n;
            },
            Some(at) => {
                n += 1;
                from = at + old.len();
            },
        }
    }
}

/// The text with `new` in the place of each `old`.
pub fn replace(text: &[char], old: &[char], new: &[char]) -> (out: Vec<char>)
    ensures
        out@ == replaced(text@, old@, new@),
{
    let mut out: Vec<char> = Vec::new();
    if old.len() == 0 {
        let mut i: usize = 0;
        while i < text.len()
            invariant
                i <= text.len(),
                out@ == interleaved(text@, new@, i as int),
            decreases text.len() - i,
        {
            extend(&mut out, new);
            out.push(text[i]);
            proof {
                assert(out@ =~= interleaved(text@, new@, i + 1));
            }
            i += 1;
        }
        extend(&mut out, new);
        return out;
    }
    let mut from: usize = 0;
    proof {
        assert(out@ + replaced_from(text@, old@, new@, 0) =~= replaced(text@, old@, new@));
    }
    loop
        invariant
            old.len() > 0,
            from <= text.len(),
            replaced(text@, old@, new@) == out@ + replaced_from(text@, old@, new@, from as int),
        decreases text.len() - from,
    {
        match find_from(text, old, from) {
            None => {
                let ghost done = out@;
                extend(&mut out, slice_subrange(text, from, text.len()));
                proof {
                    assert(out@ =~= done + text@.skip(from as int));
                }
                return out;
            },
            Some(at) => {
                let ghost done = out@;
                extend(&mut out, slice_subrange(text, from, at));
                extend(&mut out, new);
                proof {
                    let rest = replaced_from(text@, old@, new@, at + old@.len());
                    assert(done + (text@.subrange(from as int, at as int) + new@ + rest) =~= out@
                        + rest);
                }
                from = at + old.len();
            },
        }
    }
}

/// The text with `new` in the place of the first `old`.
pub fn replace_once(text: &[char], old: &[char], new: &[char]) -> (out: Vec<char>)
    ensures
        out@ == replaced_once(text@, old@, new@),
{
    match find_from(text, old, 0) {
        None => {
            let mut out: Vec<char> = Vec::new();
            extend(&mut out, text);
            proof {
                assert(out@ =~= text@);
            }
            out
        },
        Some(at) => {
            let out = crate::text::splice(text, at, at + old.len(), new);
            out
        },
    }
}

/// A line without the carriage return at its end.
pub open spec fn without_return(line: Seq<char>) -> Seq<char> {
    if line.len() > 0 && line.last() == '\r' {
        line.drop_last()
    } else {
        line
    }
}

/// The lines of `text` from `from` on, without their line breaks. A carriage
/// return before a line break belongs to the line break.
pub open spec fn lines_from(text: Seq<char>, from: int) -> Seq<Seq<char>>
    decreases text.len() - from,
    when 0 <= from
    via lines_decreases
{
    if from >= text.len() {
        Seq::empty()
    } else {
        match find(text, seq!['\n'], from) {
            None => seq![text.skip(from)],
            Some(at) => seq![without_return(text.subrange(from, at))] + lines_from(text, at + 1),
        }
    }
}

#[via_fn]
proof fn lines_decreases(text: Seq<char>, from: int) {
    crate::text::lemma_find_is_first(text, seq!['\n'], from);
}

/// The lines of a text.
pub open spec fn lines_of(text: Seq<char>) -> Seq<Seq<char>> {
    lines_from(text, 0)
}

/// The texts of a list.
pub open spec fn texts(list: Seq<Vec<char>>) -> Seq<Seq<char>> {
    list.map_values(|t: Vec<char>| t@)
}

/// The texts of a list.
pub open spec fn strings(list: Seq<String>) -> Seq<Seq<char>> {
    list.map_values(|t: String| t@)
}

/// The lines of a text.
pub fn lines(text: &[char]) -> (out: Vec<Vec<char>>)
    ensures
        texts(out@) == lines_of(text@),
{
    let mut out: Vec<Vec<char>> = Vec::new();
    let mut from: usize = 0;
    let mark: Vec<char> = vec!['\n'];
    proof {
        assert(mark@ =~= seq!['\n']);
        assert(texts(out@) + lines_from(text@, 0) =~= lines_of(text@));
    }
    while from < text.len()
        invariant
            from <= text.len(),
            mark@ == seq!['\n'],
            lines_of(text@) == texts(out@) + lines_from(text@, from as int),
        decreases text.len() - from,
    {
        let ghost done = texts(out@);
        let mut line: Vec<char> = Vec::new();
        match find_from(text, mark.as_slice(), from) {
            None => {
                extend(&mut line, slice_subrange(text, from, text.len()));
                proof {
                    assert(line@ =~= text@.skip(from as int));
                    assert(texts(out@.push(line)) =~= done + seq![line@]);
                }
                out.push(line);
                return out;
            },
            Some(at) => {
                let mut end: usize = at;
                if end > from && text[end - 1] == '\r' {
                    end -= 1;
                }
                extend(&mut line, slice_subrange(text, from, end));
                proof {
                    let whole = text@.subrange(from as int, at as int);
                    if end < at {
                        assert(whole.last() == '\r');
                        assert(line@ =~= whole.drop_last());
                    } else {
                        assert(line@ =~= whole);
                        if whole.len() > 0 {
                            assert(whole.last() == text@[at - 1]);
                        }
                    }
                    assert(line@ == without_return(whole));
                    assert(done + (seq![line@] + lines_from(text@, at + 1)) =~= texts(
                        out@.push(line),
                    ) + lines_from(text@, at + 1));
                }
                out.push(line);
                from = at + 1;
            },
        }
    }
    proof {
        assert(texts(out@) + Seq::<Seq<char>>::empty() =~= texts(out@));
    }
    out
}

/// The parts one after another, with `gap` between each two.
pub open spec fn joined(parts: Seq<Seq<char>>, gap: Seq<char>) -> Seq<char>
    decreases parts.len(),
{
    if parts.len() == 0 {
        Seq::empty()
    } else if parts.len() == 1 {
        parts[0]
    } else {
        joined(parts.drop_last(), gap) + gap + parts.last()
    }
}

/// The parts one after another, with `gap` between each two.
pub fn join(parts: &Vec<String>, gap: &str) -> (out: String)
    ensures
        out@ == joined(strings(parts@), gap@),
{
    let mut out: Vec<char> = Vec::new();
    let mut i: usize = 0;
    proof {
        assert(strings(parts@).take(0).len() == 0);
    }
    while i < parts.len()
        invariant
            i <= parts.len(),
            out@ == joined(strings(parts@).take(i as int), gap@),
        decreases parts.len() - i,
    {
        proof {
            let next = strings(parts@).take(i + 1);
            assert(next.drop_last() =~= strings(parts@).take(i as int));
            assert(next.last() == parts@[i as int]@);
            if i == 0 {
                assert(next[0] == parts@[0]@);
                assert(out@ + parts@[0]@ =~= parts@[0]@);
            }
        }
        if i > 0 {
            extend_str(&mut out, gap);
        }
        extend_str(&mut out, parts[i].as_str());
        i += 1;
    }
    proof {
        assert(strings(parts@).take(parts@.len() as int) =~= strings(parts@));
    }
    to_text(out.as_slice())
}

/// The decimal digit of a number below ten.
pub open spec fn digit(d: nat) -> char {
    (48 + d) as char
}

/// A number in decimal digits.
pub open spec fn decimal(n: nat) -> Seq<char>
    decreases n,
{
    if n < 10 {
        seq![digit(n)]
    } else {
        decimal(n / 10).push(digit(n % 10))
    }
}

/// A number in decimal digits.
pub fn number(n: usize) -> (out: Vec<char>)
    ensures
        out@ == decimal(n as nat),
    decreases n,
{
    let d: u8 = 48 + (n % 10) as u8;
    if n < 10 {
        let out: Vec<char> = vec![d as char];
        proof {
            assert(out@ =~= seq![digit(n as nat)]);
        }
        out
    } else {
        let mut out = number(n / 10);
        out.push(d as char);
        out
    }
}

/// As many spaces.
pub open spec fn spaces(n: int) -> Seq<char> {
    Seq::new(
        if n > 0 {
            n as nat
        } else {
            0
        },
        |i: int| ' ',
    )
}

/// The text with spaces in front, `width` characters wide at least.
pub open spec fn right(text: Seq<char>, width: int) -> Seq<char> {
    spaces(width - text.len()) + text
}

/// The text with spaces behind, `width` characters wide at least.
pub open spec fn left(text: Seq<char>, width: int) -> Seq<char> {
    text + spaces(width - text.len())
}

/// Appends as many of the character `c`.
pub fn extend_repeat(out: &mut Vec<char>, c: char, n: usize)
    ensures
        final(out)@ == old(out)@ + Seq::new(n as nat, |i: int| c),
{
    let mut i: usize = 0;
    proof {
        assert(out@ =~= old(out)@ + Seq::new(0, |i: int| c));
    }
    while i < n
        invariant
            i <= n,
            out@ == old(out)@ + Seq::new(i as nat, |i: int| c),
        decreases n - i,
    {
        out.push(c);
        proof {
            assert(out@ =~= old(out)@ + Seq::new((i + 1) as nat, |i: int| c));
        }
        i += 1;
    }
}

/// Appends the text with spaces in front, `width` characters wide at least.
pub fn extend_right(out: &mut Vec<char>, text: &[char], width: usize)
    ensures
        final(out)@ == old(out)@ + right(text@, width as int),
{
    if width > text.len() {
        extend_repeat(out, ' ', width - text.len());
    }
    extend(out, text);
    proof {
        assert(out@ =~= old(out)@ + right(text@, width as int));
    }
}

/// Appends the text with spaces behind, `width` characters wide at least.
pub fn extend_left(out: &mut Vec<char>, text: &[char], width: usize)
    ensures
        final(out)@ == old(out)@ + left(text@, width as int),
{
    extend(out, text);
    if width > text.len() {
        extend_repeat(out, ' ', width - text.len());
    }
    proof {
        assert(out@ =~= old(out)@ + left(text@, width as int));
    }
}

/// Whether `a` comes before `b` in a dictionary that orders characters by their
/// code.
pub open spec fn before(a: Seq<char>, b: Seq<char>) -> bool
    decreases a.len(),
{
    if b.len() == 0 {
        false
    } else if a.len() == 0 {
        true
    } else if a[0] == b[0] {
        before(a.drop_first(), b.drop_first())
    } else {
        a[0] < b[0]
    }
}

/// Whether `a` comes before `b` in a dictionary that orders characters by their
/// code.
pub fn comes_before(a: &[char], b: &[char]) -> (yes: bool)
    ensures
        yes == before(a@, b@),
{
    let mut i: usize = 0;
    proof {
        assert(a@.skip(0) =~= a@);
        assert(b@.skip(0) =~= b@);
    }
    loop
        invariant
            i <= a.len(),
            i <= b.len(),
            before(a@, b@) == before(a@.skip(i as int), b@.skip(i as int)),
        decreases a.len() - i,
    {
        if i == b.len() {
            return false;
        }
        if i == a.len() {
            return true;
        }
        if a[i] != b[i] {
            return a[i] < b[i];
        }
        proof {
            assert(a@.skip(i as int).drop_first() =~= a@.skip(i + 1));
            assert(b@.skip(i as int).drop_first() =~= b@.skip(i + 1));
        }
        i += 1;
    }
}

/// The list with `text` put behind every text that does not come after it.
pub open spec fn insert_sorted(list: Seq<Seq<char>>, text: Seq<char>) -> Seq<Seq<char>>
    decreases list.len(),
{
    if list.len() == 0 || !before(text, list.last()) {
        list.push(text)
    } else {
        insert_sorted(list.drop_last(), text).push(list.last())
    }
}

/// The texts in dictionary order.
pub open spec fn sorted(list: Seq<Seq<char>>) -> Seq<Seq<char>>
    decreases list.len(),
{
    if list.len() == 0 {
        list
    } else {
        insert_sorted(sorted(list.drop_last()), list.last())
    }
}

proof fn lemma_insert_sorted_at(list: Seq<Seq<char>>, text: Seq<char>, k: int)
    requires
        0 <= k <= list.len(),
        k > 0 ==> !before(text, list[k - 1]),
        forall|j: int| k <= j < list.len() ==> before(text, #[trigger] list[j]),
    ensures
        insert_sorted(list, text) == list.insert(k, text),
    decreases list.len(),
{
    if k == list.len() {
        assert(list.insert(k, text) =~= list.push(text));
        if list.len() > 0 {
            assert(list.last() == list[k - 1]);
        }
    } else {
        assert(before(text, list[list.len() - 1]));
        lemma_insert_sorted_at(list.drop_last(), text, k);
        assert(list.drop_last().insert(k, text).push(list.last()) =~= list.insert(k, text));
    }
}

/// Puts a text into a list in dictionary order, where it belongs.
pub fn put_sorted(list: &mut Vec<String>, text: String)
    ensures
        strings(final(list)@) == insert_sorted(strings(old(list)@), text@),
{
    let chars = to_chars(text.as_str());
    let mut k: usize = list.len();
    while k > 0
        invariant
            k <= list.len(),
            list@ == old(list)@,
            chars@ == text@,
            forall|j: int| k <= j < list@.len() ==> before(text@, #[trigger] list@[j]@),
        ensures
            k <= list.len(),
            k > 0 ==> !before(text@, list@[k - 1]@),
        decreases k,
    {
        let other = to_chars(list[k - 1].as_str());
        if !comes_before(chars.as_slice(), other.as_slice()) {
            break;
        }
        k -= 1;
    }
    proof {
        let all = strings(list@);
        assert forall|j: int| k <= j < all.len() implies before(text@, #[trigger] all[j]) by {
            assert(before(text@, list@[j]@));
        }
        if k > 0 {
            assert(all[k - 1] == list@[k - 1]@);
        }
        lemma_insert_sorted_at(all, text@, k as int);
        assert(strings(list@.insert(k as int, text)) =~= all.insert(k as int, text@));
    }
    list.insert(k, text);
}

/// The texts in dictionary order.
pub fn sort(list: &Vec<String>) -> (out: Vec<String>)
    ensures
        strings(out@) == sorted(strings(list@)),
{
    let mut out: Vec<String> = Vec::new();
    let mut i: usize = 0;
    proof {
        assert(strings(list@).take(0) =~= Seq::<Seq<char>>::empty());
        assert(strings(out@) =~= Seq::<Seq<char>>::empty());
    }
    while i < list.len()
        invariant
            i <= list.len(),
            strings(out@) == sorted(strings(list@).take(i as int)),
        decreases list.len() - i,
    {
        proof {
            let next = strings(list@).take(i + 1);
            assert(next.drop_last() =~= strings(list@).take(i as int));
            assert(next.last() == list@[i as int]@);
        }
        put_sorted(&mut out, list[i].clone());
        i += 1;
    }
    proof {
        assert(strings(list@).take(list@.len() as int) =~= strings(list@));
    }
    out
}

/// Whether a text starts with another.
pub open spec fn starts_with(text: Seq<char>, start: Seq<char>) -> bool {
    matches_at(text, start, 0)
}

/// Whether a text ends with another.
pub open spec fn ends_with(text: Seq<char>, end: Seq<char>) -> bool {
    matches_at(text, end, text.len() - end.len())
}

/// Of two different texts, one comes before the other, and never both.
pub proof fn lemma_before_total(a: Seq<char>, b: Seq<char>)
    ensures
        a == b || before(a, b) || before(b, a),
        !(before(a, b) && before(b, a)),
        a == b ==> !before(a, b),
    decreases a.len(),
{
    if a.len() > 0 && b.len() > 0 {
        lemma_before_total(a.drop_first(), b.drop_first());
        if a[0] == b[0] && a.drop_first() == b.drop_first() {
            assert(a =~= seq![a[0]] + a.drop_first());
            assert(b =~= seq![b[0]] + b.drop_first());
        }
    } else if a.len() == 0 && b.len() == 0 {
        assert(a =~= b);
    }
}

/// What comes before something comes before all that follows it.
pub proof fn lemma_before_transitive(a: Seq<char>, b: Seq<char>, c: Seq<char>)
    requires
        before(a, b),
        before(b, c),
    ensures
        before(a, c),
    decreases a.len(),
{
    if a.len() > 0 && a[0] == b[0] && b[0] == c[0] {
        lemma_before_transitive(a.drop_first(), b.drop_first(), c.drop_first());
    }
}

/// Whether no text of the list comes before one that stands in front of it.
pub open spec fn ordered(list: Seq<Seq<char>>) -> bool {
    forall|i: int, j: int|
        0 <= i < j < list.len() ==> !before(#[trigger] list[j], #[trigger] list[i])
}

proof fn lemma_insert_sorted_keeps(list: Seq<Seq<char>>, text: Seq<char>)
    requires
        ordered(list),
    ensures
        ordered(insert_sorted(list, text)),
        insert_sorted(list, text).to_multiset() == list.to_multiset().insert(text),
        insert_sorted(list, text).len() == list.len() + 1,
    decreases list.len(),
{
    broadcast use vstd::seq_lib::group_to_multiset_ensures;

    let out = insert_sorted(list, text);
    if list.len() == 0 {
    } else if !before(text, list.last()) {
        assert forall|i: int, j: int| 0 <= i < j < out.len() implies !before(
            #[trigger] out[j],
            #[trigger] out[i],
        ) by {
            if j == list.len() {
                let last = list[list.len() - 1];
                assert(!before(last, list[i]) || i == list.len() - 1);
                lemma_before_total(text, last);
                lemma_before_total(last, list[i]);
                lemma_before_total(text, list[i]);
                if before(text, list[i]) {
                    if last != list[i] {
                        lemma_before_transitive(text, list[i], last);
                    }
                }
            } else {
                assert(out[i] == list[i]);
                assert(out[j] == list[j]);
            }
        }
    } else {
        let front = list.drop_last();
        assert forall|i: int, j: int| 0 <= i < j < front.len() implies !before(
            #[trigger] front[j],
            #[trigger] front[i],
        ) by {
            assert(front[i] == list[i]);
            assert(front[j] == list[j]);
        }
        lemma_insert_sorted_keeps(front, text);
        let mid = insert_sorted(front, text);
        let last = list[list.len() - 1];
        assert(front.push(last) =~= list);
        assert forall|i: int, j: int| 0 <= i < j < out.len() implies !before(
            #[trigger] out[j],
            #[trigger] out[i],
        ) by {
            if j < mid.len() {
                assert(out[i] == mid[i]);
                assert(out[j] == mid[j]);
            } else {
                assert(mid.to_multiset().contains(mid[i])) by {
                    assert(mid.contains(mid[i]));
                }
                lemma_before_total(last, mid[i]);
                lemma_before_total(text, last);
                if mid[i] != text {
                    assert(front.to_multiset().contains(mid[i]));
                    assert(front.contains(mid[i]));
                    let k = choose|k: int| 0 <= k < front.len() && front[k] == mid[i];
                    assert(list[k] == mid[i]);
                }
            }
        }
    }
}

/// Sorting keeps every text as often as it stands in the list, and puts them in
/// dictionary order.
pub proof fn lemma_sorted(list: Seq<Seq<char>>)
    ensures
        ordered(sorted(list)),
        sorted(list).to_multiset() == list.to_multiset(),
        sorted(list).len() == list.len(),
    decreases list.len(),
{
    broadcast use vstd::seq_lib::group_to_multiset_ensures;

    if list.len() > 0 {
        lemma_sorted(list.drop_last());
        lemma_insert_sorted_keeps(sorted(list.drop_last()), list.last());
        assert(list.drop_last().push(list.last()) =~= list);
    }
}

} // verus!
