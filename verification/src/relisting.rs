//! The pins that a rebuilt symbol lists are those that are read from it.

use crate::pins::{instance_pins, instance_pins_from, tabbed_pins_from};
use crate::replace::{
    last_three_bytes, pin_lines, pinless, rebuilt, tabbed_lines, with_lib_id, with_pins,
};
use crate::schematic::with_property;
use crate::sexpr::{close_from, end_of_block, lemma_close_bounds, quoted_after};
use crate::strings::{last_of, lemma_last_of_bounds};
use crate::text::{find, lemma_find_at, lemma_find_is_first, lemma_find_skip, matches_at};
use vstd::prelude::*;

verus! {

/// Whether a text stands in one line of a file as it is: it holds no quotation mark and
/// no line break.
pub open spec fn is_plain(text: Seq<char>) -> bool {
    forall|i: int| 0 <= i < text.len() ==> #[trigger] text[i] != '"' && text[i] != '\n'
}

/// Whether a text holds no backslash.
pub open spec fn is_unescaped(text: Seq<char>) -> bool {
    forall|i: int| 0 <= i < text.len() ==> #[trigger] text[i] != '\\'
}

/// Whether the number and identifier of a pin stand in a file as they are, and the
/// number does not end like the start of an identifier.
pub open spec fn is_plain_pin(p: (Seq<char>, Seq<char>)) -> bool {
    &&& is_plain(p.0)
    &&& is_plain(p.1)
    &&& !(p.0.len() >= 6 && p.0.skip(p.0.len() - 6) == "(uuid "@)
}

pub open spec fn all_plain_pins(pins: Seq<(Seq<char>, Seq<char>)>) -> bool {
    forall|i: int| 0 <= i < pins.len() ==> is_plain_pin(#[trigger] pins[i])
}

/// Whether neither the numbers nor the identifiers of pins hold a backslash.
pub open spec fn all_unescaped_pins(pins: Seq<(Seq<char>, Seq<char>)>) -> bool {
    forall|i: int|
        0 <= i < pins.len() ==> is_unescaped((#[trigger] pins[i]).0) && is_unescaped(pins[i].1)
}

/// A pin as it stands in a file.
spec fn body(p: (Seq<char>, Seq<char>)) -> Seq<char> {
    "(pin \""@ + p.0 + "\" (uuid \""@ + p.1 + "\"))"@
}

/// Pins as they stand in a file, each behind a line break and an indent.
spec fn listing(gap: Seq<char>, pins: Seq<(Seq<char>, Seq<char>)>) -> Seq<char>
    decreases pins.len(),
{
    if pins.len() == 0 {
        Seq::empty()
    } else {
        listing(gap, pins.drop_last()) + (gap + body(pins.last()))
    }
}

/// Whether a text is a line break and an indent.
spec fn is_gap(gap: Seq<char>) -> bool {
    &&& gap.len() > 0
    &&& gap[0] == '\n'
    &&& forall|i: int| 1 <= i < gap.len() ==> (#[trigger] gap[i] == ' ' || gap[i] == '\t')
}

proof fn lemma_body_chars(p: (Seq<char>, Seq<char>))
    requires
        is_plain_pin(p),
    ensures
        ({
            let n = p.0.len() as int;
            let u = p.1.len() as int;
            &&& body(p).len() == n + u + 18
            &&& body(p).take(6) == "(pin \""@
            &&& body(p).subrange(6, 6 + n) == p.0
            &&& body(p).subrange(6 + n, 15 + n) == "\" (uuid \""@
            &&& body(p).subrange(15 + n, 15 + n + u) == p.1
            &&& body(p).skip(15 + n + u) == "\"))"@
        }),
        forall|i: int| 0 <= i < body(p).len() ==> #[trigger] body(p)[i] != '\n',
{
    reveal_strlit("(pin \"");
    reveal_strlit("\" (uuid \"");
    reveal_strlit("\"))");
    let b = body(p);
    let n = p.0.len() as int;
    let u = p.1.len() as int;
    assert(b.take(6) =~= "(pin \""@);
    assert(b.subrange(6, 6 + n) =~= p.0);
    assert(b.subrange(6 + n, 15 + n) =~= "\" (uuid \""@);
    assert(b.subrange(15 + n, 15 + n + u) =~= p.1);
    assert(b.skip(15 + n + u) =~= "\"))"@);
    assert forall|i: int| 0 <= i < b.len() implies #[trigger] b[i] != '\n' by {
        if i < 6 {
            assert(b[i] == b.take(6)[i]);
        } else if i < 6 + n {
            assert(b[i] == p.0[i - 6]);
        } else if i < 15 + n {
            assert(b[i] == "\" (uuid \""@[i - 6 - n]);
        } else if i < 15 + n + u {
            assert(b[i] == p.1[i - 15 - n]);
        } else {
            assert(b[i] == "\"))"@[i - 15 - n - u]);
        }
    }
}

/// Whether a line is a pin behind an indent, character by character.
spec fn is_pin_line(line: Seq<char>, d: int, p: (Seq<char>, Seq<char>)) -> bool {
    let n = p.0.len() as int;
    let u = p.1.len() as int;
    &&& 0 <= d
    &&& line.len() == d + n + u + 18
    &&& forall|i: int| 0 <= i < d ==> (#[trigger] line[i] == ' ' || line[i] == '\t')
    &&& line[d] == '(' && line[d + 1] == 'p' && line[d + 2] == 'i' && line[d + 3] == 'n'
    &&& line[d + 4] == ' ' && line[d + 5] == '"'
    &&& forall|i: int| d + 6 <= i < d + 6 + n ==> #[trigger] line[i] == p.0[i - d - 6]
    &&& line[d + 6 + n] == '"' && line[d + 7 + n] == ' ' && line[d + 8 + n] == '('
    &&& line[d + 9 + n] == 'u' && line[d + 10 + n] == 'u' && line[d + 11 + n] == 'i'
    &&& line[d + 12 + n] == 'd' && line[d + 13 + n] == ' ' && line[d + 14 + n] == '"'
    &&& forall|i: int|
        d + 15 + n <= i < d + 15 + n + u ==> #[trigger] line[i] == p.1[i - d - 15 - n]
    &&& line[d + 15 + n + u] == '"'
}

proof fn lemma_pin_line(indent: Seq<char>, p: (Seq<char>, Seq<char>))
    requires
        is_plain_pin(p),
        forall|i: int| 0 <= i < indent.len() ==> (#[trigger] indent[i] == ' ' || indent[i] == '\t'),
    ensures
        is_pin_line(indent + body(p), indent.len() as int, p),
{
    reveal_strlit("(pin \"");
    reveal_strlit("\" (uuid \"");
    reveal_strlit("\"))");
}

proof fn lemma_number_read(line: Seq<char>, d: int, p: (Seq<char>, Seq<char>))
    requires
        is_pin_line(line, d, p),
        is_plain(p.0),
    ensures
        quoted_after(line, "(pin \""@) == Some(p.0),
{
    reveal_strlit("(pin \"");
    let pin = "(pin \""@;
    let n = p.0.len() as int;
    assert(line.subrange(d, d + 6) =~= pin);
    assert forall|q: int| 0 <= q < d implies !matches_at(line, pin, q) by {
        if matches_at(line, pin, q) {
            assert(line.subrange(q, q + 6)[0] == line[q]);
        }
    }
    lemma_find_at(line, pin, 0, d);
    lemma_next_quote(line, d + 6, d + 6 + n, p.0);
}

proof fn lemma_no_early_id(line: Seq<char>, d: int, p: (Seq<char>, Seq<char>), q: int)
    requires
        is_pin_line(line, d, p),
        is_plain_pin(p),
        0 <= q < d + 8 + p.0.len(),
    ensures
        !matches_at(line, "(uuid \""@, q),
{
    reveal_strlit("(uuid \"");
    reveal_strlit("(uuid ");
    let id = "(uuid \""@;
    let n = p.0.len() as int;
    if matches_at(line, id, q) {
        let s = line.subrange(q, q + 7);
        assert(s[0] == line[q] && s[1] == line[q + 1] && s[6] == line[q + 6]);
        if d + 6 <= q < d + 6 + n {
            if q + 6 == d + 6 + n {
                let end = p.0.skip(n - 6);
                assert forall|i: int| 0 <= i < 6 implies end[i] == "(uuid "@[i] by {
                    assert(s[i] == line[q + i]);
                    assert(end[i] == p.0[q + i - d - 6]);
                }
                assert(end =~= "(uuid "@);
            } else if q + 6 > d + 6 + n {
                let k = d + 6 + n - q;
                assert(1 <= k < 6);
                assert(s[k] == line[q + k]);
                assert(id[k] != '"');
            } else {
                assert(line[q + 6] == p.0[q - d]);
            }
        }
    }
}

/// What a pin behind an indent says is read from it.
proof fn lemma_body_read(indent: Seq<char>, p: (Seq<char>, Seq<char>))
    requires
        is_plain_pin(p),
        forall|i: int| 0 <= i < indent.len() ==> (#[trigger] indent[i] == ' ' || indent[i] == '\t'),
    ensures
        quoted_after(indent + body(p), "(pin \""@) == Some(p.0),
        quoted_after(indent + body(p), "(uuid \""@) == Some(p.1),
{
    let line = indent + body(p);
    let d = indent.len() as int;
    lemma_pin_line(indent, p);
    lemma_number_read(line, d, p);
    lemma_id_read(line, d, p);
}

proof fn lemma_id_read(line: Seq<char>, d: int, p: (Seq<char>, Seq<char>))
    requires
        is_pin_line(line, d, p),
        is_plain_pin(p),
    ensures
        quoted_after(line, "(uuid \""@) == Some(p.1),
{
    reveal_strlit("(uuid \"");
    let id = "(uuid \""@;
    let at = d + 8 + p.0.len();
    assert(line.subrange(at, at + 7) =~= id);
    assert forall|q: int| 0 <= q < at implies !matches_at(line, id, q) by {
        lemma_no_early_id(line, d, p, q);
    }
    lemma_find_at(line, id, 0, at);
    lemma_next_quote(line, at + 7, at + 7 + p.1.len(), p.1);
}

proof fn lemma_next_quote(line: Seq<char>, from: int, to: int, inner: Seq<char>)
    requires
        0 <= from <= to < line.len(),
        line[to] == '"',
        to - from == inner.len(),
        is_plain(inner),
        forall|i: int| from <= i < to ==> #[trigger] line[i] == inner[i - from],
    ensures
        find(line, seq!['"'], from) == Some(to),
        line.subrange(from, to) == inner,
{
    let mark = seq!['"'];
    assert(line.subrange(to, to + 1) =~= mark);
    assert forall|q: int| from <= q < to implies !matches_at(line, mark, q) by {
        if matches_at(line, mark, q) {
            assert(line.subrange(q, q + 1)[0] == line[q]);
            assert(inner[q - from] != '"');
        }
    }
    lemma_find_at(line, mark, from, to);
    assert(line.subrange(from, to) =~= inner);
}

proof fn lemma_close_past_quoted(text: Seq<char>, at: int, end: int, depth: int)
    requires
        0 <= at <= end < text.len(),
        text[end] == '"',
        forall|i: int| at <= i < end ==> #[trigger] text[i] != '"' && text[i] != '\\',
    ensures
        close_from(text, at, depth, true) == close_from(text, end + 1, depth, false),
    decreases end - at,
{
    if at < end {
        assert(text[at] != '"' && text[at] != '\\');
        lemma_close_past_quoted(text, at + 1, end, depth);
    }
}

/// A pin ends where it ends.
proof fn lemma_body_ends(text: Seq<char>, s: int, p: (Seq<char>, Seq<char>))
    requires
        is_plain_pin(p),
        is_unescaped(p.0),
        is_unescaped(p.1),
        0 <= s,
        s + body(p).len() <= text.len(),
        text.subrange(s, s + body(p).len()) == body(p),
    ensures
        end_of_block(text, s) == s + body(p).len(),
{
    lemma_body_chars(p);
    reveal_strlit("(pin \"");
    reveal_strlit("\" (uuid \"");
    reveal_strlit("\"))");
    let b = body(p);
    let n = p.0.len() as int;
    let u = p.1.len() as int;
    assert forall|i: int| 0 <= i < b.len() implies #[trigger] text[s + i] == b[i] by {
        assert(text.subrange(s, s + b.len())[i] == b[i]);
    }
    assert forall|i: int| 0 <= i < 6 implies #[trigger] b[i] == "(pin \""@[i] by {
        assert(b.take(6)[i] == b[i]);
    }
    assert forall|i: int| 0 <= i < 9 implies #[trigger] b[6 + n + i] == "\" (uuid \""@[i] by {
        assert(b.subrange(6 + n, 15 + n)[i] == b[6 + n + i]);
    }
    assert forall|i: int| 0 <= i < 3 implies #[trigger] b[15 + n + u + i] == "\"))"@[i] by {
        assert(b.skip(15 + n + u)[i] == b[15 + n + u + i]);
    }
    assert(text[s + 0] == '(' && text[s + 1] == 'p' && text[s + 2] == 'i' && text[s + 3] == 'n'
        && text[s + 4] == ' ' && text[s + 5] == '"');
    assert(close_from(text, s, 0, false) == close_from(text, s + 1, 1, false));
    assert(close_from(text, s + 1, 1, false) == close_from(text, s + 2, 1, false));
    assert(close_from(text, s + 2, 1, false) == close_from(text, s + 3, 1, false));
    assert(close_from(text, s + 3, 1, false) == close_from(text, s + 4, 1, false));
    assert(close_from(text, s + 4, 1, false) == close_from(text, s + 5, 1, false));
    assert(close_from(text, s + 5, 1, false) == close_from(text, s + 6, 1, true));
    let m = s + 6 + n;
    assert(b[6 + n + 0] == '"');
    assert(text[s + (6 + n + 0)] == '"');
    assert forall|i: int| s + 6 <= i < m implies #[trigger] text[i] != '"' && text[i]
        != '\\' by {
        assert(text[s + (i - s)] == b[i - s]);
        assert(b.subrange(6, 6 + n)[i - s - 6] == b[i - s]);
        assert(p.0[i - s - 6] != '"');
    }
    lemma_close_past_quoted(text, s + 6, m, 1);
    assert forall|i: int| 0 <= i < 9 implies #[trigger] text[m + i] == "\" (uuid \""@[i] by {
        assert(b[6 + n + i] == "\" (uuid \""@[i]);
        assert(text[s + (6 + n + i)] == b[6 + n + i]);
    }
    assert(text[m + 1] == ' ' && text[m + 2] == '(' && text[m + 3] == 'u' && text[m + 4] == 'u'
        && text[m + 5] == 'i' && text[m + 6] == 'd' && text[m + 7] == ' ' && text[m + 8] == '"');
    assert(close_from(text, m + 1, 1, false) == close_from(text, m + 2, 1, false));
    assert(close_from(text, m + 2, 1, false) == close_from(text, m + 3, 2, false));
    assert(close_from(text, m + 3, 2, false) == close_from(text, m + 4, 2, false));
    assert(close_from(text, m + 4, 2, false) == close_from(text, m + 5, 2, false));
    assert(close_from(text, m + 5, 2, false) == close_from(text, m + 6, 2, false));
    assert(close_from(text, m + 6, 2, false) == close_from(text, m + 7, 2, false));
    assert(close_from(text, m + 7, 2, false) == close_from(text, m + 8, 2, false));
    assert(close_from(text, m + 8, 2, false) == close_from(text, m + 9, 2, true));
    let e = m + 9 + u;
    assert forall|i: int| 0 <= i < 3 implies #[trigger] text[e + i] == "\"))"@[i] by {
        assert(b[15 + n + u + i] == "\"))"@[i]);
        assert(text[s + (15 + n + u + i)] == b[15 + n + u + i]);
    }
    assert(text[e + 0] == '"' && text[e + 1] == ')' && text[e + 2] == ')');
    assert forall|i: int| m + 9 <= i < e implies #[trigger] text[i] != '"' && text[i] != '\\' by {
        assert(text[s + (i - s)] == b[i - s]);
        assert(b.subrange(15 + n, 15 + n + u)[i - s - 15 - n] == b[i - s]);
        assert(p.1[i - s - 15 - n] != '"');
    }
    lemma_close_past_quoted(text, m + 9, e, 2);
    assert(close_from(text, e + 1, 2, false) == close_from(text, e + 2, 1, false));
    assert(close_from(text, e + 2, 1, false) == e + 3);
}

/// A mark that begins with its only line break does not stand across another.
proof fn lemma_not_across(text: Seq<char>, mark: Seq<char>, q: int, at: int)
    requires
        mark.len() > 0,
        forall|i: int| 1 <= i < mark.len() ==> #[trigger] mark[i] != '\n',
        0 <= at < text.len(),
        text[at] == '\n',
        q < at < q + mark.len(),
    ensures
        !matches_at(text, mark, q),
{
    if matches_at(text, mark, q) {
        assert(text.subrange(q, q + mark.len())[at - q] == text[at]);
        assert(mark[at - q] != '\n');
    }
}

proof fn lemma_listing_starts(gap: Seq<char>, pins: Seq<(Seq<char>, Seq<char>)>, k: int)
    requires
        0 <= k <= pins.len(),
    ensures
        listing(gap, pins.take(k)).len() <= listing(gap, pins).len(),
        listing(gap, pins).take(listing(gap, pins.take(k)).len() as int) == listing(
            gap,
            pins.take(k),
        ),
    decreases pins.len() - k,
{
    if k == pins.len() {
        assert(pins.take(k) =~= pins);
        assert(listing(gap, pins).take(listing(gap, pins).len() as int) =~= listing(gap, pins));
    } else {
        lemma_listing_starts(gap, pins, k + 1);
        let more = pins.take(k + 1);
        assert(more.drop_last() =~= pins.take(k));
        let a = listing(gap, pins.take(k));
        let b = listing(gap, more);
        let all = listing(gap, pins);
        assert(all.take(a.len() as int) =~= b.take(a.len() as int));
        assert(b.take(a.len() as int) =~= a);
    }
}

/// What is known of a text that lists pins from `start` on.
spec fn lists(text: Seq<char>, gap: Seq<char>, pins: Seq<(Seq<char>, Seq<char>)>, start: int) -> bool {
    &&& 0 <= start
    &&& start + listing(gap, pins).len() <= text.len()
    &&& text.subrange(start, start + listing(gap, pins).len()) == listing(gap, pins)
}

/// Where the `k`th pin stands.
proof fn lemma_nth_pin(
    text: Seq<char>,
    gap: Seq<char>,
    pins: Seq<(Seq<char>, Seq<char>)>,
    start: int,
    k: int,
)
    requires
        lists(text, gap, pins, start),
        0 <= k < pins.len(),
        is_gap(gap),
        all_plain_pins(pins),
    ensures
        ({
            let at = start + listing(gap, pins.take(k)).len();
            let len = gap.len() + body(pins[k]).len();
            &&& at + len == start + listing(gap, pins.take(k + 1)).len()
            &&& at + len <= start + listing(gap, pins).len()
            &&& text.subrange(at, at + len) == gap + body(pins[k])
            &&& matches_at(text, gap + "(pin \""@, at)
            &&& text.subrange(at + gap.len(), at + len) == body(pins[k])
            &&& text.subrange(at + 1, at + len) == gap.skip(1) + body(pins[k])
            &&& text[at] == '\n'
            &&& forall|i: int| at < i < at + len ==> #[trigger] text[i] != '\n'
        }),
{
    lemma_listing_starts(gap, pins, k);
    lemma_listing_starts(gap, pins, k + 1);
    let all = listing(gap, pins);
    let more = pins.take(k + 1);
    assert(more.drop_last() =~= pins.take(k));
    assert(more.last() == pins[k]);
    let a = listing(gap, pins.take(k));
    let b = listing(gap, more);
    let piece = gap + body(pins[k]);
    assert(b == a + piece);
    let at = start + a.len();
    let len = piece.len();
    assert(is_plain_pin(pins[k]));
    lemma_body_chars(pins[k]);
    assert forall|i: int| 0 <= i < len implies #[trigger] text[at + i] == piece[i] by {
        assert(all[a.len() + i] == all.take(b.len() as int)[a.len() + i]);
        assert(b[a.len() + i] == piece[i]);
        assert(text.subrange(start, start + all.len())[a.len() + i] == all[a.len() + i]);
    }
    assert forall|i: int| at < i < at + len implies #[trigger] text[i] != '\n' by {
        let j = i - at;
        assert(text[at + j] == piece[j]);
        if j < gap.len() {
            assert(piece[j] == gap[j]);
        } else {
            assert(piece[j] == body(pins[k])[j - gap.len()]);
        }
    }
    assert(text[at + 0] == piece[0]);
    assert(text.subrange(at, at + len) =~= piece) by {
        assert forall|i: int| 0 <= i < len implies text.subrange(at, at + len)[i] == piece[i] by {
            assert(text[at + i] == piece[i]);
        }
    }
    let g = gap.len() as int;
    assert(text.subrange(at + g, at + len) =~= body(pins[k])) by {
        assert(text.subrange(at + g, at + len) =~= text.subrange(at, at + len).skip(g));
        assert(piece.skip(g) =~= body(pins[k]));
    }
    assert(text.subrange(at + 1, at + len) =~= gap.skip(1) + body(pins[k])) by {
        assert(text.subrange(at + 1, at + len) =~= text.subrange(at, at + len).skip(1));
        assert(piece.skip(1) =~= gap.skip(1) + body(pins[k]));
    }
    let mark = gap + "(pin \""@;
    reveal_strlit("(pin \"");
    assert(text.subrange(at, at + mark.len()) =~= text.subrange(at, at + len).take(
        mark.len() as int,
    ));
    assert(piece.take(mark.len() as int) =~= mark) by {
        assert(body(pins[k]).take(6) == "(pin \""@);
        assert forall|i: int| 0 <= i < mark.len() implies piece.take(mark.len() as int)[i]
            == mark[i] by {
            if i >= g {
                assert(body(pins[k]).take(6)[i - g] == "(pin \""@[i - g]);
            }
        }
    }
}

/// Pins on lines four spaces deep are read back from the `k`th on.
proof fn lemma_lines_read(
    text: Seq<char>,
    pins: Seq<(Seq<char>, Seq<char>)>,
    start: int,
    k: int,
)
    requires
        lists(text, "\n    "@, pins, start),
        all_plain_pins(pins),
        0 <= k <= pins.len(),
        start + listing("\n    "@, pins).len() < text.len(),
        text[start + listing("\n    "@, pins).len()] == '\n',
        find(text, "\n    (pin \""@, start + listing("\n    "@, pins).len()) is None,
    ensures
        instance_pins_from(text, start + listing("\n    "@, pins.take(k)).len()) == pins.skip(k),
    decreases pins.len() - k,
{
    reveal_strlit("\n    ");
    reveal_strlit("\n    (pin \"");
    reveal_strlit("(pin \"");
    let gap = "\n    "@;
    let mark = "\n    (pin \""@;
    assert(mark =~= gap + "(pin \""@);
    let at = start + listing(gap, pins.take(k)).len();
    if k == pins.len() {
        assert(pins.take(k) =~= pins);
        assert(pins.skip(k) =~= Seq::empty());
    } else {
        lemma_nth_pin(text, gap, pins, start, k);
        lemma_lines_read(text, pins, start, k + 1);
        let next = start + listing(gap, pins.take(k + 1)).len();
        lemma_find_at(text, mark, at, at);
        assert(text[next] == '\n') by {
            if k + 1 < pins.len() {
                lemma_nth_pin(text, gap, pins, start, k + 1);
            } else {
                assert(pins.take(k + 1) =~= pins);
            }
        }
        let nl = seq!['\n'];
        assert(text.subrange(next, next + 1) =~= nl);
        assert forall|q: int| at + 1 <= q < next implies !matches_at(text, nl, q) by {
            if matches_at(text, nl, q) {
                assert(text.subrange(q, q + 1)[0] == text[q]);
            }
        }
        lemma_find_at(text, nl, at + 1, next);
        assert(is_plain_pin(pins[k]));
        lemma_body_read(gap.skip(1), pins[k]);
        assert(seq![pins[k]] + pins.skip(k + 1) =~= pins.skip(k));
    }
}

/// Pins two tabs deep are read back from the `k`th on.
proof fn lemma_tabbed_read(
    text: Seq<char>,
    pins: Seq<(Seq<char>, Seq<char>)>,
    start: int,
    k: int,
)
    requires
        lists(text, "\n\t\t"@, pins, start),
        all_plain_pins(pins),
        all_unescaped_pins(pins),
        0 <= k <= pins.len(),
        find(text, "\n\t\t(pin \""@, start + listing("\n\t\t"@, pins).len()) is None,
    ensures
        tabbed_pins_from(text, start + listing("\n\t\t"@, pins.take(k)).len()) == pins.skip(k),
    decreases pins.len() - k,
{
    reveal_strlit("\n\t\t");
    reveal_strlit("\n\t\t(pin \"");
    reveal_strlit("(pin \"");
    let gap = "\n\t\t"@;
    let mark = "\n\t\t(pin \""@;
    assert(mark =~= gap + "(pin \""@);
    let at = start + listing(gap, pins.take(k)).len();
    if k == pins.len() {
        assert(pins.take(k) =~= pins);
        assert(pins.skip(k) =~= Seq::empty());
    } else {
        lemma_nth_pin(text, gap, pins, start, k);
        lemma_tabbed_read(text, pins, start, k + 1);
        lemma_find_at(text, mark, at, at);
        assert(is_plain_pin(pins[k]));
        lemma_body_ends(text, at + 3, pins[k]);
        let none = Seq::<char>::empty();
        lemma_body_read(none, pins[k]);
        assert(none + body(pins[k]) =~= body(pins[k]));
        assert(seq![pins[k]] + pins.skip(k + 1) =~= pins.skip(k));
    }
}

proof fn lemma_pin_lines(pins: Seq<(Seq<char>, Seq<char>)>)
    ensures
        pin_lines(pins) == listing("\n    "@, pins),
        tabbed_lines(pins) == listing("\n\t\t"@, pins),
    decreases pins.len(),
{
    if pins.len() > 0 {
        lemma_pin_lines(pins.drop_last());
        reveal_strlit("\n    ");
        reveal_strlit("\n    (pin \"");
        reveal_strlit("\n\t\t");
        reveal_strlit("\n\t\t(pin \"");
        reveal_strlit("(pin \"");
        assert("\n    (pin \""@ =~= "\n    "@ + "(pin \""@);
        assert("\n\t\t(pin \""@ =~= "\n\t\t"@ + "(pin \""@);
        assert(pin_lines(pins) =~= listing("\n    "@, pins));
        assert(tabbed_lines(pins) =~= listing("\n\t\t"@, pins));
    }
}

/// A mark that stands in neither of two texts does not stand in them joined, where the
/// second begins with a line break.
proof fn lemma_nowhere(front: Seq<char>, rest: Seq<char>, mark: Seq<char>, block: Seq<char>)
    requires
        mark.len() > 0,
        forall|i: int| 1 <= i < mark.len() ==> #[trigger] mark[i] != '\n',
        rest.len() > 0,
        rest[0] == '\n',
        front.len() <= block.len(),
        front == block.take(front.len() as int),
        forall|q: int| 0 <= q < front.len() ==> !matches_at(block, mark, q),
    ensures
        forall|q: int| 0 <= q < front.len() ==> !matches_at(front + rest, mark, q),
{
    let text = front + rest;
    let n = front.len() as int;
    assert forall|q: int| 0 <= q < n implies !matches_at(text, mark, q) by {
        if q + mark.len() > n {
            assert(text[n] == '\n');
            lemma_not_across(text, mark, q, n);
        } else {
            assert(text.subrange(q, q + mark.len()) =~= block.subrange(q, q + mark.len()));
            assert(!matches_at(block, mark, q));
        }
    }
}

/// Whether no pin stands in a text.
spec fn has_no_pin(text: Seq<char>) -> bool {
    &&& forall|q: int| 0 <= q ==> !matches_at(text, "\n    (pin \""@, q)
    &&& forall|q: int| 0 <= q ==> !matches_at(text, "\n\t\t(pin \""@, q)
}

/// No pin is left in a text without its pins.
proof fn lemma_pinless(text: Seq<char>)
    ensures
        has_no_pin(pinless(text)),
    decreases text.len(),
{
    reveal_strlit("\n\t\t(pin \"");
    reveal_strlit("\n    (pin \"");
    lemma_find_is_first(text, "\n\t\t(pin \""@, 0);
    lemma_find_is_first(text, "\n    (pin \""@, 0);
    match find(text, "\n\t\t(pin \""@, 0) {
        Some(at) => {
            lemma_close_bounds(text, at + 3, 0, false);
            lemma_pinless(text.take(at) + text.skip(end_of_block(text, at + 3)));
        },
        None => match find(text, "\n    (pin \""@, 0) {
            Some(at) => {
                lemma_close_bounds(text, at + 5, 0, false);
                lemma_pinless(text.take(at) + text.skip(end_of_block(text, at + 5)));
            },
            None => {},
        },
    }
}

proof fn lemma_nothing_read(text: Seq<char>)
    requires
        has_no_pin(text),
    ensures
        instance_pins(text) == Seq::<(Seq<char>, Seq<char>)>::empty(),
{
    lemma_find_is_first(text, "\n    (pin \""@, 0);
    lemma_find_is_first(text, "\n\t\t(pin \""@, 0);
}

proof fn lemma_tabbed_back(block: Seq<char>, pins: Seq<(Seq<char>, Seq<char>)>, at: int)
    requires
        all_plain_pins(pins),
        all_unescaped_pins(pins),
        pins.len() > 0,
        find(block, "\n    (pin \""@, 0) is None,
        find(block, "\n\t\t(pin \""@, 0) == Some(at),
    ensures
        instance_pins(with_pins(block, pins)) == pins,
{
    let line_mark = "\n    (pin \""@;
    let tab_mark = "\n\t\t(pin \""@;
    let gap = "\n\t\t"@;
    lemma_marks();
    lemma_pin_lines(pins);
    lemma_find_is_first(block, line_mark, 0);
    lemma_find_is_first(block, tab_mark, 0);
    let text = with_pins(block, pins);
    let front = block.take(at);
    let lines = tabbed_lines(pins);
    let tail = pinless(block.skip(at));
    let rest = lines + tail;
    let past = at + lines.len();
    lemma_pinless(block.skip(at));
    assert(text =~= front + rest);
    assert(text.subrange(at, at + lines.len()) =~= lines);
    assert(lists(text, gap, pins, at));
    assert(text.skip(past) =~= tail.skip(0));
    assert(pins.take(0) =~= Seq::empty());
    lemma_nth_pin(text, gap, pins, at, 0);
    assert(rest[0] == text[at]);
    lemma_nowhere(front, rest, tab_mark, block);
    lemma_nowhere(front, rest, line_mark, block);
    lemma_none_behind(text, tail, tab_mark, past, 0);
    lemma_no_line_mark(text, tail, pins, at, 0);
    lemma_tabbed_read(text, pins, at, 0);
    lemma_find_skip(text, tab_mark, 0, at);
    assert(tabbed_pins_from(text, 0) == tabbed_pins_from(text, at));
    assert(pins.skip(0) =~= pins);
}

proof fn lemma_none_behind(
    text: Seq<char>,
    block: Seq<char>,
    mark: Seq<char>,
    past: int,
    end: int,
)
    requires
        0 <= past <= text.len(),
        0 <= end <= block.len(),
        text.skip(past) == block.skip(end),
        forall|r: int| end <= r ==> !matches_at(block, mark, r),
    ensures
        find(text, mark, past) is None,
{
    assert forall|q: int| past <= q implies !matches_at(text, mark, q) by {
        lemma_behind(text, block, mark, q, past, end);
    }
    lemma_find_is_first(text, mark, past);
}

proof fn lemma_no_line_mark(
    text: Seq<char>,
    block: Seq<char>,
    pins: Seq<(Seq<char>, Seq<char>)>,
    at: int,
    end: int,
)
    requires
        all_plain_pins(pins),
        lists(text, "\n\t\t"@, pins, at),
        0 <= end <= block.len(),
        text.skip(at + listing("\n\t\t"@, pins).len()) == block.skip(end),
        forall|r: int| 0 <= r ==> !matches_at(block, "\n    (pin \""@, r),
        forall|q: int| 0 <= q < at ==> !matches_at(text, "\n    (pin \""@, q),
    ensures
        find(text, "\n    (pin \""@, 0) is None,
{
    let mark = "\n    (pin \""@;
    let gap = "\n\t\t"@;
    let past = at + listing(gap, pins).len();
    lemma_marks();
    assert forall|q: int| 0 <= q implies !matches_at(text, mark, q) by {
        if q >= past {
            lemma_behind(text, block, mark, q, past, end);
        } else if q >= at && matches_at(text, mark, q) {
            let s = text.subrange(q, q + mark.len());
            assert(s[0] == text[q] && s[1] == text[q + 1]);
            lemma_breaks(text, gap, pins, at, q);
        }
    }
    lemma_find_is_first(text, mark, 0);
}

proof fn lemma_marks()
    ensures
        "\n    (pin \""@ == "\n    "@ + "(pin \""@,
        "\n\t\t(pin \""@ == "\n\t\t"@ + "(pin \""@,
        is_gap("\n    "@),
        is_gap("\n\t\t"@),
        "\n    "@[1] == ' ',
        "\n    "@.len() == 5,
        "\n\t\t"@[1] == '\t',
        "\n\t\t"@.len() == 3,
        "\n    (pin \""@.len() == 11,
        "\n\t\t(pin \""@.len() == 9,
        "\n    (pin \""@[0] == '\n',
        "\n    (pin \""@[1] == ' ',
        "\n\t\t(pin \""@[0] == '\n',
        forall|i: int| 1 <= i < 11 ==> #[trigger] "\n    (pin \""@[i] != '\n',
        forall|i: int| 1 <= i < 9 ==> #[trigger] "\n\t\t(pin \""@[i] != '\n',
{
    reveal_strlit("\n    ");
    reveal_strlit("\n    (pin \"");
    reveal_strlit("\n\t\t");
    reveal_strlit("\n\t\t(pin \"");
    reveal_strlit("(pin \"");
    assert("\n    (pin \""@ =~= "\n    "@ + "(pin \""@);
    assert("\n\t\t(pin \""@ =~= "\n\t\t"@ + "(pin \""@);
}

proof fn lemma_lines_back(front: Seq<char>, pins: Seq<(Seq<char>, Seq<char>)>)
    requires
        all_plain_pins(pins),
        has_no_pin(front),
    ensures
        instance_pins(front + (pin_lines(pins) + "\n  )"@)) == pins,
{
    let line_mark = "\n    (pin \""@;
    let tab_mark = "\n\t\t(pin \""@;
    let gap = "\n    "@;
    let start = front.len() as int;
    lemma_marks();
    lemma_pin_lines(pins);
    reveal_strlit("\n  )");
    let lines = pin_lines(pins);
    let rest = lines + "\n  )"@;
    let text = front + rest;
    let past = start + lines.len();
    assert(front =~= front.take(start));
    assert(text.subrange(start, start + lines.len()) =~= lines);
    assert(lists(text, gap, pins, start));
    assert(text[past] == "\n  )"@[0]);
    assert(pins.take(0) =~= Seq::empty());
    assert(pins.skip(0) =~= pins);
    if pins.len() > 0 {
        lemma_nth_pin(text, gap, pins, start, 0);
    } else {
        assert(lines.len() == 0);
    }
    assert(rest[0] == text[start]);
    lemma_nowhere(front, rest, line_mark, front);
    assert(text.len() == past + 4);
    lemma_find_is_first(text, line_mark, past);
    lemma_lines_read(text, pins, start, 0);
    lemma_find_skip(text, line_mark, 0, start);
    if pins.len() > 0 {
        lemma_find_at(text, line_mark, 0, start);
        assert(instance_pins_from(text, 0) == instance_pins_from(text, start));
    } else {
        lemma_nowhere(front, rest, tab_mark, front);
        lemma_find_is_first(text, tab_mark, 0);
        assert(tabbed_pins_from(text, 0) =~= pins);
    }
}

proof fn lemma_part_has_no_pin(block: Seq<char>, start: int)
    requires
        has_no_pin(block),
        0 <= start <= block.len(),
    ensures
        has_no_pin(block.take(start)),
{
    let front = block.take(start);
    assert forall|q: int| 0 <= q implies !matches_at(front, "\n    (pin \""@, q) by {
        lemma_part_match(block, start, "\n    (pin \""@, q);
    }
    assert forall|q: int| 0 <= q implies !matches_at(front, "\n\t\t(pin \""@, q) by {
        lemma_part_match(block, start, "\n\t\t(pin \""@, q);
    }
}

proof fn lemma_part_match(block: Seq<char>, start: int, mark: Seq<char>, q: int)
    requires
        0 <= start <= block.len(),
        0 <= q,
    ensures
        matches_at(block.take(start), mark, q) ==> matches_at(block, mark, q),
{
    if matches_at(block.take(start), mark, q) {
        assert(block.take(start).subrange(q, q + mark.len()) =~= block.subrange(
            q,
            q + mark.len(),
        ));
    }
}

/// Whether the pins of a symbol are listed two tabs deep.
pub open spec fn is_tabbed(block: Seq<char>) -> bool {
    find(block, "\n    (pin \""@, 0) is None && find(block, "\n\t\t(pin \""@, 0) is Some
}

/// The pins that are put into a symbol are those that are read from it, in order, and
/// no other, where their texts stand in a file as they are. Two tabs deep a pin is read
/// to its closing bracket, so there a backslash must not stand before a quotation mark.
pub proof fn lemma_pins_read_back(block: Seq<char>, pins: Seq<(Seq<char>, Seq<char>)>)
    requires
        all_plain_pins(pins),
        is_tabbed(block) ==> all_unescaped_pins(pins),
    ensures
        instance_pins(with_pins(block, pins)) == pins,
{
    let line_mark = "\n    (pin \""@;
    let tab_mark = "\n\t\t(pin \""@;
    lemma_find_is_first(block, line_mark, 0);
    lemma_find_is_first(block, tab_mark, 0);
    match find(block, line_mark, 0) {
        Some(at) => {
            lemma_pinless(block.take(at));
            lemma_lines_back(pinless(block.take(at)), pins);
        },
        None => match find(block, tab_mark, 0) {
            Some(at) => {
                if pins.len() == 0 {
                    lemma_pinless(block);
                    lemma_nothing_read(pinless(block));
                    assert(pins =~= Seq::empty());
                } else {
                    lemma_tabbed_back(block, pins, at);
                }
            },
            None => {
                lemma_last_of_bounds(block, "\n  )"@);
                let start = match last_of(block, "\n  )"@) {
                    Some(at) => at,
                    None => last_three_bytes(block),
                };
                lemma_part_has_no_pin(block, start);
                lemma_lines_back(block.take(start), pins);
            },
        },
    }
}

/// What stands in a text behind the pins stood in the block it came from.
proof fn lemma_behind(
    text: Seq<char>,
    block: Seq<char>,
    mark: Seq<char>,
    q: int,
    past: int,
    end: int,
)
    requires
        0 <= past <= q,
        past <= text.len(),
        0 <= end <= block.len(),
        text.skip(past) == block.skip(end),
        forall|r: int| end <= r ==> !matches_at(block, mark, r),
    ensures
        !matches_at(text, mark, q),
{
    if matches_at(text, mark, q) {
        let r = q - past + end;
        assert(text.skip(past).len() == text.len() - past);
        assert(block.skip(end).len() == block.len() - end);
        assert(r + mark.len() <= block.len());
        assert(text.subrange(q, q + mark.len()) =~= text.skip(past).subrange(
            q - past,
            q - past + mark.len(),
        ));
        assert(block.subrange(r, r + mark.len()) =~= block.skip(end).subrange(
            q - past,
            q - past + mark.len(),
        ));
        assert(matches_at(block, mark, r));
    }
}

/// A line break among listed pins begins an indent.
proof fn lemma_breaks(
    text: Seq<char>,
    gap: Seq<char>,
    pins: Seq<(Seq<char>, Seq<char>)>,
    start: int,
    q: int,
)
    requires
        lists(text, gap, pins, start),
        is_gap(gap),
        gap.len() > 1,
        all_plain_pins(pins),
        start <= q < start + listing(gap, pins).len(),
        text[q] == '\n',
    ensures
        text[q + 1] == gap[1],
{
    assert(pins.take(pins.len() as int) =~= pins);
    lemma_break_among(text, gap, pins, start, q, pins.len() as int);
}

proof fn lemma_break_among(
    text: Seq<char>,
    gap: Seq<char>,
    pins: Seq<(Seq<char>, Seq<char>)>,
    start: int,
    q: int,
    k: int,
)
    requires
        lists(text, gap, pins, start),
        is_gap(gap),
        gap.len() > 1,
        all_plain_pins(pins),
        0 <= k <= pins.len(),
        start <= q < start + listing(gap, pins.take(k)).len(),
        text[q] == '\n',
    ensures
        text[q + 1] == gap[1],
    decreases k,
{
    if k == 0 {
        assert(pins.take(0).len() == 0);
    } else {
        lemma_nth_pin(text, gap, pins, start, k - 1);
        let at = start + listing(gap, pins.take(k - 1)).len();
        if q < at {
            lemma_break_among(text, gap, pins, start, q, k - 1);
        } else {
            assert(q == at);
            let len = gap.len() + body(pins[k - 1]).len();
            assert(text.subrange(at, at + len)[1] == text[at + 1]);
        }
    }
}

/// The pins that a symbol is rebuilt with are those that are read from it, in order, and
/// no other.
pub proof fn lemma_rebuilt_pins(
    block: Seq<char>,
    lib_id: Seq<char>,
    value: Seq<char>,
    footprint: Seq<char>,
    pins: Seq<(Seq<char>, Seq<char>)>,
)
    requires
        all_plain_pins(pins),
        is_tabbed(
            with_property(
                with_property(with_lib_id(block, lib_id), "Value"@, value),
                "Footprint"@,
                footprint,
            ),
        ) ==> all_unescaped_pins(pins),
    ensures
        instance_pins(rebuilt(block, lib_id, value, footprint, pins)) == pins,
{
    lemma_pins_read_back(
        with_property(
            with_property(with_lib_id(block, lib_id), "Value"@, value),
            "Footprint"@,
            footprint,
        ),
        pins,
    );
}

} // verus!
