//! What is written can be read: numbers, and where parts stand.

use crate::decimal::{
    digits_end, digits_value, exponent_at, is_digit, is_signed, magnitude, nanometres, numeral,
    Numeral,
};
use crate::clearance::Proposal;
use crate::fields::{is_space, numerals, past_spaces, past_word, word, xy_nanometres};
use crate::footprints::{part, part_from, with_placement};
use crate::insert::{point_text, trace_text};
use crate::placing::place_text;
use crate::sexpr::{lemma_close_bounds, quoted_after};
use crate::spots::stands_at;
use crate::strings::{decimal, digit};
use crate::text::{find, lemma_find_at, matches_at};
use crate::traces::{number_field, segment_of, trim, SegmentModel};
use crate::units::{fraction, plain, sign};
use vstd::arithmetic::power::{lemma_pow0, lemma_pow1, lemma_pow_adds, lemma_pow_positive, pow};
use vstd::prelude::*;

verus! {

proof fn lemma_decimal(n: nat)
    ensures
        decimal(n).len() >= 1,
        forall|i: int| 0 <= i < decimal(n).len() ==> is_digit(#[trigger] decimal(n)[i]),
        digits_value(decimal(n)) == n,
    decreases n,
{
    if n < 10 {
        let d = decimal(n);
        assert(d.drop_last() =~= Seq::empty());
        assert(digits_value(d.drop_last()) == 0);
    } else {
        lemma_decimal(n / 10);
        assert(decimal(n).drop_last() =~= decimal(n / 10));
    }
}

proof fn lemma_value_behind(a: Seq<char>, b: Seq<char>)
    ensures
        digits_value(a + b) == digits_value(a) * pow(10, b.len()) + digits_value(b),
    decreases b.len(),
{
    if b.len() == 0 {
        lemma_pow0(10);
        assert(a + b =~= a);
        assert(digits_value(a) * 1 == digits_value(a));
    } else {
        let front = b.drop_last();
        lemma_value_behind(a, front);
        assert((a + b).drop_last() =~= a + front);
        assert((a + b).last() == b.last());
        let v = digits_value(a) as int;
        let p = pow(10, front.len());
        lemma_pow_adds(10, front.len(), 1);
        lemma_pow1(10);
        assert(pow(10, b.len()) == p * 10);
        assert(v * p * 10 == v * (p * 10)) by (nonlinear_arith);
    }
}

proof fn lemma_fraction(n: nat, unit: nat, j: nat)
    requires
        j >= 1,
        unit == pow(10, (j - 1) as nat),
        0 < n < pow(10, j),
    ensures
        ({
            let f = fraction(n, unit);
            &&& 1 <= f.len() <= j
            &&& forall|i: int| 0 <= i < f.len() ==> is_digit(#[trigger] f[i])
            &&& digits_value(f) * pow(10, (j - f.len()) as nat) == n
        }),
    decreases j,
{
    lemma_pow_positive(10, (j - 1) as nat);
    lemma_pow_adds(10, 1, (j - 1) as nat);
    lemma_pow1(10);
    let f = fraction(n, unit);
    let d = n / unit;
    let rest = n % unit;
    assert(d < 10 && n == d * unit + rest && rest < unit) by (nonlinear_arith)
        requires
            unit > 0,
            n < 10 * unit,
            d == n / unit,
            rest == n % unit,
    ;
    assert(n / unit % 10 == d);
    let first = seq![digit(d)];
    assert(digits_value(first) == d) by {
        assert(first.drop_last() =~= Seq::empty());
        assert(digits_value(first.drop_last()) == 0);
    }
    let g = fraction(rest, unit / 10);
    assert(f == first + g);
    if rest == 0 {
        assert(g =~= Seq::empty());
        assert(f =~= first);
    } else {
        assert(j >= 2) by {
            if j == 1 {
                lemma_pow0(10);
            }
        }
        lemma_pow_adds(10, 1, (j - 2) as nat);
        assert(unit / 10 == pow(10, (j - 2) as nat));
        lemma_fraction(rest, unit / 10, (j - 1) as nat);
        lemma_value_behind(first, g);
        let k = g.len();
        let up = pow(10, (j - 1 - k) as nat);
        lemma_pow_adds(10, k, (j - 1 - k) as nat);
        let v = digits_value(g) as int;
        let p = pow(10, k);
        assert((d * p + v) * up == d * (p * up) + v * up) by (nonlinear_arith);
        assert((j - f.len()) as nat == (j - 1 - k) as nat);
    }
}

proof fn lemma_digits_run(text: Seq<char>, from: int, to: int)
    requires
        0 <= from <= to <= text.len(),
        forall|i: int| from <= i < to ==> is_digit(#[trigger] text[i]),
        to < text.len() ==> !is_digit(text[to]),
    ensures
        digits_end(text, from) == to,
    decreases to - from,
{
    if from < to {
        lemma_digits_run(text, from + 1, to);
    }
}

/// The digits of a number in millionths, without its sign.
spec fn unsigned(m: nat) -> Seq<char> {
    if m % 1_000_000 == 0 {
        decimal(m / 1_000_000)
    } else {
        decimal(m / 1_000_000) + seq!['.'] + fraction(m % 1_000_000, 100_000)
    }
}

proof fn lemma_millionths()
    ensures
        pow(10, 5) == 100_000,
        pow(10, 6) == 1_000_000,
        pow(10, 7) == 10_000_000,
{
    lemma_pow1(10);
    lemma_pow_adds(10, 1, 1);
    lemma_pow_adds(10, 2, 1);
    lemma_pow_adds(10, 3, 1);
    lemma_pow_adds(10, 4, 1);
    lemma_pow_adds(10, 5, 1);
    lemma_pow_adds(10, 6, 1);
}

proof fn lemma_unsigned(m: nat, negative: bool)
    ensures
        magnitude(unsigned(m), negative) matches Some(Numeral::Finite {
            negative: sign,
            digits,
            exponent,
        }) && sign == negative && (crate::decimal::scaled(digits_value(digits), exponent + 7) as int
            + 5) / 10 == m,
        unsigned(m).len() > 0,
        is_digit(unsigned(m)[0]),
        forall|i: int|
            0 <= i < unsigned(m).len() ==> is_digit(#[trigger] unsigned(m)[i]) || unsigned(m)[i]
                == '.',
{
    let w = m / 1_000_000;
    let f = m % 1_000_000;
    let text = unsigned(m);
    let head = decimal(w);
    lemma_decimal(w);
    lemma_millionths();
    if f == 0 {
        lemma_digits_run(text, 0, text.len() as int);
        assert(text.take(text.len() as int) + Seq::<char>::empty() =~= text);
        assert(exponent_at(text, text.len() as int) == Some(0int));
    } else {
        let tail = fraction(f, 100_000);
        lemma_fraction(f, 100_000, 6);
        let whole = head.len() as int;
        assert(text[whole] == '.');
        assert forall|i: int| 0 <= i < whole implies is_digit(#[trigger] text[i]) by {
            assert(text[i] == head[i]);
        }
        assert forall|i: int| whole + 1 <= i < text.len() implies is_digit(#[trigger] text[i]) by {
            assert(text[i] == tail[i - whole - 1]);
        }
        lemma_digits_run(text, 0, whole);
        lemma_digits_run(text, whole + 1, text.len() as int);
        assert(text.subrange(whole + 1, text.len() as int) =~= tail);
        assert(text.take(whole) =~= head);
        assert(exponent_at(text, text.len() as int) == Some(0int));
        lemma_value_behind(head, tail);
        let k = tail.len();
        let v = digits_value(tail) as int;
        let up = pow(10, (6 - k) as nat);
        lemma_pow_adds(10, k, (6 - k) as nat);
        lemma_pow_adds(10, (6 - k) as nat, 1);
        lemma_pow1(10);
        let p = pow(10, k);
        let all = w * p + v;
        assert(pow(10, (7 - k) as nat) == up * 10);
        assert(all * (up * 10) == w * (p * up) * 10 + v * up * 10) by (nonlinear_arith)
            requires
                all == w * p + v,
        ;
        assert(all * pow(10, (7 - k) as nat) == 10 * m);
        assert(0 - k + 7 == 7 - k);
    }
}

/// A number in millionths that was written is read as what it was.
pub proof fn lemma_number_read_back(n: int)
    requires
        i64::MIN <= n <= i64::MAX,
    ensures
        nanometres(plain(n)) == Some(n),
{
    let m = crate::units::magnitude(n) as nat;
    let text = plain(n);
    lemma_unsigned(m, n < 0);
    if n < 0 {
        assert(text =~= seq!['-'] + unsigned(m));
        assert(text.skip(1) =~= unsigned(m));
    } else {
        assert(text =~= unsigned(m));
        assert(!is_signed(text));
    }
}

/// A number is written with digits, a point and a minus sign only.
pub proof fn lemma_plain_characters(n: int)
    ensures
        plain(n).len() > 0,
        forall|i: int|
            0 <= i < plain(n).len() ==> is_digit(#[trigger] plain(n)[i]) || plain(n)[i] == '.'
                || plain(n)[i] == '-',
{
    let m = crate::units::magnitude(n) as nat;
    lemma_unsigned(m, n < 0);
    if n < 0 {
        assert(plain(n) =~= seq!['-'] + unsigned(m));
        assert forall|i: int| 0 <= i < plain(n).len() implies is_digit(#[trigger] plain(n)[i])
            || plain(n)[i] == '.' || plain(n)[i] == '-' by {
            if i > 0 {
                assert(plain(n)[i] == unsigned(m)[i - 1]);
            }
        }
    } else {
        assert(plain(n) =~= unsigned(m));
    }
}

/// A word ends at the next white space.
pub proof fn lemma_past_word(text: Seq<char>, from: int, to: int)
    requires
        0 <= from <= to <= text.len(),
        forall|i: int| from <= i < to ==> !is_space(#[trigger] text[i]),
        to < text.len() ==> is_space(text[to]),
    ensures
        past_word(text, from) == to,
    decreases to - from,
{
    if from < to {
        lemma_past_word(text, from + 1, to);
    }
}

/// Whether a text is a numeral without white space or brackets.
spec fn is_clean(t: Seq<char>) -> bool {
    &&& t.len() > 0
    &&& numeral(t) is Some
    &&& forall|i: int| 0 <= i < t.len() ==> !is_space(#[trigger] t[i]) && t[i] != ')'
}

proof fn lemma_clean(n: int)
    requires
        i64::MIN <= n <= i64::MAX,
    ensures
        is_clean(plain(n)),
{
    lemma_number_read_back(n);
    lemma_plain_characters(n);
}

proof fn lemma_last_numeral(text: Seq<char>, from: int)
    requires
        0 <= from < text.len(),
        is_clean(text.skip(from)),
    ensures
        numerals(text, from) == seq![text.skip(from)],
{
    let t = text.skip(from);
    assert forall|i: int| from <= i < text.len() implies !is_space(#[trigger] text[i]) by {
        assert(text[i] == t[i - from]);
    }
    lemma_past_word(text, from, text.len() as int);
    assert(word(text, from) == Some((from, text.len() as int)));
    assert(text.subrange(from, text.len() as int) =~= t);
    assert(word(text, text.len() as int) is None);
    assert(numerals(text, text.len() as int) =~= Seq::empty());
    assert(numerals(text, from) =~= seq![t]);
}

proof fn lemma_next_numeral(text: Seq<char>, from: int, to: int)
    requires
        0 <= from < to < text.len(),
        is_clean(text.subrange(from, to)),
        text[to] == ' ',
    ensures
        numerals(text, from) == seq![text.subrange(from, to)] + numerals(text, to),
{
    let t = text.subrange(from, to);
    assert forall|i: int| from <= i < to implies !is_space(#[trigger] text[i]) by {
        assert(text[i] == t[i - from]);
    }
    lemma_past_word(text, from, to);
    assert(word(text, from) == Some((from, to)));
}

proof fn lemma_skip_space(text: Seq<char>, at: int)
    requires
        0 <= at < text.len() - 1,
        text[at] == ' ',
        !is_space(text[at + 1]),
    ensures
        numerals(text, at) == numerals(text, at + 1),
{
    assert(past_spaces(text, at + 1) == at + 1);
    assert(past_spaces(text, at) == at + 1);
    assert(word(text, at) == word(text, at + 1));
}

/// The inside of a placement.
spec fn inside(x: int, y: int, turn: int) -> Seq<char> {
    if crate::units::magnitude(turn) < 1000 {
        plain(x) + seq![' '] + plain(y)
    } else {
        plain(x) + seq![' '] + plain(y) + seq![' '] + plain(turn)
    }
}

/// Two numerals with a space between them.
proof fn lemma_two_numerals(p: Seq<char>, q: Seq<char>)
    requires
        is_clean(p),
        is_clean(q),
    ensures
        numerals(p + seq![' '] + q, 0) == seq![p, q],
        forall|i: int|
            0 <= i < (p + seq![' '] + q).len() ==> #[trigger] (p + seq![' '] + q)[i] != ')',
{
    let text = p + seq![' '] + q;
    let a = p.len() as int;
    assert(text.subrange(0, a) =~= p);
    assert(text.skip(a + 1) =~= q);
    assert(text[a] == ' ');
    lemma_next_numeral(text, 0, a);
    assert(text[a + 1] == q[0]);
    lemma_skip_space(text, a);
    lemma_last_numeral(text, a + 1);
    assert(numerals(text, 0) =~= seq![p, q]);
    assert forall|i: int| 0 <= i < text.len() implies #[trigger] text[i] != ')' by {
        if i < a {
            assert(text[i] == p[i]);
        } else if a < i {
            assert(text[i] == q[i - a - 1]);
        }
    }
}

/// Three numerals with a space between each and the next.
proof fn lemma_three_numerals(p: Seq<char>, q: Seq<char>, r: Seq<char>)
    requires
        is_clean(p),
        is_clean(q),
        is_clean(r),
    ensures
        numerals(p + seq![' '] + (q + seq![' '] + r), 0) == seq![p, q, r],
        forall|i: int|
            0 <= i < (p + seq![' '] + (q + seq![' '] + r)).len() ==> #[trigger] (p + seq![' '] + (q
                + seq![' '] + r))[i] != ')',
{
    let tail = q + seq![' '] + r;
    let text = p + seq![' '] + tail;
    let a = p.len() as int;
    let b = a + 1 + q.len();
    assert(text.subrange(0, a) =~= p);
    assert(text[a] == ' ');
    lemma_next_numeral(text, 0, a);
    assert(text[a + 1] == tail[0]);
    assert(tail[0] == q[0]);
    lemma_skip_space(text, a);
    assert(text.subrange(a + 1, b) =~= q);
    assert(text[b] == tail[b - a - 1]);
    lemma_next_numeral(text, a + 1, b);
    assert(text[b + 1] == tail[b - a]);
    assert(tail[b - a] == r[0]);
    lemma_skip_space(text, b);
    assert(text.skip(b + 1) =~= r);
    lemma_last_numeral(text, b + 1);
    assert(numerals(text, 0) =~= seq![p, q, r]);
    lemma_two_numerals(q, r);
    assert forall|i: int| 0 <= i < text.len() implies #[trigger] text[i] != ')' by {
        if i < a {
            assert(text[i] == p[i]);
        } else if a < i {
            assert(text[i] == tail[i - a - 1]);
        }
    }
}

proof fn lemma_inside(x: int, y: int, turn: int)
    requires
        i64::MIN <= x <= i64::MAX,
        i64::MIN <= y <= i64::MAX,
        i64::MIN <= turn <= i64::MAX,
    ensures
        numerals(inside(x, y, turn), 0) == (if crate::units::magnitude(turn) < 1000 {
            seq![plain(x), plain(y)]
        } else {
            seq![plain(x), plain(y), plain(turn)]
        }),
        forall|i: int|
            0 <= i < inside(x, y, turn).len() ==> #[trigger] inside(x, y, turn)[i] != ')',
        place_text(x, y, turn) == "(at "@ + inside(x, y, turn) + ")"@,
{
    lemma_clean(x);
    lemma_clean(y);
    lemma_clean(turn);
    if crate::units::magnitude(turn) < 1000 {
        lemma_two_numerals(plain(x), plain(y));
    } else {
        lemma_three_numerals(plain(x), plain(y), plain(turn));
        assert(inside(x, y, turn) =~= plain(x) + seq![' '] + (plain(y) + seq![' '] + plain(turn)));
    }
    lemma_inside_placed(x, y, turn);
}

proof fn lemma_inside_placed(x: int, y: int, turn: int)
    ensures
        place_text(x, y, turn) == "(at "@ + inside(x, y, turn) + ")"@,
{
    reveal_strlit(" ");
    reveal_strlit(")");
    assert(point_text(x, y) =~= plain(x) + seq![' '] + plain(y));
    assert(place_text(x, y, turn) =~= "(at "@ + inside(x, y, turn) + ")"@);
}

proof fn lemma_part_kept(
    text: Seq<char>,
    other: Seq<char>,
    at: int,
    depth: int,
    quoted: bool,
    p: int,
)
    requires
        0 <= at <= p,
        part_from(text, at, depth, quoted, "(at "@) == Some(p),
        p < other.len(),
        text.take(p) == other.take(p),
        matches_at(other, "(at "@, p),
    ensures
        part_from(other, at, depth, quoted, "(at "@) == Some(p),
    decreases text.len() + 1 - at,
{
    reveal_strlit("(at ");
    lemma_part_matches(text, at, depth, quoted);
    if at == p {
        assert(other[p] == '(') by {
            assert(other.subrange(p, p + 4)[0] == '(');
        }
        assert(text[p] == '(') by {
            assert(text.subrange(p, p + 4)[0] == '(');
        }
        lemma_part_here(text, at, depth, quoted);
    } else {
        assert(text[at] == text.take(p)[at]);
        assert(other[at] == other.take(p)[at]);
        assert(at < other.len());
        if quoted {
            if text[at] == '\\' {
                lemma_part_ahead(text, at + 2, depth, true);
                lemma_part_kept(text, other, at + 2, depth, true, p);
            } else {
                lemma_part_ahead(text, at + 1, depth, text[at] != '"');
                lemma_part_kept(text, other, at + 1, depth, text[at] != '"', p);
            }
        } else if text[at] == '"' {
            lemma_part_kept(text, other, at + 1, depth, true, p);
        } else if text[at] == '(' {
            if depth == 1 {
                assert(!matches_at(other, "(at "@, at)) by {
                    if matches_at(other, "(at "@, at) {
                        let o = other.subrange(at, at + 4);
                        if at + 4 <= p {
                            assert(text.subrange(at, at + 4) =~= text.take(p).subrange(at, at + 4));
                            assert(o =~= other.take(p).subrange(at, at + 4));
                            assert(matches_at(text, "(at "@, at));
                        } else {
                            assert(other.subrange(p, p + 4)[0] == '(');
                            assert(other[p] == '(');
                            assert(o[p - at] == other[p]);
                        }
                    }
                }
            }
            lemma_part_kept(text, other, at + 1, depth + 1, false, p);
        } else if text[at] == ')' {
            lemma_part_kept(text, other, at + 1, depth - 1, false, p);
        } else {
            lemma_part_kept(text, other, at + 1, depth, false, p);
        }
    }
}

proof fn lemma_part_ahead(text: Seq<char>, at: int, depth: int, quoted: bool)
    ensures
        part_from(text, at, depth, quoted, "(at "@) matches Some(p) ==> at <= p < text.len(),
    decreases text.len() + 1 - at,
{
    if 0 <= at < text.len() {
        if quoted {
            if text[at] == '\\' {
                lemma_part_ahead(text, at + 2, depth, true);
            } else {
                lemma_part_ahead(text, at + 1, depth, text[at] != '"');
            }
        } else if text[at] == '"' {
            lemma_part_ahead(text, at + 1, depth, true);
        } else if text[at] == '(' {
            lemma_part_ahead(text, at + 1, depth + 1, false);
        } else if text[at] == ')' {
            lemma_part_ahead(text, at + 1, depth - 1, false);
        } else {
            lemma_part_ahead(text, at + 1, depth, false);
        }
    }
}

proof fn lemma_part_matches(text: Seq<char>, at: int, depth: int, quoted: bool)
    ensures
        part_from(text, at, depth, quoted, "(at "@) matches Some(p) ==> matches_at(
            text,
            "(at "@,
            p,
        ),
    decreases text.len() + 1 - at,
{
    if 0 <= at < text.len() {
        if quoted {
            if text[at] == '\\' {
                lemma_part_matches(text, at + 2, depth, true);
            } else {
                lemma_part_matches(text, at + 1, depth, text[at] != '"');
            }
        } else if text[at] == '"' {
            lemma_part_matches(text, at + 1, depth, true);
        } else if text[at] == '(' {
            if !(depth == 1 && matches_at(text, "(at "@, at)) {
                lemma_part_matches(text, at + 1, depth + 1, false);
            }
        } else if text[at] == ')' {
            lemma_part_matches(text, at + 1, depth - 1, false);
        } else {
            lemma_part_matches(text, at + 1, depth, false);
        }
    }
}

proof fn lemma_part_here(text: Seq<char>, at: int, depth: int, quoted: bool)
    requires
        0 <= at < text.len(),
        part_from(text, at, depth, quoted, "(at "@) == Some(at),
    ensures
        !quoted,
        depth == 1,
{
    if quoted {
        lemma_part_ahead(text, at + 2, depth, true);
        lemma_part_ahead(text, at + 1, depth, text[at] != '"');
    } else if text[at] == '"' {
        lemma_part_ahead(text, at + 1, depth, true);
    } else if text[at] == '(' {
        lemma_part_ahead(text, at + 1, depth + 1, false);
    } else if text[at] == ')' {
        lemma_part_ahead(text, at + 1, depth - 1, false);
    } else {
        lemma_part_ahead(text, at + 1, depth, false);
    }
}

/// The turn that a placement keeps: less than a thousandth of a degree is none.
pub open spec fn kept_turn(turn: int) -> int {
    if crate::units::magnitude(turn) < 1000 {
        0
    } else {
        turn
    }
}

/// A part that was moved stands where it was moved to, turned as it was told.
pub proof fn lemma_moved_part_stands(block: Seq<char>, x: int, y: int, turn: int)
    requires
        part(block, "(at "@) is Some,
        i64::MIN <= x <= i64::MAX,
        i64::MIN <= y <= i64::MAX,
        i64::MIN <= turn <= i64::MAX,
    ensures
        stands_at(with_placement(block, place_text(x, y, turn))) == (x, y, kept_turn(turn)),
{
    reveal_strlit("(at ");
    reveal_strlit(")");
    reveal_strlit("0");
    let p = part(block, "(at "@)->0;
    let place = place_text(x, y, turn);
    let new = with_placement(block, place);
    let mid = inside(x, y, turn);
    lemma_part_ahead(block, 0, 0, false);
    lemma_part_matches(block, 0, 0, false);
    lemma_close_bounds(block, p, 0, false);
    lemma_inside(x, y, turn);
    assert(new.take(p) =~= block.take(p));
    assert(new.subrange(p, p + 4) =~= "(at "@);
    assert(matches_at(new, "(at "@, p));
    lemma_part_kept(block, new, 0, 0, false, p);
    let rest = new.skip(p);
    assert(rest.subrange(0, 4) =~= "(at "@);
    assert(matches_at(rest, "(at "@, 0));
    lemma_find_at(rest, "(at "@, 0, 0);
    let close = 4 + mid.len() as int;
    assert forall|i: int| 4 <= i < close implies #[trigger] rest[i] == mid[i - 4] by {
        assert(rest[i] == place[i]);
    }
    assert(rest[close] == ')') by {
        assert(rest[close] == place[close]);
    }
    assert(rest.subrange(close, close + 1) =~= seq![')']);
    assert(matches_at(rest, seq![')'], close));
    assert forall|q: int| 4 <= q < close implies !matches_at(rest, seq![')'], q) by {
        if matches_at(rest, seq![')'], q) {
            assert(rest.subrange(q, q + 1)[0] == ')');
            assert(rest[q] == mid[q - 4]);
        }
    }
    lemma_find_at(rest, seq![')'], 4, close);
    assert(rest.subrange(4, close) =~= mid);
    lemma_number_read_back(x);
    lemma_number_read_back(y);
    lemma_number_read_back(turn);
    assert(nanometres("0"@) == Some(0int)) by {
        lemma_number_read_back(0);
        assert(plain(0) =~= "0"@);
    }
}

/// Whether every bracket of a text opens something else than a keyword does.
spec fn opens_otherwise(head: Seq<char>, keyword: Seq<char>) -> bool {
    forall|q: int|
        0 <= q < head.len() && #[trigger] head[q] == '(' ==> q + 2 < head.len() && (head[q + 1]
            != keyword[1] || head[q + 2] != keyword[2])
}

proof fn lemma_opens_otherwise(a: Seq<char>, b: Seq<char>, keyword: Seq<char>)
    requires
        opens_otherwise(a, keyword),
        opens_otherwise(b, keyword),
    ensures
        opens_otherwise(a + b, keyword),
{
    let t = a + b;
    assert forall|q: int| 0 <= q < t.len() && #[trigger] t[q] == '(' implies q + 2 < t.len() && (t[q
        + 1] != keyword[1] || t[q + 2] != keyword[2]) by {
        if q < a.len() {
            assert(a[q] == '(');
            assert(t[q + 1] == a[q + 1] && t[q + 2] == a[q + 2]);
        } else {
            assert(b[q - a.len()] == '(');
            assert(t[q + 1] == b[q - a.len() + 1] && t[q + 2] == b[q - a.len() + 2]);
        }
    }
}

proof fn lemma_field(head: Seq<char>, keyword: Seq<char>, value: Seq<char>, c: char, rest: Seq<char>)
    requires
        keyword.len() >= 3,
        keyword[0] == '(',
        opens_otherwise(head, keyword),
        forall|i: int| 0 <= i < value.len() ==> #[trigger] value[i] != c,
    ensures
        ({
            let text = head + keyword + value + seq![c] + rest;
            let from = (head.len() + keyword.len()) as int;
            &&& find(text, keyword, 0) == Some(head.len() as int)
            &&& find(text, seq![c], from) == Some(from + value.len())
            &&& text.subrange(from, from + value.len()) == value
        }),
{
    let text = head + keyword + value + seq![c] + rest;
    let h = head.len() as int;
    let from = h + keyword.len();
    let end = from + value.len();
    assert(text.subrange(h, from) =~= keyword);
    assert forall|q: int| 0 <= q < h implies !matches_at(text, keyword, q) by {
        if matches_at(text, keyword, q) {
            let m = text.subrange(q, q + keyword.len());
            assert(m[0] == text[q] && m[1] == text[q + 1] && m[2] == text[q + 2]);
            assert(head[q] == '(');
            assert(text[q + 1] == head[q + 1] && text[q + 2] == head[q + 2]);
        }
    }
    lemma_find_at(text, keyword, 0, h);
    assert(text.subrange(end, end + 1) =~= seq![c]);
    assert forall|q: int| from <= q < end implies !matches_at(text, seq![c], q) by {
        if matches_at(text, seq![c], q) {
            assert(text.subrange(q, q + 1)[0] == c);
            assert(text[q] == value[q - from]);
        }
    }
    lemma_find_at(text, seq![c], from, end);
    assert(text.subrange(from, end) =~= value);
}

proof fn lemma_point_field(head: Seq<char>, keyword: Seq<char>, x: int, y: int, rest: Seq<char>)
    requires
        keyword.len() >= 3,
        keyword[0] == '(',
        opens_otherwise(head, keyword),
        i64::MIN <= x <= i64::MAX,
        i64::MIN <= y <= i64::MAX,
    ensures
        xy_nanometres(head + keyword + point_text(x, y) + seq![')'] + rest, keyword) == Some((x, y)),
{
    reveal_strlit(" ");
    lemma_inside(x, y, 0);
    let mid = inside(x, y, 0);
    assert(point_text(x, y) =~= mid);
    lemma_field(head, keyword, mid, ')', rest);
    lemma_number_read_back(x);
    lemma_number_read_back(y);
}

proof fn lemma_number_field(head: Seq<char>, keyword: Seq<char>, n: int, rest: Seq<char>)
    requires
        keyword.len() >= 3,
        keyword[0] == '(',
        opens_otherwise(head, keyword),
        i64::MIN <= n <= i64::MAX,
    ensures
        number_field(head + keyword + plain(n) + seq![')'] + rest, keyword) == Some(n),
{
    lemma_clean(n);
    let t = plain(n);
    lemma_field(head, keyword, t, ')', rest);
    assert(!is_space(t[0]));
    assert(!is_space(t[t.len() - 1]));
    assert(t.skip(0) =~= t);
    assert(trim(t) == t);
    lemma_number_read_back(n);
}

proof fn lemma_no_brackets(t: Seq<char>, keyword: Seq<char>)
    requires
        forall|i: int| 0 <= i < t.len() ==> #[trigger] t[i] != '(',
    ensures
        opens_otherwise(t, keyword),
{
}

/// What stands before a field of a written trace: the keyword, the fields before it, and
/// the line breaks between them.
spec fn trace_head(p: Proposal, fields: int) -> Seq<char> {
    let h1 = "(segment\n\t\t"@;
    let h2 = h1 + "(start "@ + point_text(p.from.0 as int, p.from.1 as int) + ")\n\t\t"@;
    let h3 = h2 + "(end "@ + point_text(p.to.0 as int, p.to.1 as int) + ")\n\t\t"@;
    let h4 = h3 + "(width "@ + plain(p.width as int) + ")\n\t\t"@;
    let h5 = h4 + "(layer \""@ + p.layer@ + "\")\n\t\t"@;
    if fields == 0 {
        h1
    } else if fields == 1 {
        h2
    } else if fields == 2 {
        h3
    } else if fields == 3 {
        h4
    } else {
        h5
    }
}

/// Whether a text can stand in quotation marks and is no expression of its own.
pub open spec fn is_simple(t: Seq<char>) -> bool {
    forall|i: int| 0 <= i < t.len() ==> #[trigger] t[i] != '"' && t[i] != '('
}

proof fn lemma_point_without_brackets(x: int, y: int, keyword: Seq<char>)
    ensures
        opens_otherwise(point_text(x, y), keyword),
{
    reveal_strlit(" ");
    lemma_plain_characters(x);
    lemma_plain_characters(y);
    let t = point_text(x, y);
    let a = plain(x).len() as int;
    assert(t =~= plain(x) + seq![' '] + plain(y));
    assert forall|i: int| 0 <= i < t.len() implies #[trigger] t[i] != '(' by {
        if i < a {
            assert(t[i] == plain(x)[i]);
        } else if i > a {
            assert(t[i] == plain(y)[i - a - 1]);
        }
    }
}

proof fn lemma_grown_head(head: Seq<char>, word: Seq<char>, value: Seq<char>, gap: Seq<char>, keyword: Seq<char>)
    requires
        opens_otherwise(head, keyword),
        opens_otherwise(word, keyword),
        opens_otherwise(value, keyword),
        opens_otherwise(gap, keyword),
    ensures
        opens_otherwise(head + word + value + gap, keyword),
{
    lemma_opens_otherwise(head, word, keyword);
    lemma_opens_otherwise(head + word, value, keyword);
    lemma_opens_otherwise(head + word + value, gap, keyword);
}

/// The words that begin the fields of a trace.
spec fn is_other_word(word: Seq<char>, keyword: Seq<char>) -> bool {
    &&& word.len() >= 3
    &&& word[0] == '('
    &&& word[1] != keyword[1] || word[2] != keyword[2]
    &&& forall|i: int| 1 <= i < word.len() ==> #[trigger] word[i] != '('
}

proof fn lemma_other_word(word: Seq<char>, keyword: Seq<char>)
    requires
        is_other_word(word, keyword),
    ensures
        opens_otherwise(word, keyword),
{
}

proof fn lemma_trace_heads(p: Proposal, keyword: Seq<char>, fields: int)
    requires
        0 <= fields <= 4,
        is_simple(p.layer@),
        is_other_word("(segment\n\t\t"@, keyword),
        fields >= 1 ==> is_other_word("(start "@, keyword),
        fields >= 2 ==> is_other_word("(end "@, keyword),
        fields >= 3 ==> is_other_word("(width "@, keyword),
        fields >= 4 ==> is_other_word("(layer \""@, keyword),
    ensures
        opens_otherwise(trace_head(p, fields), keyword),
{
    reveal_strlit(")\n\t\t");
    reveal_strlit("\")\n\t\t");
    let gap = ")\n\t\t"@;
    let from = point_text(p.from.0 as int, p.from.1 as int);
    let to = point_text(p.to.0 as int, p.to.1 as int);
    lemma_point_without_brackets(p.from.0 as int, p.from.1 as int, keyword);
    lemma_point_without_brackets(p.to.0 as int, p.to.1 as int, keyword);
    lemma_plain_characters(p.width as int);
    lemma_no_brackets(plain(p.width as int), keyword);
    lemma_no_brackets(gap, keyword);
    lemma_no_brackets("\")\n\t\t"@, keyword);
    lemma_no_brackets(p.layer@, keyword);
    lemma_other_word("(segment\n\t\t"@, keyword);
    if fields >= 1 {
        lemma_other_word("(start "@, keyword);
        lemma_grown_head(trace_head(p, 0), "(start "@, from, gap, keyword);
    }
    if fields >= 2 {
        lemma_other_word("(end "@, keyword);
        lemma_grown_head(trace_head(p, 1), "(end "@, to, gap, keyword);
    }
    if fields >= 3 {
        lemma_other_word("(width "@, keyword);
        lemma_grown_head(trace_head(p, 2), "(width "@, plain(p.width as int), gap, keyword);
    }
    if fields >= 4 {
        lemma_other_word("(layer \""@, keyword);
        lemma_grown_head(
            trace_head(p, 3),
            "(layer \""@,
            p.layer@,
            "\")\n\t\t"@,
            keyword,
        );
    }
}

/// What stands behind a field of a written trace and the mark that closes it.
spec fn trace_rest(p: Proposal, stamp: Seq<char>, fields: int) -> Seq<char> {
    let r5 = ")\n\t\t(uuid \""@ + (stamp + "\")\n\t)"@);
    let r4 = ")\n\t\t(net \""@ + (p.net@ + (seq!['"'] + r5));
    let r3 = "\n\t\t(layer \""@ + (p.layer@ + (seq!['"'] + r4));
    let r2 = "\n\t\t(width "@ + (plain(p.width as int) + (seq![')'] + r3));
    let r1 = "\n\t\t(end "@ + (point_text(p.to.0 as int, p.to.1 as int) + (seq![')'] + r2));
    if fields == 0 {
        r1
    } else if fields == 1 {
        r2
    } else if fields == 2 {
        r3
    } else if fields == 3 {
        r4
    } else {
        r5
    }
}

proof fn lemma_either_way(a: Seq<char>, b: Seq<char>, c: Seq<char>)
    ensures
        a + b + c == a + (b + c),
{
    assert(a + b + c =~= a + (b + c));
}

/// From one field of a written trace to the next.
proof fn lemma_next_field(
    head: Seq<char>,
    word: Seq<char>,
    value: Seq<char>,
    mark: Seq<char>,
    gap: Seq<char>,
    next: Seq<char>,
    rest: Seq<char>,
)
    ensures
        head + word + value + mark + (gap + next + rest) == (head + word + value + (mark + gap))
            + next + rest,
{
    let h = head + word + value;
    lemma_either_way(h, mark, gap + next + rest);
    lemma_either_way(gap, next, rest);
    lemma_either_way(mark, gap, next + rest);
    lemma_either_way(h, mark + gap, next + rest);
    lemma_either_way(h + (mark + gap), next, rest);
}

/// A text from its pieces, taken from either end.
proof fn lemma_pieces(
    a: Seq<char>,
    b: Seq<char>,
    c: Seq<char>,
    d: Seq<char>,
    e: Seq<char>,
    f: Seq<char>,
    g: Seq<char>,
)
    ensures
        a + b + c + d + e + f + g == a + (b + (c + (d + (e + (f + g))))),
{
    lemma_either_way(a + b + c + d + e, f, g);
    lemma_either_way(a + b + c + d, e, f + g);
    lemma_either_way(a + b + c, d, e + (f + g));
    lemma_either_way(a + b, c, d + (e + (f + g)));
    lemma_either_way(a, b, c + (d + (e + (f + g))));
}

/// The block of a written trace, from its first field on.
proof fn lemma_trace_block(p: Proposal, stamp: Seq<char>)
    ensures
        trace_text(p, stamp).skip(1) == trace_head(p, 0) + "(start "@ + point_text(
            p.from.0 as int,
            p.from.1 as int,
        ) + seq![')'] + trace_rest(p, stamp, 0),
{
    let head = "\t(segment\n\t\t(start "@;
    let from = point_text(p.from.0 as int, p.from.1 as int);
    let to = point_text(p.to.0 as int, p.to.1 as int);
    let width = plain(p.width as int);
    let b = ")\n\t\t(end "@;
    let c = ")\n\t\t(width "@;
    let d = ")\n\t\t(layer \""@;
    let e = "\")\n\t\t(net \""@;
    let f = "\")\n\t\t(uuid \""@;
    let g = "\")\n\t)"@;
    assert(head == seq!['\t'] + (trace_head(p, 0) + "(start "@)) by {
        reveal_strlit("\t(segment\n\t\t(start ");
        reveal_strlit("(segment\n\t\t");
        reveal_strlit("(start ");
        assert(head =~= seq!['\t'] + (trace_head(p, 0) + "(start "@));
    }
    assert(b == seq![')'] + "\n\t\t(end "@) by {
        reveal_strlit(")\n\t\t(end ");
        reveal_strlit("\n\t\t(end ");
        assert(b =~= seq![')'] + "\n\t\t(end "@);
    }
    assert(c == seq![')'] + "\n\t\t(width "@) by {
        reveal_strlit(")\n\t\t(width ");
        reveal_strlit("\n\t\t(width ");
        assert(c =~= seq![')'] + "\n\t\t(width "@);
    }
    assert(d == seq![')'] + "\n\t\t(layer \""@) by {
        reveal_strlit(")\n\t\t(layer \"");
        reveal_strlit("\n\t\t(layer \"");
        assert(d =~= seq![')'] + "\n\t\t(layer \""@);
    }
    assert(e == seq!['"'] + ")\n\t\t(net \""@) by {
        reveal_strlit("\")\n\t\t(net \"");
        reveal_strlit(")\n\t\t(net \"");
        assert(e =~= seq!['"'] + ")\n\t\t(net \""@);
    }
    assert(f == seq!['"'] + ")\n\t\t(uuid \""@) by {
        reveal_strlit("\")\n\t\t(uuid \"");
        reveal_strlit(")\n\t\t(uuid \"");
        assert(f =~= seq!['"'] + ")\n\t\t(uuid \""@);
    }
    let front = head + from + b + to + c + width;
    lemma_pieces(front + d, p.layer@, e, p.net@, f, stamp, g);
    let end5 = f + (stamp + g);
    let end4 = e + (p.net@ + end5);
    let end3 = d + (p.layer@ + end4);
    let end2 = c + (width + end3);
    let end1 = b + (to + end2);
    lemma_either_way(front, d, p.layer@ + end4);
    lemma_pieces(head, from, b, to, c, width, end3);
    assert(trace_text(p, stamp) == head + (from + end1));
    lemma_either_way(seq!['"'], ")\n\t\t(uuid \""@, stamp + g);
    lemma_either_way(seq!['"'], ")\n\t\t(net \""@, p.net@ + end5);
    lemma_either_way(seq![')'], "\n\t\t(layer \""@, p.layer@ + end4);
    lemma_either_way(seq![')'], "\n\t\t(width "@, width + end3);
    lemma_either_way(seq![')'], "\n\t\t(end "@, to + end2);
    assert(end1 == seq![')'] + trace_rest(p, stamp, 0));
    let start = trace_head(p, 0) + "(start "@;
    let tail = from + end1;
    assert((seq!['\t'] + start + tail).skip(1) =~= start + tail);
    lemma_either_way(start, from, end1);
    lemma_either_way(start + from, seq![')'], trace_rest(p, stamp, 0));
}

/// How the block of a written trace reads around each of its fields.
proof fn lemma_trace_parts(p: Proposal, stamp: Seq<char>)
    ensures
        ({
            let block = trace_text(p, stamp).skip(1);
            let from = point_text(p.from.0 as int, p.from.1 as int);
            let to = point_text(p.to.0 as int, p.to.1 as int);
            &&& block == trace_head(p, 0) + "(start "@ + from + seq![')'] + trace_rest(p, stamp, 0)
            &&& block == trace_head(p, 1) + "(end "@ + to + seq![')'] + trace_rest(p, stamp, 1)
            &&& block == trace_head(p, 2) + "(width "@ + plain(p.width as int) + seq![')']
                + trace_rest(p, stamp, 2)
            &&& block == trace_head(p, 3) + "(layer \""@ + p.layer@ + seq!['"'] + trace_rest(
                p,
                stamp,
                3,
            )
            &&& block == trace_head(p, 4) + "(net \""@ + p.net@ + seq!['"'] + trace_rest(p, stamp, 4)
        }),
{
    let from = point_text(p.from.0 as int, p.from.1 as int);
    let to = point_text(p.to.0 as int, p.to.1 as int);
    let width = plain(p.width as int);
    let tail = "\n\t\t"@;
    let quoted_tail = ")\n\t\t"@;
    assert(")\n\t\t"@ == seq![')'] + tail && "\")\n\t\t"@ == seq!['"'] + quoted_tail
        && "\n\t\t(end "@ == tail + "(end "@ && "\n\t\t(width "@ == tail + "(width "@
        && "\n\t\t(layer \""@ == tail + "(layer \""@ && ")\n\t\t(net \""@ == quoted_tail
        + "(net \""@) by {
        reveal_strlit("\n\t\t");
        reveal_strlit(")\n\t\t");
        reveal_strlit("\")\n\t\t");
        reveal_strlit("\n\t\t(end ");
        reveal_strlit("(end ");
        reveal_strlit("\n\t\t(width ");
        reveal_strlit("(width ");
        reveal_strlit("\n\t\t(layer \"");
        reveal_strlit("(layer \"");
        reveal_strlit(")\n\t\t(net \"");
        reveal_strlit("(net \"");
        assert(")\n\t\t"@ =~= seq![')'] + tail);
        assert("\")\n\t\t"@ =~= seq!['"'] + quoted_tail);
        assert("\n\t\t(end "@ =~= tail + "(end "@);
        assert("\n\t\t(width "@ =~= tail + "(width "@);
        assert("\n\t\t(layer \""@ =~= tail + "(layer \""@);
        assert(")\n\t\t(net \""@ =~= quoted_tail + "(net \""@);
    }
    lemma_trace_block(p, stamp);
    let r1 = to + (seq![')'] + trace_rest(p, stamp, 1));
    let r2 = width + (seq![')'] + trace_rest(p, stamp, 2));
    let r3 = p.layer@ + (seq!['"'] + trace_rest(p, stamp, 3));
    let r4 = p.net@ + (seq!['"'] + trace_rest(p, stamp, 4));
    lemma_next_field(trace_head(p, 0), "(start "@, from, seq![')'], tail, "(end "@, r1);
    lemma_three(trace_head(p, 1) + "(end "@, to, seq![')'], trace_rest(p, stamp, 1));
    lemma_next_field(trace_head(p, 1), "(end "@, to, seq![')'], tail, "(width "@, r2);
    lemma_three(trace_head(p, 2) + "(width "@, width, seq![')'], trace_rest(p, stamp, 2));
    lemma_next_field(trace_head(p, 2), "(width "@, width, seq![')'], tail, "(layer \""@, r3);
    lemma_three(trace_head(p, 3) + "(layer \""@, p.layer@, seq!['"'], trace_rest(p, stamp, 3));
    lemma_next_field(
        trace_head(p, 3),
        "(layer \""@,
        p.layer@,
        seq!['"'],
        quoted_tail,
        "(net \""@,
        r4,
    );
    lemma_three(trace_head(p, 4) + "(net \""@, p.net@, seq!['"'], trace_rest(p, stamp, 4));
}

proof fn lemma_three(a: Seq<char>, b: Seq<char>, c: Seq<char>, d: Seq<char>)
    ensures
        a + b + c + d == a + (b + (c + d)),
{
    lemma_either_way(a + b, c, d);
    lemma_either_way(a, b, c + d);
}

proof fn lemma_trace_start(p: Proposal, stamp: Seq<char>)
    requires
        is_simple(p.layer@),
    ensures
        xy_nanometres(trace_text(p, stamp).skip(1), "(start "@) == Some(
            (p.from.0 as int, p.from.1 as int),
        ),
{
    lemma_trace_parts(p, stamp);
    assert(opens_otherwise(trace_head(p, 0), "(start "@) && "(start "@.len() >= 3 && "(start "@[0] == '(') by {
        reveal_strlit("(segment\n\t\t");
        reveal_strlit("(start ");
        lemma_trace_heads(p, "(start "@, 0);
    }
    lemma_point_field(
        trace_head(p, 0),
        "(start "@,
        p.from.0 as int,
        p.from.1 as int,
        trace_rest(p, stamp, 0),
    );
}

proof fn lemma_trace_end(p: Proposal, stamp: Seq<char>)
    requires
        is_simple(p.layer@),
    ensures
        xy_nanometres(trace_text(p, stamp).skip(1), "(end "@) == Some(
            (p.to.0 as int, p.to.1 as int),
        ),
{
    lemma_trace_parts(p, stamp);
    assert(opens_otherwise(trace_head(p, 1), "(end "@) && "(end "@.len() >= 3 && "(end "@[0] == '(') by {
        reveal_strlit("(segment\n\t\t");
        reveal_strlit("(start ");
        reveal_strlit("(end ");
        lemma_trace_heads(p, "(end "@, 1);
    }
    lemma_point_field(
        trace_head(p, 1),
        "(end "@,
        p.to.0 as int,
        p.to.1 as int,
        trace_rest(p, stamp, 1),
    );
}

proof fn lemma_trace_width(p: Proposal, stamp: Seq<char>)
    requires
        is_simple(p.layer@),
    ensures
        number_field(trace_text(p, stamp).skip(1), "(width "@) == Some(p.width as int),
{
    lemma_trace_parts(p, stamp);
    assert(opens_otherwise(trace_head(p, 2), "(width "@) && "(width "@.len() >= 3 && "(width "@[0] == '(') by {
        reveal_strlit("(segment\n\t\t");
        reveal_strlit("(start ");
        reveal_strlit("(end ");
        reveal_strlit("(width ");
        lemma_trace_heads(p, "(width "@, 2);
    }
    lemma_number_field(trace_head(p, 2), "(width "@, p.width as int, trace_rest(p, stamp, 2));
}

proof fn lemma_trace_layer(p: Proposal, stamp: Seq<char>)
    requires
        is_simple(p.layer@),
    ensures
        quoted_after(trace_text(p, stamp).skip(1), "(layer \""@) == Some(p.layer@),
{
    lemma_trace_parts(p, stamp);
    assert(opens_otherwise(trace_head(p, 3), "(layer \""@) && "(layer \""@.len() >= 3 && "(layer \""@[0] == '(') by {
        reveal_strlit("(segment\n\t\t");
        reveal_strlit("(start ");
        reveal_strlit("(end ");
        reveal_strlit("(width ");
        reveal_strlit("(layer \"");
        lemma_trace_heads(p, "(layer \""@, 3);
    }
    lemma_field(trace_head(p, 3), "(layer \""@, p.layer@, '"', trace_rest(p, stamp, 3));
}

#[verifier::rlimit(80)]
proof fn lemma_trace_net(p: Proposal, stamp: Seq<char>)
    requires
        is_simple(p.layer@),
        is_simple(p.net@),
    ensures
        quoted_after(trace_text(p, stamp).skip(1), "(net \""@) == Some(p.net@),
{
    lemma_trace_parts(p, stamp);
    assert(opens_otherwise(trace_head(p, 4), "(net \""@) && "(net \""@.len() >= 3 && "(net \""@[0] == '(') by {
        reveal_strlit("(segment\n\t\t");
        reveal_strlit("(start ");
        reveal_strlit("(end ");
        reveal_strlit("(width ");
        reveal_strlit("(layer \"");
        reveal_strlit("(net \"");
        lemma_trace_heads(p, "(net \""@, 4);
    }
    lemma_field(trace_head(p, 4), "(net \""@, p.net@, '"', trace_rest(p, stamp, 4));
}

/// A trace that was written is read with the ends, the layer, the width and the net that
/// it was given.
pub proof fn lemma_trace_read_back(p: Proposal, stamp: Seq<char>)
    requires
        is_simple(p.layer@),
        is_simple(p.net@),
    ensures
        segment_of(trace_text(p, stamp).skip(1)) == Some(
            SegmentModel {
                from: (p.from.0 as int, p.from.1 as int),
                to: (p.to.0 as int, p.to.1 as int),
                layer: p.layer@,
                net: p.net@,
                width: p.width as int,
            },
        ),
{
    lemma_trace_start(p, stamp);
    lemma_trace_end(p, stamp);
    lemma_trace_width(p, stamp);
    lemma_trace_layer(p, stamp);
    lemma_trace_net(p, stamp);
}

} // verus!
