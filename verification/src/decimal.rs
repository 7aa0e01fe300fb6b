//! Decimal numerals as they stand in a KiCad file, and the lengths they denote.
//!
//! A length is held in nanometres, the resolution in which KiCad stores its boards.

use vstd::arithmetic::power::{lemma_pow0, lemma_pow1, lemma_pow_adds, lemma_pow_increases, lemma_pow_positive, pow};
use vstd::prelude::*;
use vstd::slice::slice_subrange;

verus! {

/// What a numeral denotes.
pub enum Numeral {
    /// The digits, read as one whole number, times ten to the power of `exponent`.
    Finite { negative: bool, digits: Seq<char>, exponent: int },
    /// A value beyond every number.
    Infinite { negative: bool },
    /// No number at all, though the numeral is well formed.
    Undefined,
}

/// Whether a character is one of the ten decimal digits.
pub open spec fn is_digit(c: char) -> bool {
    '0' <= c && c <= '9'
}

/// The whole number that a run of digits denotes.
pub open spec fn digits_value(digits: Seq<char>) -> nat
    decreases digits.len(),
{
    if digits.len() == 0 {
        0
    } else {
        digits_value(digits.drop_last()) * 10 + (digits.last() as nat - '0' as nat) as nat
    }
}

/// Where the run of digits that starts at `from` ends.
pub open spec fn digits_end(text: Seq<char>, from: int) -> int
    decreases text.len() - from,
{
    if 0 <= from < text.len() && is_digit(text[from]) {
        digits_end(text, from + 1)
    } else {
        from
    }
}

/// The character with `A` to `Z` made small.
pub open spec fn small(c: char) -> char {
    if 'A' <= c && c <= 'Z' {
        ((c as u32 + 32) as u32) as char
    } else {
        c
    }
}

/// Whether two texts are the same but for the size of the letters `A` to `Z`.
pub open spec fn same_but_size(text: Seq<char>, word: Seq<char>) -> bool {
    text.map_values(|c: char| small(c)) == word
}

/// Whether a sign stands in front.
pub open spec fn is_signed(text: Seq<char>) -> bool {
    text.len() > 0 && (text[0] == '-' || text[0] == '+')
}

/// The power of ten that `text` asks for from position `at` on, where an
/// exponent may stand: none if nothing well formed stands there.
pub open spec fn exponent_at(text: Seq<char>, at: int) -> Option<int> {
    if at == text.len() {
        Some(0)
    } else if text[at] != 'e' && text[at] != 'E' {
        None
    } else {
        let rest = text.skip(at + 1);
        let digits = if is_signed(rest) {
            rest.skip(1)
        } else {
            rest
        };
        if digits.len() == 0 || digits_end(digits, 0) != digits.len() {
            None
        } else if rest[0] == '-' {
            Some(-(digits_value(digits) as int))
        } else {
            Some(digits_value(digits) as int)
        }
    }
}

/// What the unsigned numeral `text` denotes.
pub open spec fn magnitude(text: Seq<char>, negative: bool) -> Option<Numeral> {
    let whole = digits_end(text, 0);
    let dotted = whole < text.len() && text[whole] == '.';
    let end = if dotted {
        digits_end(text, whole + 1)
    } else {
        whole
    };
    let fraction = if dotted {
        text.subrange(whole + 1, end)
    } else {
        Seq::<char>::empty()
    };
    let digits = text.take(whole) + fraction;
    if digits.len() == 0 {
        if same_but_size(text, "inf"@) || same_but_size(text, "infinity"@) {
            Some(Numeral::Infinite { negative })
        } else if same_but_size(text, "nan"@) {
            Some(Numeral::Undefined)
        } else {
            None
        }
    } else {
        match exponent_at(text, end) {
            Some(e) => Some(
                Numeral::Finite { negative, digits, exponent: e - fraction.len() },
            ),
            None => None,
        }
    }
}

/// What `text` denotes, if it is a numeral.
pub open spec fn numeral(text: Seq<char>) -> Option<Numeral> {
    if is_signed(text) {
        magnitude(text.skip(1), text[0] == '-')
    } else {
        magnitude(text, false)
    }
}

/// `m` times ten to the power of `e`, cut down to a whole number.
pub open spec fn scaled(m: nat, e: int) -> nat {
    if e >= 0 {
        (m * pow(10, e as nat)) as nat
    } else {
        (m as int / pow(10, (-e) as nat)) as nat
    }
}

/// The nearest number that fits 64 bits.
pub open spec fn fit(v: int) -> int {
    if v < i64::MIN {
        i64::MIN as int
    } else if v > i64::MAX {
        i64::MAX as int
    } else {
        v
    }
}

/// The length, in whole nanometres, of what a numeral denotes in millimetres.
/// A length halfway between two nanometres goes to the one farther from zero.
pub open spec fn numeral_nanometres(n: Numeral) -> int {
    match n {
        Numeral::Finite { negative, digits, exponent } => {
            let size = (scaled(digits_value(digits), exponent + 7) as int + 5) / 10;
            fit(
                if negative {
                    -size
                } else {
                    size
                },
            )
        },
        Numeral::Infinite { negative } => if negative {
            i64::MIN as int
        } else {
            i64::MAX as int
        },
        Numeral::Undefined => 0,
    }
}

/// The length in nanometres that `text` gives in millimetres, if it is a numeral.
pub open spec fn nanometres(text: Seq<char>) -> Option<int> {
    match numeral(text) {
        Some(n) => Some(numeral_nanometres(n)),
        None => None,
    }
}

/// More than ten times any length that fits 64 bits.
const CEILING: u128 = 100_000_000_000_000_000_000;

/// More than the number of characters that any text can have.
const LARGE: u128 = 1_000_000_000_000_000_000_000_000_000_000;

spec fn capped(v: int, cap: int) -> int {
    if v < cap {
        v
    } else {
        cap
    }
}

proof fn lemma_digits_end(text: Seq<char>, from: int)
    requires
        0 <= from <= text.len(),
    ensures
        from <= digits_end(text, from) <= text.len(),
        forall|i: int| from <= i < digits_end(text, from) ==> is_digit(#[trigger] text[i]),
        digits_end(text, from) < text.len() ==> !is_digit(text[digits_end(text, from)]),
    decreases text.len() - from,
{
    if from < text.len() && is_digit(text[from]) {
        lemma_digits_end(text, from + 1);
    }
}

proof fn lemma_digits_value_bound(digits: Seq<char>)
    requires
        forall|i: int| 0 <= i < digits.len() ==> is_digit(#[trigger] digits[i]),
    ensures
        digits_value(digits) < pow(10, digits.len()),
    decreases digits.len(),
{
    if digits.len() == 0 {
        lemma_pow0(10);
    } else {
        lemma_digits_value_bound(digits.drop_last());
        lemma_pow1(10);
        lemma_pow_adds(10, (digits.len() - 1) as nat, 1);
        assert(is_digit(digits.last()));
    }
}

/// Cutting the last `k` digits off a run of digits divides it by ten to the `k`.
proof fn lemma_cut_digits(digits: Seq<char>, k: nat)
    requires
        k <= digits.len(),
        forall|i: int| 0 <= i < digits.len() ==> is_digit(#[trigger] digits[i]),
    ensures
        digits_value(digits) as int / pow(10, k) == digits_value(digits.take(digits.len() - k)),
    decreases k,
{
    if k == 0 {
        lemma_pow0(10);
        assert(digits.take(digits.len() as int) =~= digits);
        assert(digits_value(digits) as int / 1 == digits_value(digits));
    } else {
        let front = digits.drop_last();
        lemma_cut_digits(front, (k - 1) as nat);
        assert(front.take(front.len() - (k - 1)) =~= digits.take(digits.len() - k));
        assert(is_digit(digits.last()));
        let d: int = digits.last() as int - '0' as int;
        let v: int = digits_value(front) as int;
        lemma_pow1(10);
        lemma_pow_adds(10, 1, (k - 1) as nat);
        lemma_pow_positive(10, (k - 1) as nat);
        let p: int = pow(10, (k - 1) as nat);
        vstd::arithmetic::div_mod::lemma_div_denominator(v * 10 + d, 10, p);
        assert((v * 10 + d) / 10 == v) by (nonlinear_arith)
            requires
                0 <= d < 10,
        ;
    }
}

fn small_char(c: char) -> (r: char)
    ensures
        r == small(c),
{
    match c {
        'A' => 'a', 'B' => 'b', 'C' => 'c', 'D' => 'd', 'E' => 'e', 'F' => 'f', 'G' => 'g',
        'H' => 'h', 'I' => 'i', 'J' => 'j', 'K' => 'k', 'L' => 'l', 'M' => 'm', 'N' => 'n',
        'O' => 'o', 'P' => 'p', 'Q' => 'q', 'R' => 'r', 'S' => 's', 'T' => 't', 'U' => 'u',
        'V' => 'v', 'W' => 'w', 'X' => 'x', 'Y' => 'y', 'Z' => 'z',
        _ => c,
    }
}

/// Whether `text` is the word, whatever the size of its letters.
fn is_word(text: &[char], word: &str) -> (yes: bool)
    ensures
        yes == same_but_size(text@, word@),
{
    let wanted = crate::text::to_chars(word);
    if text.len() != wanted.len() {
        proof {
            assert(text@.map_values(|c: char| small(c)).len() == text@.len());
        }
        return false;
    }
    let mut i: usize = 0;
    while i < text.len()
        invariant
            i <= text.len(),
            text.len() == wanted.len(),
            wanted@ == word@,
            forall|j: int| 0 <= j < i ==> small(text@[j]) == wanted@[j],
        decreases text.len() - i,
    {
        if small_char(text[i]) != wanted[i] {
            proof {
                assert(text@.map_values(|c: char| small(c))[i as int] == small(text@[i as int]));
            }
            return false;
        }
        i += 1;
    }
    proof {
        assert(text@.map_values(|c: char| small(c)) =~= word@);
    }
    true
}

fn end_of_digits(text: &[char], from: usize) -> (end: usize)
    requires
        from <= text@.len(),
    ensures
        end == digits_end(text@, from as int),
        from <= end <= text@.len(),
{
    let mut i: usize = from;
    while i < text.len() && '0' <= text[i] && text[i] <= '9'
        invariant
            from <= i <= text.len(),
            digits_end(text@, from as int) == digits_end(text@, i as int),
        decreases text.len() - i,
    {
        i += 1;
    }
    i
}

fn digit_of(c: char) -> (d: u128)
    requires
        is_digit(c),
    ensures
        d == c as int - '0' as int,
        d < 10,
{
    (c as u32 - '0' as u32) as u128
}

/// The value of a run of digits, or `cap` if that is less.
fn capped_value(digits: &[char], cap: u128) -> (v: u128)
    requires
        forall|i: int| 0 <= i < digits@.len() ==> is_digit(#[trigger] digits@[i]),
        cap <= LARGE,
    ensures
        v == capped(digits_value(digits@) as int, cap as int),
{
    let mut v: u128 = 0;
    let mut i: usize = 0;
    proof {
        assert(digits@.take(0) =~= Seq::<char>::empty());
    }
    while i < digits.len()
        invariant
            i <= digits.len(),
            forall|j: int| 0 <= j < digits@.len() ==> is_digit(#[trigger] digits@[j]),
            cap <= LARGE,
            v == capped(digits_value(digits@.take(i as int)) as int, cap as int),
        decreases digits.len() - i,
    {
        proof {
            assert(digits@.take(i + 1).drop_last() =~= digits@.take(i as int));
            assert(is_digit(digits@[i as int]));
        }
        v = v * 10 + digit_of(digits[i]);
        if v > cap {
            v = cap;
        }
        i += 1;
    }
    proof {
        assert(digits@.take(digits@.len() as int) =~= digits@);
    }
    v
}

/// The power of ten that `text` asks for from `at` on, with a power beyond
/// every text's length cut down to the least such power.
fn exponent(text: &[char], at: usize) -> (e: Option<i128>)
    requires
        at <= text@.len(),
    ensures
        e is Some == exponent_at(text@, at as int) is Some,
        e matches Some(v) ==> {
            let want = exponent_at(text@, at as int)->0;
            &&& -(LARGE as int) <= v <= LARGE
            &&& v == want || (v == LARGE && want >= LARGE) || (v == -(LARGE as int) && want <= -(
            LARGE as int))
        },
{
    if at == text.len() {
        return Some(0);
    }
    if text[at] != 'e' && text[at] != 'E' {
        return None;
    }
    let rest = slice_subrange(text, at + 1, text.len());
    proof {
        assert(rest@ =~= text@.skip(at + 1));
    }
    if rest.len() == 0 {
        return None;
    }
    let signed: bool = rest[0] == '-' || rest[0] == '+';
    let digits = if signed {
        slice_subrange(rest, 1, rest.len())
    } else {
        rest
    };
    proof {
        if signed {
            assert(digits@ =~= rest@.skip(1));
        }
    }
    if digits.len() == 0 || end_of_digits(digits, 0) != digits.len() {
        return None;
    }
    proof {
        lemma_digits_end(digits@, 0);
    }
    let size: i128 = capped_value(digits, LARGE) as i128;
    if rest[0] == '-' {
        Some(-size)
    } else {
        Some(size)
    }
}

proof fn lemma_capped_zero(digits: Seq<char>, e: int, zeros: nat)
    requires
        e >= zeros,
        zeros >= 20,
        digits_value(digits) >= 1,
    ensures
        scaled(digits_value(digits), e) >= CEILING,
{
    lemma_pow_increases(10, 20, e as nat);
    assert(pow(10, 20) == CEILING) by {
        reveal_with_fuel(pow, 21);
    }
    let m: int = digits_value(digits) as int;
    let p: int = pow(10, e as nat);
    assert(m * p >= p) by (nonlinear_arith)
        requires
            m >= 1,
            p >= 0,
    ;
}

/// Ten to the power of `e` times the digits, cut down to a whole number, or
/// `CEILING` if that is less.
fn capped_scaled(digits: &[char], e: i128) -> (v: u128)
    requires
        forall|i: int| 0 <= i < digits@.len() ==> is_digit(#[trigger] digits@[i]),
        -(4 * LARGE as int) <= e <= 4 * LARGE,
    ensures
        v == capped(scaled(digits_value(digits@), e as int) as int, CEILING as int),
{
    let count: i128 = digits.len() as i128;
    if e < 0 {
        if count <= -e {
            proof {
                lemma_digits_value_bound(digits@);
                lemma_pow_increases(10, digits@.len(), (-e) as nat);
                let m: int = digits_value(digits@) as int;
                let p: int = pow(10, (-e) as nat);
                assert(m / p == 0) by (nonlinear_arith)
                    requires
                        0 <= m < p,
                ;
            }
            return 0;
        }
        let kept: usize = (count + e) as usize;
        let front = slice_subrange(digits, 0, kept);
        proof {
            lemma_cut_digits(digits@, (-e) as nat);
            assert(front@ =~= digits@.take(digits@.len() - (-e)));
            assert forall|i: int| 0 <= i < front@.len() implies is_digit(#[trigger] front@[i]) by {
                assert(is_digit(digits@[i]));
            }
        }
        return capped_value(front, CEILING);
    }
    let mut v: u128 = capped_value(digits, CEILING);
    let mut left: i128 = e;
    proof {
        lemma_pow0(10);
        assert(scaled(digits_value(digits@), 0) == digits_value(digits@)) by (nonlinear_arith)
            requires
                pow(10, 0) == 1,
                scaled(digits_value(digits@), 0) == digits_value(digits@) * pow(10, 0),
        ;
    }
    while left > 0 && v != 0 && v < CEILING
        invariant
            0 <= left <= e,
            v == capped(scaled(digits_value(digits@), e - left) as int, CEILING as int),
        decreases left,
    {
        proof {
            lemma_pow1(10);
            lemma_pow_adds(10, (e - left) as nat, 1);
            let m: int = digits_value(digits@) as int;
            let p: int = pow(10, (e - left) as nat);
            lemma_pow_positive(10, (e - left) as nat);
            assert(pow(10, (e - left + 1) as nat) == p * 10);
            assert(m * (p * 10) == (m * p) * 10) by (nonlinear_arith);
            assert(m * p >= 0) by (nonlinear_arith)
                requires
                    m >= 0,
                    p >= 0,
            ;
        }
        v = v * 10;
        if v > CEILING {
            v = CEILING;
        }
        left -= 1;
    }
    proof {
        let m: int = digits_value(digits@) as int;
        let p: int = pow(10, (e - left) as nat);
        let q: int = pow(10, left as nat);
        lemma_pow_adds(10, (e - left) as nat, left as nat);
        lemma_pow_positive(10, left as nat);
        lemma_pow_positive(10, (e - left) as nat);
        assert(m * (p * q) == (m * p) * q) by (nonlinear_arith);
        if v == 0 {
            assert((m * p) * q == 0) by (nonlinear_arith)
                requires
                    m * p == 0,
            ;
        } else if left > 0 {
            assert((m * p) * q >= m * p) by (nonlinear_arith)
                requires
                    m * p >= 0,
                    q >= 1,
            ;
        }
    }
    v
}

fn magnitude_nanometres(text: &[char], negative: bool) -> (length: Option<i64>)
    ensures
        length is Some == magnitude(text@, negative) is Some,
        length matches Some(v) ==> v == numeral_nanometres(magnitude(text@, negative)->0),
{
    let whole: usize = end_of_digits(text, 0);
    let dotted: bool = whole < text.len() && text[whole] == '.';
    let end: usize = if dotted {
        end_of_digits(text, whole + 1)
    } else {
        whole
    };
    let mut digits: Vec<char> = Vec::new();
    crate::text::extend(&mut digits, slice_subrange(text, 0, whole));
    let mut places: usize = 0;
    if dotted {
        crate::text::extend(&mut digits, slice_subrange(text, whole + 1, end));
        places = end - whole - 1;
    }
    proof {
        lemma_digits_end(text@, 0);
        if dotted {
            lemma_digits_end(text@, whole + 1);
        }
        assert(text@.subrange(0, whole as int) =~= text@.take(whole as int));
        assert forall|i: int| 0 <= i < digits@.len() implies is_digit(#[trigger] digits@[i]) by {
            if i < whole {
                assert(is_digit(text@[i]));
            } else {
                assert(is_digit(text@[i + 1]));
            }
        }
    }
    if digits.len() == 0 {
        if is_word(text, "inf") || is_word(text, "infinity") {
            return Some(
                if negative {
                    i64::MIN
                } else {
                    i64::MAX
                },
            );
        }
        if is_word(text, "nan") {
            return Some(0);
        }
        return None;
    }
    match exponent(text, end) {
        None => None,
        Some(e) => {
            let shift: i128 = e - places as i128 + 7;
            let size: u128 = (capped_scaled(digits.as_slice(), shift) + 5) / 10;
            proof {
                let want: int = exponent_at(text@, end as int)->0 - places + 7;
                let m = digits_value(digits@);
                if want != shift {
                    if e == LARGE {
                        if m == 0 {
                            assert(m * pow(10, shift as nat) == 0) by (nonlinear_arith)
                                requires
                                    m == 0,
                            ;
                            assert(m * pow(10, want as nat) == 0) by (nonlinear_arith)
                                requires
                                    m == 0,
                            ;
                        } else {
                            lemma_capped_zero(digits@, shift as int, 20);
                            lemma_capped_zero(digits@, want, 20);
                        }
                    } else {
                        lemma_digits_value_bound(digits@);
                        lemma_pow_increases(10, digits@.len(), (-shift) as nat);
                        lemma_pow_increases(10, digits@.len(), (-want) as nat);
                        let p: int = pow(10, (-shift) as nat);
                        let q: int = pow(10, (-want) as nat);
                        let v: int = m as int;
                        assert(v / p == 0) by (nonlinear_arith)
                            requires
                                0 <= v < p,
                        ;
                        assert(v / q == 0) by (nonlinear_arith)
                            requires
                                0 <= v < q,
                        ;
                    }
                }
            }
            if negative {
                if size >= 9_223_372_036_854_775_808 {
                    Some(i64::MIN)
                } else {
                    Some(-(size as i64))
                }
            } else if size > 9_223_372_036_854_775_807 {
                Some(i64::MAX)
            } else {
                Some(size as i64)
            }
        },
    }
}

/// The length in nanometres that `text` gives in millimetres, or `None` if it is
/// no numeral.
pub fn parse_nanometres(text: &[char]) -> (length: Option<i64>)
    ensures
        length is Some == nanometres(text@) is Some,
        length matches Some(v) ==> nanometres(text@) == Some(v as int),
{
    if text.len() > 0 && (text[0] == '-' || text[0] == '+') {
        let rest = slice_subrange(text, 1, text.len());
        proof {
            assert(rest@ =~= text@.skip(1));
        }
        magnitude_nanometres(rest, text[0] == '-')
    } else {
        magnitude_nanometres(text, false)
    }
}

} // verus!
