//! Lengths as they are shown: millimetres to three places.

use crate::strings::{decimal, digit};
use vstd::prelude::*;

verus! {

/// The distance of a number from zero.
pub open spec fn magnitude(n: int) -> int {
    if n < 0 {
        -n
    } else {
        n
    }
}

/// A minus sign before what is less than zero.
pub open spec fn sign(n: int) -> Seq<char> {
    if n < 0 {
        seq!['-']
    } else {
        Seq::empty()
    }
}

/// A length in nanometres as millimetres to three places, a half rounded away from
/// zero.
pub open spec fn thousandths(nm: int) -> Seq<char> {
    let units = ((magnitude(nm) + 500) / 1000) as nat;
    sign(nm) + decimal(units / 1000) + seq![
        '.',
        digit(units / 100 % 10),
        digit(units / 10 % 10),
        digit(units % 10),
    ]
}

/// The distance of a number from zero.
pub fn size_of(n: i128) -> (m: u128)
    ensures
        m == magnitude(n as int),
{
    if n >= 0 {
        n as u128
    } else {
        (-(n + 1)) as u128 + 1
    }
}

/// Appends a number in decimal digits.
pub fn extend_decimal(out: &mut Vec<char>, n: u128)
    ensures
        final(out)@ == old(out)@ + decimal(n as nat),
    decreases n,
{
    if n >= 10 {
        extend_decimal(out, n / 10);
    }
    let d: u8 = 48 + (n % 10) as u8;
    out.push(d as char);
    proof {
        assert(out@ =~= old(out)@ + decimal(n as nat));
    }
}

/// Appends a minus sign before what is less than zero.
pub fn extend_sign(out: &mut Vec<char>, n: i128)
    ensures
        final(out)@ == old(out)@ + sign(n as int),
{
    if n < 0 {
        out.push('-');
    }
    proof {
        assert(out@ =~= old(out)@ + sign(n as int));
    }
}

fn push_digit(out: &mut Vec<char>, n: u128)
    requires
        n < 10,
    ensures
        final(out)@ == old(out)@.push(digit(n as nat)),
{
    let d: u8 = 48 + n as u8;
    out.push(d as char);
}

/// Appends a length in nanometres as millimetres to three places.
pub fn extend_wide_length(out: &mut Vec<char>, nm: i128)
    ensures
        final(out)@ == old(out)@ + thousandths(nm as int),
{
    let units: u128 = (size_of(nm) + 500) / 1000;
    extend_sign(out, nm);
    extend_decimal(out, units / 1000);
    out.push('.');
    push_digit(out, units / 100 % 10);
    push_digit(out, units / 10 % 10);
    push_digit(out, units % 10);
    proof {
        assert(out@ =~= old(out)@ + thousandths(nm as int));
    }
}

/// Appends a length in nanometres as millimetres to three places.
pub fn extend_length(out: &mut Vec<char>, nm: i64)
    ensures
        final(out)@ == old(out)@ + thousandths(nm as int),
{
    extend_wide_length(out, nm as i128);
}

/// A number in millionths, to two places, a half rounded away from zero.
pub open spec fn hundredths(n: int) -> Seq<char> {
    let units = ((magnitude(n) + 5000) / 10_000) as nat;
    sign(n) + decimal(units / 100) + seq!['.', digit(units / 10 % 10), digit(units % 10)]
}

/// Appends a number in millionths, to two places.
pub fn extend_hundredths(out: &mut Vec<char>, n: i64)
    ensures
        final(out)@ == old(out)@ + hundredths(n as int),
{
    let units: u128 = (size_of(n as i128) + 5000) / 10_000;
    extend_sign(out, n as i128);
    extend_decimal(out, units / 100);
    out.push('.');
    push_digit(out, units / 10 % 10);
    push_digit(out, units % 10);
    proof {
        assert(out@ =~= old(out)@ + hundredths(n as int));
    }
}

/// The digits of a number below ten times `unit`, as many as `unit` has.
pub open spec fn padded(n: nat, unit: nat) -> Seq<char>
    decreases unit,
{
    if unit == 0 {
        Seq::empty()
    } else {
        seq![digit(n / unit % 10)] + padded(n % unit, unit / 10)
    }
}

/// A number in millionths, to as many places as `scale` has zeros, a half rounded
/// away from zero. `scale` is a power of ten up to a million.
pub open spec fn fixed(n: int, scale: nat) -> Seq<char> {
    let step = 1_000_000int / scale as int;
    let units = ((magnitude(n) + step / 2) / step) as nat;
    let whole = sign(n) + decimal(units / scale);
    if scale > 1 {
        whole + seq!['.'] + padded(units % scale, scale / 10)
    } else {
        whole
    }
}

fn extend_padded(out: &mut Vec<char>, n: u128, unit: u128)
    ensures
        final(out)@ == old(out)@ + padded(n as nat, unit as nat),
    decreases unit,
{
    if unit > 0 {
        push_digit(out, n / unit % 10);
        extend_padded(out, n % unit, unit / 10);
        proof {
            assert(out@ =~= old(out)@ + padded(n as nat, unit as nat));
        }
    } else {
        proof {
            assert(out@ =~= old(out)@ + padded(n as nat, unit as nat));
        }
    }
}

/// Appends a number in millionths, to as many places as `scale` has zeros.
pub fn extend_fixed(out: &mut Vec<char>, n: i128, scale: u128)
    requires
        1 <= scale <= 1_000_000,
        -0x4000_0000_0000_0000_0000_0000_0000_0000 <= n,
        n <= 0x4000_0000_0000_0000_0000_0000_0000_0000,
    ensures
        final(out)@ == old(out)@ + fixed(n as int, scale as nat),
{
    let step: u128 = 1_000_000 / scale;
    proof {
        assert(1 <= 1_000_000int / scale as int <= 1_000_000) by (nonlinear_arith)
            requires
                1 <= scale <= 1_000_000,
        ;
    }
    let units: u128 = (size_of(n) + step / 2) / step;
    extend_sign(out, n);
    extend_decimal(out, units / scale);
    if scale > 1 {
        out.push('.');
        extend_padded(out, units % scale, scale / 10);
    }
    proof {
        assert(out@ =~= old(out)@ + fixed(n as int, scale as nat));
    }
}

/// The digits after the point, without zeros at the end.
pub open spec fn fraction(n: nat, unit: nat) -> Seq<char>
    decreases unit,
{
    if unit == 0 || n == 0 {
        Seq::empty()
    } else {
        seq![digit(n / unit % 10)] + fraction(n % unit, unit / 10)
    }
}

/// A number in millionths, in as few digits as show it whole.
pub open spec fn plain(n: int) -> Seq<char> {
    let m = magnitude(n) as nat;
    let whole = sign(n) + decimal(m / 1_000_000);
    if m % 1_000_000 == 0 {
        whole
    } else {
        whole + seq!['.'] + fraction(m % 1_000_000, 100_000)
    }
}

fn extend_fraction(out: &mut Vec<char>, n: u128, unit: u128)
    ensures
        final(out)@ == old(out)@ + fraction(n as nat, unit as nat),
    decreases unit,
{
    if unit > 0 && n > 0 {
        push_digit(out, n / unit % 10);
        extend_fraction(out, n % unit, unit / 10);
    }
    proof {
        assert(out@ =~= old(out)@ + fraction(n as nat, unit as nat));
    }
}

/// Appends a number in millionths, in as few digits as show it whole.
pub fn extend_plain(out: &mut Vec<char>, n: i64)
    ensures
        final(out)@ == old(out)@ + plain(n as int),
{
    let m: u128 = size_of(n as i128);
    extend_sign(out, n as i128);
    extend_decimal(out, m / 1_000_000);
    if m % 1_000_000 != 0 {
        out.push('.');
        extend_fraction(out, m % 1_000_000, 100_000);
    }
    proof {
        assert(out@ =~= old(out)@ + plain(n as int));
    }
}

} // verus!
