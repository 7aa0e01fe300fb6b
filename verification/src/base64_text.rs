//! Bytes as text, for pictures and models in answers and pages.

use base64::prelude::BASE64_STANDARD;
use base64::Engine;
use vstd::prelude::*;

verus! {

/// The character that stands for six bits.
pub open spec fn sextet(n: int) -> char {
    if n < 26 {
        ('A' as int + n) as char
    } else if n < 52 {
        ('a' as int + n - 26) as char
    } else if n < 62 {
        ('0' as int + n - 52) as char
    } else if n == 62 {
        '+'
    } else {
        '/'
    }
}

/// Bytes in base 64: four characters for each three bytes, the last four filled up with
/// equals signs.
pub open spec fn base64_of(bytes: Seq<u8>) -> Seq<char>
    decreases bytes.len(),
{
    if bytes.len() == 0 {
        Seq::empty()
    } else {
        let a = bytes[0] as int;
        if bytes.len() == 1 {
            seq![sextet(a / 4), sextet(a % 4 * 16), '=', '=']
        } else {
            let b = bytes[1] as int;
            let head = seq![sextet(a / 4), sextet(a % 4 * 16 + b / 16)];
            if bytes.len() == 2 {
                head + seq![sextet(b % 16 * 4), '=']
            } else {
                let c = bytes[2] as int;
                head + seq![sextet(b % 16 * 4 + c / 64), sextet(c % 64)] + base64_of(bytes.skip(3))
            }
        }
    }
}

/// The most bytes that are taken: their text fits in memory on any machine.
pub const MOST_BYTES: usize = 0x5fff_0000;

/// `base64::Engine::encode` with `BASE64_STANDARD`: the standard alphabet, filled up to
/// whole groups. The result is stated.
#[verifier::external_body]
fn encode(bytes: &[u8]) -> (out: String)
    requires
        bytes@.len() <= MOST_BYTES,
    ensures
        out@ == base64_of(bytes@),
{
    BASE64_STANDARD.encode(bytes)
}

/// The text that carries a picture or a model in an answer or a page.
pub fn embed(bytes: &[u8]) -> (out: String)
    requires
        bytes@.len() <= MOST_BYTES,
    ensures
        out@ == base64_of(bytes@),
{
    encode(bytes)
}

/// Each three bytes, or what is left of them, take four characters.
pub proof fn lemma_base64_length(bytes: Seq<u8>)
    ensures
        base64_of(bytes).len() == (bytes.len() + 2) / 3 * 4,
    decreases bytes.len(),
{
    if bytes.len() > 3 {
        lemma_base64_length(bytes.skip(3));
    } else if bytes.len() == 3 {
        lemma_base64_length(bytes.skip(3));
    }
}

/// Different bytes have different texts.
pub proof fn lemma_base64_distinct(a: Seq<u8>, b: Seq<u8>)
    requires
        base64_of(a) == base64_of(b),
    ensures
        a == b,
    decreases a.len(),
{
    lemma_base64_length(a);
    lemma_base64_length(b);
    let x = base64_of(a);
    let y = base64_of(b);
    if a.len() == 0 || b.len() == 0 {
        assert(a =~= b);
    } else {
        assert(x[0] == y[0] && x[1] == y[1] && x[2] == y[2] && x[3] == y[3]);
        lemma_first_byte(a, b);
        lemma_second_byte(a, b);
        if a.len() >= 3 && b.len() >= 3 {
            assert(x.skip(4) =~= base64_of(a.skip(3)));
            assert(y.skip(4) =~= base64_of(b.skip(3)));
            lemma_base64_distinct(a.skip(3), b.skip(3));
            assert(a =~= a.take(3) + a.skip(3));
            assert(b =~= b.take(3) + b.skip(3));
            assert(a.take(3) =~= b.take(3));
        } else {
            assert(a =~= b);
        }
    }
}

proof fn lemma_sextet(m: int, n: int)
    requires
        0 <= m < 64,
        0 <= n < 64,
    ensures
        sextet(m) == sextet(n) ==> m == n,
        sextet(m) != '=',
{
}

proof fn lemma_first_byte(a: Seq<u8>, b: Seq<u8>)
    requires
        a.len() > 0,
        b.len() > 0,
        base64_of(a)[0] == base64_of(b)[0],
        base64_of(a)[1] == base64_of(b)[1],
        base64_of(a)[2] == base64_of(b)[2],
        base64_of(a)[3] == base64_of(b)[3],
    ensures
        a[0] == b[0],
        a.len() == 1 <==> b.len() == 1,
        a.len() == 2 <==> b.len() == 2,
{
    let p = a[0] as int;
    let q = b[0] as int;
    lemma_sextet(p / 4, q / 4);
    assert(base64_of(a)[0] == sextet(p / 4));
    assert(base64_of(b)[0] == sextet(q / 4));
    let s = if a.len() == 1 {
        0
    } else {
        a[1] as int
    };
    let t = if b.len() == 1 {
        0
    } else {
        b[1] as int
    };
    assert(base64_of(a)[1] == sextet(p % 4 * 16 + s / 16));
    assert(base64_of(b)[1] == sextet(q % 4 * 16 + t / 16));
    lemma_sextet(p % 4 * 16 + s / 16, q % 4 * 16 + t / 16);
    lemma_marks(a);
    lemma_marks(b);
}

proof fn lemma_marks(a: Seq<u8>)
    requires
        a.len() > 0,
    ensures
        base64_of(a)[2] == '=' <==> a.len() == 1,
        base64_of(a)[3] == '=' <==> a.len() <= 2,
{
    if a.len() == 2 {
        lemma_sextet(a[1] as int % 16 * 4, 0);
    }
    if a.len() >= 3 {
        lemma_sextet(a[1] as int % 16 * 4 + a[2] as int / 64, 0);
        lemma_sextet(a[2] as int % 64, 0);
    }
}

proof fn lemma_second_byte(a: Seq<u8>, b: Seq<u8>)
    requires
        a.len() > 0,
        b.len() > 0,
        base64_of(a)[0] == base64_of(b)[0],
        base64_of(a)[1] == base64_of(b)[1],
        base64_of(a)[2] == base64_of(b)[2],
        base64_of(a)[3] == base64_of(b)[3],
    ensures
        a.len() >= 2 && b.len() >= 2 ==> a[1] == b[1],
        a.len() >= 3 && b.len() >= 3 ==> a[2] == b[2],
{
    lemma_first_byte(a, b);
    if a.len() >= 2 && b.len() >= 2 {
        let p = a[0] as int % 4;
        let s = a[1] as int;
        let t = b[1] as int;
        assert(base64_of(a)[1] == sextet(p * 16 + s / 16));
        assert(base64_of(b)[1] == sextet(p * 16 + t / 16));
        lemma_sextet(p * 16 + s / 16, p * 16 + t / 16);
        assert(s / 16 == t / 16);
        let u = if a.len() == 2 {
            0
        } else {
            a[2] as int
        };
        let v = if b.len() == 2 {
            0
        } else {
            b[2] as int
        };
        assert(base64_of(a)[2] == sextet(s % 16 * 4 + u / 64));
        assert(base64_of(b)[2] == sextet(t % 16 * 4 + v / 64));
        lemma_sextet(s % 16 * 4 + u / 64, t % 16 * 4 + v / 64);
        if a.len() >= 3 && b.len() >= 3 {
            assert(base64_of(a)[3] == sextet(u % 64));
            assert(base64_of(b)[3] == sextet(v % 64));
            lemma_sextet(u % 64, v % 64);
        }
    }
}

} // verus!
