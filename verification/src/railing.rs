//! How the rail of a stencil runs, how a drawing fits its picture, and what a page may hold.

use crate::config::Config;
use crate::distance::apart2;
use crate::drawing::{across_view, down_view, escaped, tenths_of, view_of};
use crate::pcb::BoundingBox;
use crate::stencil::{
    is_bus, lemma_nearest_on_rail, nearest_on_rail, nearest_side, on_side, tie_over, Bus, Rail,
};
use crate::strings::{decimal, digit, replaced, replaced_from};
use crate::text::{find, lemma_find_is_first, matches_at};
use vstd::prelude::*;

verus! {

/// Whether a number lies between two others, in whatever order these are.
pub open spec fn is_between(n: int, a: int, b: int) -> bool {
    a <= n <= b || b <= n <= a
}

/// Whether a point lies on the middle line of a rail.
pub open spec fn is_on_rail(rail: Rail, p: (int, int)) -> bool {
    ||| is_between(p.0, rail.x0 as int, rail.x1 as int) && (p.1 == rail.y0 || p.1 == rail.y1)
    ||| is_between(p.1, rail.y0 as int, rail.y1 as int) && (p.0 == rail.x0 || p.0 == rail.x1)
}

proof fn lemma_nearer(n: int, m: int, q: int)
    requires
        n <= m <= q || q <= m <= n,
    ensures
        (n - m) * (n - m) <= (n - q) * (n - q),
{
    assert((n - m) * (n - m) <= (n - q) * (n - q)) by (nonlinear_arith)
        requires
            n <= m <= q || q <= m <= n,
    ;
}

proof fn lemma_side_is_nearest(rail: Rail, side: int, p: (int, int), q: (int, int))
    requires
        0 <= side < 4,
        side == 0 ==> is_between(q.0, rail.x0 as int, rail.x1 as int) && q.1 == rail.y0,
        side == 1 ==> is_between(q.1, rail.y0 as int, rail.y1 as int) && q.0 == rail.x1,
        side == 2 ==> is_between(q.0, rail.x0 as int, rail.x1 as int) && q.1 == rail.y1,
        side == 3 ==> is_between(q.1, rail.y0 as int, rail.y1 as int) && q.0 == rail.x0,
    ensures
        apart2(p, on_side(rail, side, p)) <= apart2(p, q),
        is_on_rail(rail, on_side(rail, side, p)),
{
    let s = on_side(rail, side, p);
    if side == 0 || side == 2 {
        if s.0 != p.0 {
            lemma_nearer(p.0, s.0, q.0);
        } else {
            assert((p.0 - s.0) * (p.0 - s.0) == 0 <= (p.0 - q.0) * (p.0 - q.0)) by (nonlinear_arith)
                requires
                    s.0 == p.0,
            ;
        }
    } else {
        if s.1 != p.1 {
            lemma_nearer(p.1, s.1, q.1);
        } else {
            assert((p.1 - s.1) * (p.1 - s.1) == 0 <= (p.1 - q.1) * (p.1 - q.1)) by (nonlinear_arith)
                requires
                    s.1 == p.1,
            ;
        }
    }
}

/// The nearest point of a rail lies on it, and no other point of it is nearer.
pub proof fn lemma_no_point_of_the_rail_is_nearer(rail: Rail, p: (int, int), q: (int, int))
    requires
        is_on_rail(rail, q),
    ensures
        is_on_rail(rail, nearest_on_rail(rail, p)),
        apart2(p, nearest_on_rail(rail, p)) <= apart2(p, q),
{
    let side: int = if is_between(q.0, rail.x0 as int, rail.x1 as int) && q.1 == rail.y0 {
        0
    } else if is_between(q.0, rail.x0 as int, rail.x1 as int) && q.1 == rail.y1 {
        2
    } else if q.0 == rail.x1 {
        1
    } else {
        3
    };
    lemma_side_is_nearest(rail, side, p, q);
    lemma_nearest_on_rail(rail, p, side);
    lemma_nearest_is_a_side(rail, p, 4);
    let best = nearest_side(rail, p, 4);
    let corner = if best == 0 || best == 3 {
        (rail.x0 as int, rail.y0 as int)
    } else {
        (rail.x1 as int, rail.y1 as int)
    };
    lemma_side_is_nearest(rail, best, p, corner);
}

proof fn lemma_nearest_is_a_side(rail: Rail, p: (int, int), upto: nat)
    requires
        0 < upto,
    ensures
        0 <= nearest_side(rail, p, upto) < upto,
    decreases upto,
{
    if upto > 1 {
        lemma_nearest_is_a_side(rail, p, (upto - 1) as nat);
    }
}

/// A tie goes across the rail where that is nearest to its target: its middle is that
/// point, it is as long as the rail is wide and the pads on both sides are, and as wide as
/// a tie.
pub proof fn lemma_tie_crosses_the_rail(rail: Rail, bus: int, tie: int, pad: int, target: (int, int))
    requires
        bus >= 0,
        tie >= 0,
        pad >= 0,
    ensures
        ({
            let r = tie_over(rail, bus, tie, pad, target);
            let c = nearest_on_rail(rail, target);
            &&& r.0 + r.2 == 2 * c.0
            &&& r.1 + r.3 == 2 * c.1
            &&& {
                ||| r.2 - r.0 == 2 * (tie / 2) && r.3 - r.1 == 2 * (bus / 2) + 2 * pad
                ||| r.3 - r.1 == 2 * (tie / 2) && r.2 - r.0 == 2 * (bus / 2) + 2 * pad
            }
        }),
{
}

/// The rail keeps the inset from every edge of the board and is as wide as asked for; its
/// ties are as many as asked for, one at least and four at most.
pub proof fn lemma_rail_keeps_its_inset(bus: Bus, b: BoundingBox, c: Config)
    requires
        is_bus(bus, b, c),
    ensures
        bus.outer.min_x - b.min_x == c.bus_inset,
        bus.outer.min_y - b.min_y == c.bus_inset,
        b.max_x - bus.outer.max_x == c.bus_inset,
        bus.inner matches Some(i) ==> {
            &&& b.max_y - bus.outer.max_y == c.bus_inset
            &&& i.min_x - bus.outer.min_x == c.bus_width
            &&& i.min_y - bus.outer.min_y == c.bus_width
            &&& bus.outer.max_x - i.max_x == c.bus_width
            &&& bus.outer.max_y - i.max_y == c.bus_width
        },
        bus.inner is None ==> bus.outer.max_y - bus.outer.min_y == c.bus_width,
        bus.rail.x0 - bus.outer.min_x == c.bus_width as int / 2,
        bus.rail.y0 - bus.outer.min_y == c.bus_width as int / 2,
        bus.outer.max_x - bus.rail.x1 == c.bus_width as int / 2,
        1 <= bus.ties@.len() <= 4,
        1 <= c.bus_tie_count <= 4 ==> bus.ties@.len() == c.bus_tie_count,
{
}

/// A board is drawn inside a picture of 700 by 500, with 20 left on every side; up on the
/// board is up on the picture.
pub proof fn lemma_drawing_fits_its_picture(b: BoundingBox, x: int, y: int)
    requires
        b.min_x <= x <= b.max_x,
        b.min_y <= y <= b.max_y,
    ensures
        ({
            let v = view_of(b);
            let across = (x - v.min_x) * v.pixels;
            let down = (v.max_y - y) * v.pixels;
            &&& v.per > 0
            &&& 0 <= across <= 660 * v.per
            &&& 0 <= down <= 460 * v.per
            &&& across_view(v, x) == tenths_of(20 * v.per + across, v.per as int)
            &&& down_view(v, y) == tenths_of(20 * v.per + down, v.per as int)
        }),
{
    let v = view_of(b);
    let w = if b.max_x - b.min_x < 1000 {
        1000
    } else {
        b.max_x - b.min_x
    };
    let h = if b.max_y - b.min_y < 1000 {
        1000
    } else {
        b.max_y - b.min_y
    };
    let i = x - b.min_x;
    let j = b.max_y - y;
    if 660 * h <= 460 * w {
        assert(v.per == w && v.pixels == 660);
        assert(0 <= i * 660 <= 660 * w);
        assert(0 <= j * 660 <= 660 * h);
    } else {
        assert(v.per == h && v.pixels == 460);
        assert(0 <= i * 460 <= 460 * w);
        assert(0 <= j * 460 <= 460 * h);
    }
}

/// A fraction is written to the nearest tenth.
pub proof fn lemma_tenths_are_nearest(num: int, den: int) -> (units: nat)
    requires
        num >= 0,
        den > 0,
    ensures
        tenths_of(num, den) == decimal(units / 10) + seq!['.', digit(units % 10)],
        -den <= 2 * (10 * num - den * units) <= den,
{
    let a = 20 * num + den;
    let units = (a / (2 * den)) as nat;
    assert(0 <= a / (2 * den) && 2 * den * (a / (2 * den)) <= a < 2 * den * (a / (2 * den)) + 2 * den)
        by (nonlinear_arith)
        requires
            den > 0,
            a >= 0,
    ;
    assert(2 * (den * units) == 2 * den * units) by (nonlinear_arith);
    assert(Seq::<char>::empty() + decimal(units / 10) =~= decimal(units / 10));
    units
}

proof fn lemma_replaced_lacks(text: Seq<char>, c: char, new: Seq<char>, from: int, d: char)
    requires
        0 <= from <= text.len(),
        !new.contains(d),
        c == d || !text.contains(d),
    ensures
        !replaced_from(text, seq![c], new, from).contains(d),
    decreases text.len() - from,
{
    let old = seq![c];
    lemma_find_is_first(text, old, from);
    match find(text, old, from) {
        None => {
            let rest = text.skip(from);
            if rest.contains(d) {
                let k = choose|k: int| 0 <= k < rest.len() && rest[k] == d;
                assert(text[from + k] == d);
                if c == d {
                    assert(text.subrange(from + k, from + k + 1) =~= old);
                    assert(matches_at(text, old, from + k));
                }
            }
        },
        Some(at) => {
            lemma_replaced_lacks(text, c, new, at + 1, d);
            let front = text.subrange(from, at);
            let rest = replaced_from(text, old, new, at + 1);
            let out = replaced_from(text, old, new, from);
            assert(out == front + new + rest);
            if out.contains(d) {
                let k = choose|k: int| 0 <= k < out.len() && out[k] == d;
                if k < front.len() {
                    assert(text[from + k] == d);
                    if c == d {
                        assert(text.subrange(from + k, from + k + 1) =~= old);
                        assert(matches_at(text, old, from + k));
                    }
                } else if k < front.len() + new.len() {
                    assert(new[k - front.len()] == d);
                } else {
                    assert(rest[k - front.len() - new.len()] == d);
                }
            }
        },
    }
}

/// A text that stands in a page holds nothing that would be taken for markup.
pub proof fn lemma_page_holds_no_markup(text: Seq<char>)
    ensures
        !escaped(text).contains('<'),
        !escaped(text).contains('>'),
        !escaped(text).contains('"'),
{
    reveal_strlit("&");
    reveal_strlit("<");
    reveal_strlit(">");
    reveal_strlit("\"");
    reveal_strlit("&lt;");
    reveal_strlit("&gt;");
    reveal_strlit("&quot;");
    assert("<"@ =~= seq!['<']);
    assert(">"@ =~= seq!['>']);
    assert("\""@ =~= seq!['"']);
    lemma_marks_are_clean();
    let one = replaced(text, "&"@, "&amp;"@);
    let two = replaced(one, "<"@, "&lt;"@);
    let three = replaced(two, ">"@, "&gt;"@);
    lemma_replaced_lacks(one, '<', "&lt;"@, 0, '<');
    lemma_replaced_lacks(two, '>', "&gt;"@, 0, '<');
    lemma_replaced_lacks(three, '"', "&quot;"@, 0, '<');
    lemma_replaced_lacks(two, '>', "&gt;"@, 0, '>');
    lemma_replaced_lacks(three, '"', "&quot;"@, 0, '>');
    lemma_replaced_lacks(three, '"', "&quot;"@, 0, '"');
}

proof fn lemma_marks_are_clean()
    ensures
        !"&lt;"@.contains('<'),
        !"&gt;"@.contains('<'),
        !"&quot;"@.contains('<'),
        !"&gt;"@.contains('>'),
        !"&quot;"@.contains('>'),
        !"&quot;"@.contains('"'),
{
    reveal_strlit("&lt;");
    reveal_strlit("&gt;");
    reveal_strlit("&quot;");
    assert("&lt;"@ =~= seq!['&', 'l', 't', ';']);
    assert("&gt;"@ =~= seq!['&', 'g', 't', ';']);
    assert("&quot;"@ =~= seq!['&', 'q', 'u', 'o', 't', ';']);
}

/// A text without such characters stands in a page as it is.
pub proof fn lemma_plain_text_stays(text: Seq<char>)
    requires
        !text.contains('&'),
        !text.contains('<'),
        !text.contains('>'),
        !text.contains('"'),
    ensures
        escaped(text) == text,
{
    reveal_strlit("&");
    reveal_strlit("<");
    reveal_strlit(">");
    reveal_strlit("\"");
    lemma_replaced_nothing(text, '&', "&amp;"@);
    lemma_replaced_nothing(text, '<', "&lt;"@);
    lemma_replaced_nothing(text, '>', "&gt;"@);
    lemma_replaced_nothing(text, '"', "&quot;"@);
    assert("&"@ =~= seq!['&']);
    assert("<"@ =~= seq!['<']);
    assert(">"@ =~= seq!['>']);
    assert("\""@ =~= seq!['"']);
}

proof fn lemma_replaced_nothing(text: Seq<char>, c: char, new: Seq<char>)
    requires
        !text.contains(c),
    ensures
        replaced(text, seq![c], new) == text,
{
    let old = seq![c];
    lemma_find_is_first(text, old, 0);
    if let Some(at) = find(text, old, 0) {
        assert(text.subrange(at, at + 1)[0] == text[at]);
        assert(text[at] == c);
    }
    assert(text.skip(0) =~= text);
}

} // verus!
