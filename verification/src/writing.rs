//! What is drawn on a board or a sheet is read back where it was put.

use crate::fields::{is_space, loose_point, past_spaces, trim_brackets, word};
use crate::graphics::{circle_text, graphic_text, line_text, rect_text, Graphic};
use crate::insert::point_text;
use crate::listing::stands;
use crate::outline::{marked_point, side_text, sides_text};
use crate::pcb::{box_over, BoundingBox, Point2};
use crate::readback::{lemma_number_read_back, lemma_past_word, lemma_plain_characters};
use crate::text::{contains, find, lemma_find_at, lemma_find_is_first, matches_at};
use crate::units::plain;
use crate::wires::wire_points;
use crate::wiring::{global_label, local_label, wire_text};
use vstd::prelude::*;

verus! {

proof fn lemma_trim(text: Seq<char>, brackets: nat)
    requires
        text.len() > 0,
        text.last() != ')',
    ensures
        trim_brackets(text + Seq::new(brackets, |i: int| ')')) == text,
    decreases brackets,
{
    let all = text + Seq::new(brackets, |i: int| ')');
    if brackets == 0 {
        assert(all =~= text);
    } else {
        let fewer = (brackets - 1) as nat;
        assert(all.drop_last() =~= text + Seq::new(fewer, |i: int| ')'));
        lemma_trim(text, fewer);
    }
}

/// Whether a text writes down a point.
#[verifier::opaque]
spec fn is_point(text: Seq<char>, x: int, y: int) -> bool {
    text == point_text(x, y) && i64::MIN <= x <= i64::MAX && i64::MIN <= y <= i64::MAX
}

/// Two coordinates with closing brackets behind them are read as the point that they write
/// down.
#[verifier::rlimit(40)]
proof fn lemma_point_is_read(text: Seq<char>, from: int, s: Seq<char>, x: int, y: int, to: int)
    requires
        is_point(s, x, y),
        stands(text, from, s),
        from + s.len() < to <= text.len(),
        forall|i: int| from + s.len() <= i < to ==> #[trigger] text[i] == ')',
        to < text.len() ==> is_space(text[to]),
    ensures
        loose_point(text, from) == Some((x, y)),
{
    reveal(is_point);
    reveal_strlit(" ");
    let a = plain(x);
    let b = plain(y);
    let both = point_text(x, y);
    lemma_plain_characters(x);
    lemma_plain_characters(y);
    lemma_number_read_back(x);
    lemma_number_read_back(y);
    let mid = from + a.len();
    let end = mid + 1 + b.len();
    assert(both.len() == a.len() + 1 + b.len());
    assert forall|i: int| from <= i < end implies #[trigger] text[i] == both[i - from] by {
        assert(text.subrange(from, from + both.len())[i - from] == text[i]);
    }
    assert forall|i: int| from <= i < mid implies !is_space(#[trigger] text[i]) by {
        assert(text[i] == a[i - from]);
    }
    assert(text[mid] == both[a.len() as int]);
    assert(both[a.len() as int] == ' ');
    lemma_past_word(text, from, mid);
    assert(past_spaces(text, from) == from);
    assert(word(text, from) == Some((from, mid)));
    assert forall|i: int| mid + 1 <= i < to implies !is_space(#[trigger] text[i]) by {
        if i < end {
            assert(text[i] == both[i - from]);
            assert(both[i - from] == b[i - mid - 1]);
        }
    }
    lemma_past_word(text, mid + 1, to);
    assert(past_spaces(text, mid + 1) == mid + 1);
    assert(past_spaces(text, mid) == mid + 1);
    assert(word(text, mid) == Some((mid + 1, to)));
    assert(text.subrange(from, mid) =~= a) by {
        assert forall|i: int| 0 <= i < a.len() implies text.subrange(from, mid)[i] == a[i] by {
            assert(text[from + i] == both[i]);
        }
    }
    let n = (to - end) as nat;
    assert(text.subrange(mid + 1, to) =~= b + Seq::new(n, |i: int| ')')) by {
        assert forall|i: int| 0 <= i < b.len() implies text.subrange(mid + 1, to)[i] == b[i] by {
            assert(text[mid + 1 + i] == both[a.len() + 1 + i]);
        }
    }
    assert(b.last() == b[b.len() - 1]);
    lemma_trim(b, n);
}

/// A mark is found at the first place where a bracket and its letter stand.
proof fn lemma_mark_is_found(text: Seq<char>, mark: Seq<char>, from: int, at: int)
    requires
        0 <= from <= at,
        mark.len() >= 2,
        mark[0] == '(',
        stands(text, at, mark),
        forall|q: int| from <= q < at && #[trigger] text[q] == '(' ==> text[q + 1] != mark[1],
    ensures
        find(text, mark, from) == Some(at),
{
    assert(matches_at(text, mark, at));
    assert forall|q: int| from <= q < at implies !matches_at(text, mark, q) by {
        if matches_at(text, mark, q) {
            assert(text.subrange(q, q + mark.len())[0] == text[q]);
            assert(text.subrange(q, q + mark.len())[1] == text[q + 1]);
        }
    }
    lemma_find_at(text, mark, from, at);
}

/// No bracket stands in two coordinates.
proof fn lemma_no_bracket(s: Seq<char>, x: int, y: int)
    requires
        is_point(s, x, y),
    ensures
        s.len() > 2,
        forall|i: int| 0 <= i < s.len() ==> #[trigger] s[i] != '(' && s[i] != ')',
{
    reveal(is_point);
    reveal_strlit(" ");
    lemma_plain_characters(x);
    lemma_plain_characters(y);
    let a = plain(x);
    let b = plain(y);
    assert forall|i: int| 0 <= i < s.len() implies #[trigger] s[i] != '(' && s[i] != ')' by {
        if i < a.len() {
            assert(s[i] == a[i]);
        } else if i > a.len() {
            assert(s[i] == b[i - a.len() - 1]);
        }
    }
}

/// Two points are read from a text that gives them one after the other.
#[verifier::rlimit(40)]
proof fn lemma_two_corners(
    text: Seq<char>,
    head: Seq<char>,
    s: Seq<char>,
    p: (int, int),
    t: Seq<char>,
    q: (int, int),
    more: Seq<char>,
)
    requires
        text == head + "(xy "@ + s + ") (xy "@ + t + more,
        is_point(s, p.0, p.1),
        is_point(t, q.0, q.1),
        more.len() > 2,
        more[0] == ')',
        more[1] == ')',
        more[2] == '\n',
        head.len() > 0 ==> head.last() != '(',
        forall|i: int|
            0 <= i < head.len() - 1 && #[trigger] head[i] == '(' ==> head[i + 1] != 'x',
    ensures
        wire_points(text) == Some((p, q)),
{
    reveal_strlit(") (xy ");
    reveal_strlit("(xy ");
    let m = s.len() as int;
    let n = t.len() as int;
    let a = head.len() as int;
    let b = a + 4 + m + 2;
    assert(text.subrange(a, a + 4) =~= "(xy "@);
    assert(text.subrange(b, b + 4) =~= "(xy "@);
    assert(text.subrange(a + 4, a + 4 + m) =~= s);
    assert(text.subrange(b + 4, b + 4 + n) =~= t);
    assert forall|i: int| 0 <= i < a && #[trigger] text[i] == '(' implies text[i + 1] != 'x' by {
        assert(text[i] == head[i]);
        if i < a - 1 {
            assert(text[i + 1] == head[i + 1]);
        }
    }
    lemma_two_corners_at(text, a, s, p, t, q);
}

#[verifier::rlimit(40)]
proof fn lemma_two_corners_at(
    text: Seq<char>,
    a: int,
    s: Seq<char>,
    p: (int, int),
    t: Seq<char>,
    q: (int, int),
)
    requires
        is_point(s, p.0, p.1),
        is_point(t, q.0, q.1),
        ({
            let b = a + 4 + s.len() + 2;
            let e = b + 4 + t.len();
            &&& stands(text, a, "(xy "@)
            &&& stands(text, a + 4, s)
            &&& text[a + 4 + s.len()] == ')'
            &&& text[a + 4 + s.len() + 1] == ' '
            &&& stands(text, b, "(xy "@)
            &&& stands(text, b + 4, t)
            &&& e + 2 < text.len()
            &&& text[e] == ')'
            &&& text[e + 1] == ')'
            &&& text[e + 2] == '\n'
        }),
        forall|i: int| 0 <= i < a && #[trigger] text[i] == '(' ==> text[i + 1] != 'x',
    ensures
        wire_points(text) == Some((p, q)),
{
    reveal_strlit("(xy ");
    let mark = "(xy "@;
    lemma_no_bracket(s, p.0, p.1);
    lemma_no_bracket(t, q.0, q.1);
    let m = s.len() as int;
    let n = t.len() as int;
    let b = a + 4 + m + 2;
    let e = b + 4 + n;
    assert(find(text, mark, 0) == Some(a) && find(text, mark, a + 4) == Some(b)) by {
        lemma_mark_is_found(text, mark, 0, a);
        assert forall|i: int|
            a + 4 <= i < b && #[trigger] text[i] == '(' implies text[i + 1] != 'x' by {
            if i < a + 4 + m {
                assert(text.subrange(a + 4, a + 4 + m)[i - a - 4] == text[i]);
            }
        }
        lemma_mark_is_found(text, mark, a + 4, b);
    }
    let end = match find(text, mark, b + 4) {
        Some(c) => c,
        None => text.len() as int,
    };
    assert(e + 3 <= end <= text.len()) by {
        assert forall|i: int| b + 4 <= i < e + 3 implies #[trigger] text[i] != '(' by {
            if i < e {
                assert(text.subrange(b + 4, e)[i - b - 4] == text[i]);
            }
        }
        lemma_find_is_first(text, mark, b + 4);
        if let Some(c) = find(text, mark, b + 4) {
            assert(text.subrange(c, c + 4)[0] == text[c]);
        }
    }
    let first = text.subrange(a + 4, b);
    let second = text.subrange(b + 4, end);
    assert(loose_point(first, 0) == Some(p)) by {
        assert(first.subrange(0, m) =~= text.subrange(a + 4, a + 4 + m));
        assert(first[m] == text[a + 4 + m] && first[m + 1] == text[a + 4 + m + 1]);
        lemma_point_is_read(first, 0, s, p.0, p.1, m + 1);
    }
    assert(loose_point(second, 0) == Some(q)) by {
        assert(second.subrange(0, n) =~= text.subrange(b + 4, e));
        assert(second[n] == text[e] && second[n + 1] == text[e + 1] && second[n + 2] == text[e + 2]);
        lemma_point_is_read(second, 0, t, q.0, q.1, n + 2);
    }
}

/// A wire that is added runs between the two points that were given.
#[verifier::rlimit(40)]
pub proof fn lemma_wire_runs_between_its_points(x1: i64, y1: i64, x2: i64, y2: i64, stamp: Seq<char>)
    ensures
        wire_points(wire_text(x1 as int, y1 as int, x2 as int, y2 as int, stamp)) == Some(
            ((x1 as int, y1 as int), (x2 as int, y2 as int)),
        ),
{
    reveal_strlit("\n  (wire (pts (xy ");
    reveal_strlit("(xy ");
    reveal_strlit("))\n    (stroke (width 0) (type default))\n    (uuid \"");
    let text = wire_text(x1 as int, y1 as int, x2 as int, y2 as int, stamp);
    let head = seq!['\n', ' ', ' ', '(', 'w', 'i', 'r', 'e', ' ', '(', 'p', 't', 's', ' '];
    assert(head + "(xy "@ =~= "\n  (wire (pts (xy "@);
    let tail = "))\n    (stroke (width 0) (type default))\n    (uuid \""@;
    let more = tail + stamp + "\")\n  )"@;
    assert(more[0] == tail[0] && more[1] == tail[1] && more[2] == tail[2]);
    lemma_wire_parts(x1, y1, x2, y2, stamp);
    assert forall|i: int| 0 <= i < head.len() - 1 && #[trigger] head[i] == '(' implies head[i + 1]
        != 'x' by {
        assert(i == 0 || i == 1 || i == 2 || i == 3 || i == 4 || i == 5 || i == 6 || i == 7 || i == 8
            || i == 9 || i == 10 || i == 11 || i == 12);
    }
    let s = point_text(x1 as int, y1 as int);
    let t = point_text(x2 as int, y2 as int);
    assert(is_point(s, x1 as int, y1 as int) && is_point(t, x2 as int, y2 as int)) by {
        reveal(is_point);
    }
    lemma_two_corners(text, head, s, (x1 as int, y1 as int), t, (x2 as int, y2 as int), more);
}

#[verifier::rlimit(40)]
proof fn lemma_wire_parts(x1: i64, y1: i64, x2: i64, y2: i64, stamp: Seq<char>)
    ensures
        wire_text(x1 as int, y1 as int, x2 as int, y2 as int, stamp) == "\n  (wire (pts (xy "@
            + point_text(x1 as int, y1 as int) + ") (xy "@ + point_text(x2 as int, y2 as int)
            + ("))\n    (stroke (width 0) (type default))\n    (uuid \""@ + stamp + "\")\n  )"@),
{
    let a = "\n  (wire (pts (xy "@;
    let b = plain(x1 as int);
    let c = plain(y1 as int);
    let d = ") (xy "@;
    let e = plain(x2 as int);
    let f = plain(y2 as int);
    let g = "))\n    (stroke (width 0) (type default))\n    (uuid \""@;
    let h = "\")\n  )"@;
    assert(a + b + " "@ + c =~= a + (b + " "@ + c));
    let front = a + (b + " "@ + c) + d;
    assert(front + e + " "@ + f =~= front + (e + " "@ + f));
    let whole = front + (e + " "@ + f);
    assert(whole + g + stamp + h =~= whole + (g + stamp + h));
}

/// A start and an end are read from a text that gives them one after the other.
#[verifier::rlimit(40)]
proof fn lemma_start_and_end(
    text: Seq<char>,
    head: Seq<char>,
    s: Seq<char>,
    p: (i64, i64),
    t: Seq<char>,
    q: (i64, i64),
    more: Seq<char>,
)
    requires
        text == head + "(start "@ + s + ") (end "@ + t + ")"@ + more,
        is_point(s, p.0 as int, p.1 as int),
        is_point(t, q.0 as int, q.1 as int),
        more.len() > 0,
        is_space(more[0]),
        head.len() > 0 ==> head.last() != '(',
        forall|i: int|
            0 <= i < head.len() - 1 && #[trigger] head[i] == '(' ==> head[i + 1] != 's' && head[i + 1]
                != 'e',
    ensures
        marked_point(text, "(start "@) == seq![Point2 { x: p.0, y: p.1 }],
        marked_point(text, "(end "@) == seq![Point2 { x: q.0, y: q.1 }],
{
    reveal_strlit("(start ");
    reveal_strlit("(end ");
    reveal_strlit(") (end ");
    reveal_strlit(")");
    let n = head.len() as int;
    let u = s.len() as int;
    let v = t.len() as int;
    let at = n + 7;
    let next = at + u + 2;
    let place = next + 5;
    assert(text.subrange(n, n + 7) =~= "(start "@);
    assert(text.subrange(next, next + 5) =~= "(end "@);
    assert(text.subrange(at, at + u) =~= s);
    assert(text.subrange(place, place + v) =~= t);
    assert(text[n + 1] == 's');
    assert forall|i: int| 0 <= i < n && #[trigger] text[i] == '(' implies text[i + 1] != 's' && text[i
        + 1] != 'e' by {
        assert(text[i] == head[i]);
        if i < n - 1 {
            assert(text[i + 1] == head[i + 1]);
        }
    }
    lemma_start_at(text, n, s, p, t, q);
    lemma_end_at(text, n, s, p, t, q);
}

spec fn starts_and_ends(text: Seq<char>, n: int, s: Seq<char>, t: Seq<char>) -> bool {
    let at = n + 7;
    let next = at + s.len() + 2;
    let end = next + 5 + t.len();
    &&& stands(text, n, "(start "@)
    &&& stands(text, at, s)
    &&& text[at + s.len()] == ')'
    &&& text[at + s.len() + 1] == ' '
    &&& stands(text, next, "(end "@)
    &&& stands(text, next + 5, t)
    &&& end + 1 < text.len()
    &&& text[end] == ')'
    &&& is_space(text[end + 1])
    &&& forall|i: int|
        0 <= i < n && #[trigger] text[i] == '(' ==> text[i + 1] != 's' && text[i + 1] != 'e'
}

#[verifier::rlimit(40)]
proof fn lemma_start_at(
    text: Seq<char>,
    n: int,
    s: Seq<char>,
    p: (i64, i64),
    t: Seq<char>,
    q: (i64, i64),
)
    requires
        is_point(s, p.0 as int, p.1 as int),
        starts_and_ends(text, n, s, t),
    ensures
        marked_point(text, "(start "@) == seq![Point2 { x: p.0, y: p.1 }],
{
    reveal_strlit("(start ");
    lemma_mark_is_found(text, "(start "@, 0, n);
    lemma_point_is_read(text, n + 7, s, p.0 as int, p.1 as int, n + 7 + s.len() + 1);
}

#[verifier::rlimit(40)]
proof fn lemma_end_at(
    text: Seq<char>,
    n: int,
    s: Seq<char>,
    p: (i64, i64),
    t: Seq<char>,
    q: (i64, i64),
)
    requires
        is_point(s, p.0 as int, p.1 as int),
        is_point(t, q.0 as int, q.1 as int),
        starts_and_ends(text, n, s, t),
    ensures
        marked_point(text, "(end "@) == seq![Point2 { x: q.0, y: q.1 }],
{
    reveal_strlit("(start ");
    reveal_strlit("(end ");
    lemma_no_bracket(s, p.0 as int, p.1 as int);
    let u = s.len() as int;
    let at = n + 7;
    let next = at + u + 2;
    assert(find(text, "(end "@, 0) == Some(next)) by {
        assert forall|i: int| 0 <= i < next && #[trigger] text[i] == '(' implies text[i + 1] != 'e' by {
            if n <= i < at {
                assert(text.subrange(n, n + 7)[i - n] == text[i]);
                assert(text.subrange(n, n + 7)[1] == text[n + 1]);
                assert(i == n || i == n + 1 || i == n + 2 || i == n + 3 || i == n + 4 || i == n + 5 || i
                    == n + 6);
            } else if at <= i < at + u {
                assert(text.subrange(at, at + u)[i - at] == text[i]);
            }
        }
        lemma_mark_is_found(text, "(end "@, 0, next);
    }
    let place = next + 5;
    lemma_point_is_read(text, place, t, q.0 as int, q.1 as int, place + t.len() + 1);
}

/// A side of the outline is read as a line on the outline between its ends.
#[verifier::rlimit(40)]
pub proof fn lemma_side_is_read_back(a: (i64, i64), b: (i64, i64), stamp: Seq<char>)
    ensures
        ({
            let text = side_text((a.0 as int, a.1 as int), (b.0 as int, b.1 as int), stamp);
            &&& contains(text, "Edge.Cuts"@)
            &&& marked_point(text, "(start "@) == seq![Point2 { x: a.0, y: a.1 }]
            &&& marked_point(text, "(end "@) == seq![Point2 { x: b.0, y: b.1 }]
        }),
{
    reveal_strlit("  (gr_line (start ");
    reveal_strlit("(start ");
    reveal_strlit(")\n    (stroke (width 0.05) (type solid)) (layer \"Edge.Cuts\") (tstamp ");
    reveal_strlit(")");
    reveal_strlit("Edge.Cuts");
    let text = side_text((a.0 as int, a.1 as int), (b.0 as int, b.1 as int), stamp);
    let head = seq![' ', ' ', '(', 'g', 'r', '_', 'l', 'i', 'n', 'e', ' '];
    let tail = ")\n    (stroke (width 0.05) (type solid)) (layer \"Edge.Cuts\") (tstamp "@;
    let more = tail.skip(1) + stamp + "))"@;
    let p = point_text(a.0 as int, a.1 as int);
    let q = point_text(b.0 as int, b.1 as int);
    assert(head + "(start "@ =~= "  (gr_line (start "@);
    assert(tail =~= ")"@ + tail.skip(1));
    assert(text =~= head + "(start "@ + p + ") (end "@ + q + ")"@ + more);
    assert(more[0] == '\n');
    assert forall|i: int| 0 <= i < head.len() - 1 && #[trigger] head[i] == '(' implies head[i + 1]
        != 's' && head[i + 1] != 'e' by {
        assert(i == 0 || i == 1 || i == 2 || i == 3 || i == 4 || i == 5 || i == 6 || i == 7 || i == 8
            || i == 9);
    }
    assert(is_point(p, a.0 as int, a.1 as int) && is_point(q, b.0 as int, b.1 as int)) by {
        reveal(is_point);
    }
    lemma_start_and_end(text, head, p, a, q, b, more);
    assert(tail.subrange(49, 58) =~= "Edge.Cuts"@);
    assert(text =~= (head + "(start "@ + p + ") (end "@ + q) + tail + (stamp + "))"@));
    let front = head + "(start "@ + p + ") (end "@ + q;
    let n = front.len() as int;
    assert(text.subrange(n + 49, n + 58) =~= tail.subrange(49, 58));
    assert(matches_at(text, "Edge.Cuts"@, n + 49));
    lemma_find_is_first(text, "Edge.Cuts"@, 0);
}

/// The corners that the sides of an outline run between, in the order in which they do.
pub open spec fn way_round(b: BoundingBox) -> Seq<Point2> {
    let p = Point2 { x: b.min_x, y: b.min_y };
    let q = Point2 { x: b.max_x, y: b.min_y };
    let r = Point2 { x: b.max_x, y: b.max_y };
    let s = Point2 { x: b.min_x, y: b.max_y };
    seq![p, q, q, r, r, s, s, p]
}

/// A new outline has four sides, which are read as the way round the board.
#[verifier::rlimit(40)]
pub proof fn lemma_outline_is_read_back(b: BoundingBox, stamps: Seq<Seq<char>>) -> (sides: Seq<
    Seq<char>,
>)
    requires
        stamps.len() == 4,
    ensures
        sides.len() == 4,
        sides_text(b, stamps) == sides[0] + "\n\n"@ + sides[1] + "\n\n"@ + sides[2] + "\n\n"@
            + sides[3],
        forall|k: int|
            0 <= k < 4 ==> is_side(#[trigger] sides[k], way_round(b)[2 * k], way_round(b)[2 * k + 1]),
{
    let nw = (b.min_x, b.min_y);
    let ne = (b.max_x, b.min_y);
    let se = (b.max_x, b.max_y);
    let sw = (b.min_x, b.max_y);
    let sides = seq![
        side_text((nw.0 as int, nw.1 as int), (ne.0 as int, ne.1 as int), stamps[0]),
        side_text((ne.0 as int, ne.1 as int), (se.0 as int, se.1 as int), stamps[1]),
        side_text((se.0 as int, se.1 as int), (sw.0 as int, sw.1 as int), stamps[2]),
        side_text((sw.0 as int, sw.1 as int), (nw.0 as int, nw.1 as int), stamps[3]),
    ];
    assert forall|k: int| 0 <= k < 4 implies is_side(
        #[trigger] sides[k],
        way_round(b)[2 * k],
        way_round(b)[2 * k + 1],
    ) by {
        if k == 0 {
            lemma_side_is_read_back(nw, ne, stamps[0]);
        } else if k == 1 {
            lemma_side_is_read_back(ne, se, stamps[1]);
        } else if k == 2 {
            lemma_side_is_read_back(se, sw, stamps[2]);
        } else {
            lemma_side_is_read_back(sw, nw, stamps[3]);
        }
    }
    sides
}

/// The way round a board takes up what the board does.
pub proof fn lemma_way_round_is_the_board(b: BoundingBox)
    requires
        b.min_x <= b.max_x,
        b.min_y <= b.max_y,
    ensures
        box_over(None, way_round(b)) == Some(b),
{
    lemma_box_of(b, way_round(b));
}

/// Whether a text is read as a line on the outline between two points.
pub open spec fn is_side(text: Seq<char>, from: Point2, to: Point2) -> bool {
    &&& contains(text, "Edge.Cuts"@)
    &&& marked_point(text, "(start "@) == seq![from]
    &&& marked_point(text, "(end "@) == seq![to]
}

proof fn lemma_box_within(points: Seq<Point2>, b: BoundingBox)
    requires
        points.len() > 0,
        forall|i: int|
            0 <= i < points.len() ==> b.min_x <= (#[trigger] points[i]).x <= b.max_x && b.min_y
                <= points[i].y <= b.max_y,
    ensures
        box_over(None, points) is Some,
        ({
            let r = box_over(None, points)->0;
            b.min_x <= r.min_x && r.max_x <= b.max_x && b.min_y <= r.min_y && r.max_y <= b.max_y
        }),
    decreases points.len(),
{
    if points.len() > 1 {
        let front = points.drop_last();
        assert forall|i: int| 0 <= i < front.len() implies b.min_x <= (#[trigger] front[i]).x <= b.max_x
            && b.min_y <= front[i].y <= b.max_y by {
            assert(front[i] == points[i]);
        }
        lemma_box_within(front, b);
        assert(points.last() == points[points.len() - 1]);
    } else {
        assert(box_over(None, points.drop_last()) == None::<BoundingBox>);
        assert(points.last() == points[0]);
    }
}

proof fn lemma_box_of(b: BoundingBox, points: Seq<Point2>)
    requires
        points.len() == 8,
        forall|i: int|
            0 <= i < points.len() ==> b.min_x <= (#[trigger] points[i]).x <= b.max_x && b.min_y
                <= points[i].y <= b.max_y,
        points[0].x == b.min_x,
        points[0].y == b.min_y,
        points[3].x == b.max_x,
        points[3].y == b.max_y,
    ensures
        box_over(None, points) == Some(b),
{
    lemma_box_within(points, b);
    crate::pcb::lemma_box_holds(None, points, 0);
    crate::pcb::lemma_box_holds(None, points, 3);
}

/// A line that is drawn starts and ends where it was asked to.
#[verifier::rlimit(40)]
pub proof fn lemma_line_is_read_back(
    a: (i64, i64),
    b: (i64, i64),
    width: int,
    layer: Seq<char>,
    stamp: Seq<char>,
)
    ensures
        ({
            let text = line_text(a.0 as int, a.1 as int, b.0 as int, b.1 as int, width, layer, stamp);
            &&& marked_point(text, "(start "@) == seq![Point2 { x: a.0, y: a.1 }]
            &&& marked_point(text, "(end "@) == seq![Point2 { x: b.0, y: b.1 }]
        }),
{
    reveal_strlit("  (gr_line (start ");
    reveal_strlit("(start ");
    reveal_strlit(")\n    (stroke (width ");
    reveal_strlit(")");
    let text = line_text(a.0 as int, a.1 as int, b.0 as int, b.1 as int, width, layer, stamp);
    let head = seq![' ', ' ', '(', 'g', 'r', '_', 'l', 'i', 'n', 'e', ' '];
    let tail = ")\n    (stroke (width "@;
    let rest = plain(width) + ") (type solid)) (layer \""@ + layer + "\") (tstamp "@ + stamp + "))"@;
    let more = tail.skip(1) + rest;
    let p = point_text(a.0 as int, a.1 as int);
    let q = point_text(b.0 as int, b.1 as int);
    assert(head + "(start "@ =~= "  (gr_line (start "@);
    assert(tail =~= ")"@ + tail.skip(1));
    assert(text =~= "  (gr_line (start "@ + p + ") (end "@ + q + (tail + rest));
    let front = head + "(start "@ + p + ") (end "@ + q;
    assert(front + (tail + rest) =~= front + ")"@ + more);
    assert(more[0] == '\n');
    lemma_head_of_graphic(head);
    assert(is_point(p, a.0 as int, a.1 as int) && is_point(q, b.0 as int, b.1 as int)) by {
        reveal(is_point);
    }
    lemma_start_and_end(text, head, p, a, q, b, more);
}

/// A rectangle that is drawn has its corners where it was asked to.
#[verifier::rlimit(40)]
pub proof fn lemma_rectangle_is_read_back(
    a: (i64, i64),
    b: (i64, i64),
    width: int,
    layer: Seq<char>,
    stamp: Seq<char>,
)
    ensures
        ({
            let text = rect_text(a.0 as int, a.1 as int, b.0 as int, b.1 as int, width, layer, stamp);
            &&& marked_point(text, "(start "@) == seq![Point2 { x: a.0, y: a.1 }]
            &&& marked_point(text, "(end "@) == seq![Point2 { x: b.0, y: b.1 }]
        }),
{
    reveal_strlit("  (gr_rect (start ");
    reveal_strlit("(start ");
    reveal_strlit(")\n    (stroke (width ");
    reveal_strlit(")");
    let text = rect_text(a.0 as int, a.1 as int, b.0 as int, b.1 as int, width, layer, stamp);
    let head = seq![' ', ' ', '(', 'g', 'r', '_', 'r', 'e', 'c', 't', ' '];
    let tail = ")\n    (stroke (width "@;
    let rest = plain(width) + ") (type solid)) (fill none) (layer \""@ + layer + "\") (tstamp "@ + stamp
        + "))"@;
    let more = tail.skip(1) + rest;
    let p = point_text(a.0 as int, a.1 as int);
    let q = point_text(b.0 as int, b.1 as int);
    assert(head + "(start "@ =~= "  (gr_rect (start "@);
    assert(tail =~= ")"@ + tail.skip(1));
    assert(text =~= "  (gr_rect (start "@ + p + ") (end "@ + q + (tail + rest));
    let front = head + "(start "@ + p + ") (end "@ + q;
    assert(front + (tail + rest) =~= front + ")"@ + more);
    assert(more[0] == '\n');
    lemma_head_of_graphic(head);
    assert(is_point(p, a.0 as int, a.1 as int) && is_point(q, b.0 as int, b.1 as int)) by {
        reveal(is_point);
    }
    lemma_start_and_end(text, head, p, a, q, b, more);
}

proof fn lemma_head_of_graphic(head: Seq<char>)
    requires
        head.len() == 11,
        head[2] == '(',
        head[3] == 'g',
        forall|i: int| 0 <= i < 11 && i != 2 ==> #[trigger] head[i] != '(',
    ensures
        head.last() != '(',
        forall|i: int|
            0 <= i < head.len() - 1 && #[trigger] head[i] == '(' ==> head[i + 1] != 's' && head[i + 1]
                != 'e',
{
}

/// What is drawn when a kind is named: a line or a rectangle between two points, a circle
/// round one through a point as far to its right as asked for, else a text. What is not
/// given is the silk screen of the front, a width of 0.12 mm and a radius of 1 mm.
pub proof fn lemma_graphic_is_what_is_asked_for(g: Graphic, stamp: Seq<char>)
    ensures
        ({
            let layer = match g.layer {
                Some(l) => l@,
                None => "F.SilkS"@,
            };
            let width = match g.width {
                Some(w) => w as int,
                None => 120_000,
            };
            let x2 = match g.x2 {
                Some(x) => x as int,
                None => g.x as int,
            };
            let y2 = match g.y2 {
                Some(y) => y as int,
                None => g.y as int,
            };
            let edge = g.x + match g.x2 {
                Some(r) => r as int,
                None => 1_000_000,
            };
            let is = |kind: Seq<char>| g.kind matches Some(k) && k@ == kind;
            &&& is("line"@) ==> graphic_text(g, stamp) == Some(
                line_text(g.x as int, g.y as int, x2, y2, width, layer, stamp),
            )
            &&& is("rect"@) ==> graphic_text(g, stamp) == Some(
                rect_text(g.x as int, g.y as int, x2, y2, width, layer, stamp),
            )
            &&& is("circle"@) && i64::MIN <= edge <= i64::MAX ==> graphic_text(g, stamp) == Some(
                circle_text(g.x as int, g.y as int, edge, g.y as int, width, layer, stamp),
            )
        }),
{
    reveal_strlit("line");
    reveal_strlit("rect");
    reveal_strlit("circle");
    assert("line"@[0] == 'l' && "rect"@[0] == 'r' && "circle"@[0] == 'c');
}

/// A circle that is drawn gives its middle, a point on it, its width and its layer.
#[verifier::rlimit(40)]
pub proof fn lemma_circle_says_where_it_is(
    x: int,
    y: int,
    x2: int,
    y2: int,
    width: int,
    layer: Seq<char>,
    stamp: Seq<char>,
)
    ensures
        stands(
            circle_text(x, y, x2, y2, width, layer, stamp),
            2,
            "(gr_circle (center "@ + point_text(x, y) + ") (end "@ + point_text(x2, y2) + ")"@,
        ),
{
    reveal_strlit("  (gr_circle (center ");
    reveal_strlit("(gr_circle (center ");
    reveal_strlit(")\n    (stroke (width ");
    reveal_strlit(")");
    let p = point_text(x, y);
    let q = point_text(x2, y2);
    let part = "(gr_circle (center "@ + p + ") (end "@ + q + ")"@;
    let tail = ")\n    (stroke (width "@;
    let rest = plain(width) + ") (type solid)) (fill none) (layer \""@ + layer + "\") (tstamp "@ + stamp
        + "))"@;
    let text = circle_text(x, y, x2, y2, width, layer, stamp);
    assert("  (gr_circle (center "@ =~= seq![' ', ' '] + "(gr_circle (center "@);
    assert(text =~= "  (gr_circle (center "@ + p + ") (end "@ + q + (tail + rest));
    assert(tail =~= ")"@ + tail.skip(1));
    assert(text =~= seq![' ', ' '] + part + (tail.skip(1) + rest));
    assert(text.subrange(2, 2 + part.len() as int) =~= part);
}

/// A label that is added gives its text and where it stands, and the label for all sheets
/// its shape.
#[verifier::rlimit(40)]
pub proof fn lemma_label_says_where_it_is(
    text: Seq<char>,
    shape: Seq<char>,
    x: int,
    y: int,
    turn: int,
    stamp: Seq<char>,
)
    ensures
        stands(
            local_label(text, x, y, turn, stamp),
            0,
            "\n  (label \""@ + text + "\" (at "@ + point_text(x, y) + " "@ + plain(turn) + ")"@,
        ),
        stands(
            global_label(text, shape, x, y, turn, stamp),
            0,
            "\n  (global_label \""@ + text + "\" (shape "@ + shape + ") (at "@ + point_text(x, y) + " "@
                + plain(turn) + ")"@,
        ),
{
    reveal_strlit(")");
    reveal_strlit(")\n    (effects (font (size 1.27 1.27)) (justify left))\n    (uuid \"");
    reveal_strlit(
        ") (fields_autoplaced)\n    (effects (font (size 1.27 1.27)) (justify left))\n    (uuid \"",
    );
    let p = point_text(x, y);
    let local = "\n  (label \""@ + text + "\" (at "@ + p + " "@ + plain(turn);
    let tail = ")\n    (effects (font (size 1.27 1.27)) (justify left))\n    (uuid \""@;
    assert(local_label(text, x, y, turn, stamp) =~= local + (tail + stamp + "\")\n  )"@));
    let whole = local + (tail + stamp + "\")\n  )"@);
    let part = local + ")"@;
    assert(whole.subrange(0, part.len() as int) =~= part);
    let global = "\n  (global_label \""@ + text + "\" (shape "@ + shape + ") (at "@ + p + " "@ + plain(
        turn,
    );
    let more = ") (fields_autoplaced)\n    (effects (font (size 1.27 1.27)) (justify left))\n    (uuid \""@;
    let end = "\")\n    (property \"Intersheet References\" \"\" (id 0) (at 0 0 0)\n      (effects (font (size 1.27 1.27)) hide)\n    )\n  )"@;
    assert(global_label(text, shape, x, y, turn, stamp) =~= global + (more + stamp + end));
    let all = global + (more + stamp + end);
    let piece = global + ")"@;
    assert(all.subrange(0, piece.len() as int) =~= piece);
}

} // verus!
