//! The edge of a board: lines joined end to end, and the largest ring of them.

use crate::distance::{in_reach, reachable, FAR};
use crate::pcb::{bounds_of, box_over, BoundingBox, CutoutShape, Point2};
use vstd::prelude::*;

verus! {

/// How far the ends of two lines that meet may be apart, in nanometres.
pub const SLACK: i64 = 1_000;

/// The most corners that a ring may have.
pub const MOST_CORNERS: usize = 1_000_000;

/// Whether two points count as one.
pub open spec fn near(a: Point2, b: Point2) -> bool {
    -SLACK <= a.x - b.x <= SLACK && -SLACK <= a.y - b.y <= SLACK
}

fn is_near(a: Point2, b: Point2) -> (yes: bool)
    ensures
        yes == near(a, b),
{
    let dx: i128 = a.x as i128 - b.x as i128;
    let dy: i128 = a.y as i128 - b.y as i128;
    -1_000 <= dx && dx <= 1_000 && -1_000 <= dy && dy <= 1_000
}

/// Whether one end of a line is at a point.
pub open spec fn touches(line: (Point2, Point2), p: Point2) -> bool {
    near(line.0, p) || near(line.1, p)
}

/// The other end of a line that touches a point.
pub open spec fn far_end(line: (Point2, Point2), p: Point2) -> Point2 {
    if near(line.0, p) {
        line.1
    } else {
        line.0
    }
}

/// The first line from `from` on that touches a point.
pub open spec fn touching(lines: Seq<(Point2, Point2)>, p: Point2, from: int) -> Option<int>
    decreases lines.len() - from,
{
    if from < 0 || from >= lines.len() {
        None
    } else if touches(lines[from], p) {
        Some(from)
    } else {
        touching(lines, p, from + 1)
    }
}

proof fn lemma_touching(lines: Seq<(Point2, Point2)>, p: Point2, from: int)
    ensures
        touching(lines, p, from) matches Some(i) ==> from <= i < lines.len() && touches(lines[i], p),
    decreases lines.len() - from,
{
    if 0 <= from < lines.len() && !touches(lines[from], p) {
        lemma_touching(lines, p, from + 1);
    }
}

fn find_touching(lines: &Vec<(Point2, Point2)>, p: Point2) -> (at: Option<usize>)
    ensures
        (match at {
            Some(i) => Some(i as int),
            None => None,
        }) == touching(lines@, p, 0),
{
    let mut i: usize = 0;
    while i < lines.len()
        invariant
            i <= lines@.len(),
            touching(lines@, p, 0) == touching(lines@, p, i as int),
        decreases lines@.len() - i,
    {
        if is_near(lines[i].0, p) || is_near(lines[i].1, p) {
            return Some(i);
        }
        i += 1;
    }
    None
}

/// A ring that has come as far as `end`, followed along the lines until it is back at
/// its start or no line goes on; and the lines that are left.
pub open spec fn followed(ring: Seq<Point2>, end: Point2, lines: Seq<(Point2, Point2)>) -> (
    Seq<Point2>,
    Seq<(Point2, Point2)>,
)
    decreases lines.len(),
    via followed_decreases
{
    if near(ring[0], end) {
        (ring, lines)
    } else {
        match touching(lines, end, 0) {
            None => (ring.push(end), lines),
            Some(i) => followed(ring.push(end), far_end(lines[i], end), lines.remove(i)),
        }
    }
}

#[via_fn]
proof fn followed_decreases(ring: Seq<Point2>, end: Point2, lines: Seq<(Point2, Point2)>) {
    lemma_touching(lines, end, 0);
}

proof fn lemma_followed(ring: Seq<Point2>, end: Point2, lines: Seq<(Point2, Point2)>)
    ensures
        followed(ring, end, lines).1.len() <= lines.len(),
        followed(ring, end, lines).0.len() >= ring.len(),
    decreases lines.len(),
{
    if !near(ring[0], end) {
        lemma_touching(lines, end, 0);
        if let Some(i) = touching(lines, end, 0) {
            lemma_followed(ring.push(end), far_end(lines[i], end), lines.remove(i));
        }
    }
}

/// Lines joined end to end, ring by ring.
pub open spec fn joined_lines(lines: Seq<(Point2, Point2)>) -> Seq<Seq<Point2>>
    decreases lines.len(),
    via joined_lines_decreases
{
    if lines.len() == 0 {
        Seq::empty()
    } else {
        let (ring, rest) = followed(seq![lines[0].0], lines[0].1, lines.skip(1));
        seq![ring] + joined_lines(rest)
    }
}

#[via_fn]
proof fn joined_lines_decreases(lines: Seq<(Point2, Point2)>) {
    if lines.len() > 0 {
        lemma_followed(seq![lines[0].0], lines[0].1, lines.skip(1));
    }
}

/// Rings as sequences.
pub open spec fn ring_views(rings: Seq<Vec<Point2>>) -> Seq<Seq<Point2>> {
    rings.map_values(|r: Vec<Point2>| r@)
}

/// Joins lines end to end, ring by ring.
pub fn join_lines(lines: Vec<(Point2, Point2)>) -> (rings: Vec<Vec<Point2>>)
    ensures
        ring_views(rings@) == joined_lines(lines@),
{
    let ghost all = joined_lines(lines@);
    let mut left: Vec<(Point2, Point2)> = lines;
    let mut rings: Vec<Vec<Point2>> = Vec::new();
    proof {
        assert(ring_views(rings@) + all =~= all);
    }
    while left.len() > 0
        invariant
            all == ring_views(rings@) + joined_lines(left@),
        decreases left@.len(),
    {
        let ghost before = left@;
        let first = left.remove(0);
        proof {
            assert(left@ =~= before.skip(1));
        }
        let mut ring: Vec<Point2> = Vec::new();
        ring.push(first.0);
        let mut end = first.1;
        let ghost goal = followed(seq![before[0].0], before[0].1, before.skip(1));
        proof {
            assert(ring@ =~= seq![before[0].0]);
            lemma_followed(ring@, end, left@);
        }
        loop
            invariant_except_break
                goal == followed(ring@, end, left@),
            invariant
                ring@.len() > 0,
                left@.len() < before.len(),
            ensures
                goal == (ring@, left@),
            decreases left@.len(),
        {
            if is_near(ring[0], end) {
                break;
            }
            proof {
                lemma_touching(left@, end, 0);
            }
            match find_touching(&left, end) {
                None => {
                    ring.push(end);
                    break;
                },
                Some(i) => {
                    ring.push(end);
                    let next = left.remove(i);
                    end = if is_near(next.0, end) {
                        next.1
                    } else {
                        next.0
                    };
                },
            }
        }
        let ghost done = rings@;
        proof {
            lemma_followed(seq![before[0].0], before[0].1, before.skip(1));
        }
        rings.push(ring);
        proof {
            assert(ring_views(rings@) =~= ring_views(done).push(ring@));
            assert(ring_views(done) + (seq![ring@] + joined_lines(left@)) =~= ring_views(rings@)
                + joined_lines(left@));
        }
    }
    proof {
        assert(joined_lines(left@) =~= Seq::<Seq<Point2>>::empty());
        assert(ring_views(rings@) + Seq::<Seq<Point2>>::empty() =~= ring_views(rings@));
    }
    rings
}

/// Whether a point is an end of one of the lines.
pub open spec fn is_end(lines: Seq<(Point2, Point2)>, p: Point2) -> bool {
    exists|i: int|
        0 <= i < lines.len() && ((#[trigger] lines[i]).0 == p || lines[i].1 == p)
}

proof fn lemma_ends_kept(
    all: Seq<(Point2, Point2)>,
    ring: Seq<Point2>,
    end: Point2,
    lines: Seq<(Point2, Point2)>,
)
    requires
        is_end(all, end),
        forall|k: int| 0 <= k < ring.len() ==> is_end(all, #[trigger] ring[k]),
        forall|k: int| 0 <= k < lines.len() ==> all.contains(#[trigger] lines[k]),
    ensures
        forall|k: int|
            0 <= k < followed(ring, end, lines).0.len() ==> is_end(
                all,
                #[trigger] followed(ring, end, lines).0[k],
            ),
        forall|k: int|
            0 <= k < followed(ring, end, lines).1.len() ==> all.contains(
                #[trigger] followed(ring, end, lines).1[k],
            ),
    decreases lines.len(),
{
    lemma_touching(lines, end, 0);
    if !near(ring[0], end) {
        let longer = ring.push(end);
        assert forall|k: int| 0 <= k < longer.len() implies is_end(all, #[trigger] longer[k]) by {
            if k < ring.len() {
                assert(longer[k] == ring[k]);
            }
        }
        if let Some(i) = touching(lines, end, 0) {
            let line = lines[i];
            assert(all.contains(line));
            let j = choose|j: int| 0 <= j < all.len() && all[j] == line;
            assert(is_end(all, far_end(line, end))) by {
                assert(all[j].0 == far_end(line, end) || all[j].1 == far_end(line, end));
            }
            let rest = lines.remove(i);
            assert forall|k: int| 0 <= k < rest.len() implies all.contains(#[trigger] rest[k]) by {
                if k < i {
                    assert(rest[k] == lines[k]);
                } else {
                    assert(rest[k] == lines[k + 1]);
                }
            }
            lemma_ends_kept(all, longer, far_end(line, end), rest);
            assert(followed(ring, end, lines) == followed(longer, far_end(line, end), rest));
        } else {
            assert(followed(ring, end, lines) == (longer, lines));
        }
    } else {
        assert(followed(ring, end, lines) == (ring, lines));
    }
}

/// Every corner of the rings is an end of a line: joining makes up no place.
pub proof fn lemma_corners_are_ends(lines: Seq<(Point2, Point2)>, i: int, k: int)
    requires
        0 <= i < joined_lines(lines).len(),
        0 <= k < joined_lines(lines)[i].len(),
    ensures
        is_end(lines, joined_lines(lines)[i][k]),
{
    assert forall|j: int| 0 <= j < lines.len() implies lines.contains(#[trigger] lines[j]) by {}
    lemma_joined_ends(lines, lines, i, k);
}

proof fn lemma_joined_ends(
    all: Seq<(Point2, Point2)>,
    lines: Seq<(Point2, Point2)>,
    i: int,
    k: int,
)
    requires
        forall|j: int| 0 <= j < lines.len() ==> all.contains(#[trigger] lines[j]),
        0 <= i < joined_lines(lines).len(),
        0 <= k < joined_lines(lines)[i].len(),
    ensures
        is_end(all, joined_lines(lines)[i][k]),
    decreases lines.len(),
{
    let first = lines[0];
    let skipped = lines.skip(1);
    let j = choose|j: int| 0 <= j < all.len() && all[j] == first;
    assert(all.contains(first));
    assert(is_end(all, first.0) && is_end(all, first.1)) by {
        assert(all[j].0 == first.0 && all[j].1 == first.1);
    }
    assert forall|n: int| 0 <= n < skipped.len() implies all.contains(#[trigger] skipped[n]) by {
        assert(skipped[n] == lines[n + 1]);
    }
    lemma_ends_kept(all, seq![first.0], first.1, skipped);
    lemma_followed(seq![first.0], first.1, skipped);
    let (ring, rest) = followed(seq![first.0], first.1, skipped);
    if i == 0 {
        assert(joined_lines(lines)[0] == ring);
    } else {
        assert(joined_lines(lines)[i] == joined_lines(rest)[i - 1]);
        lemma_joined_ends(all, rest, i - 1, k);
    }
}

/// Whether a ring encloses something and its area can be computed.
pub open spec fn is_usable(ring: Seq<Point2>) -> bool {
    &&& 3 <= ring.len() <= MOST_CORNERS
    &&& forall|k: int| 0 <= k < ring.len() ==> in_reach(((#[trigger] ring[k]).x as int, ring[k].y as int))
}

fn test_usable(ring: &Vec<Point2>) -> (yes: bool)
    ensures
        yes == is_usable(ring@),
{
    if ring.len() < 3 || ring.len() > MOST_CORNERS {
        return false;
    }
    let mut k: usize = 0;
    while k < ring.len()
        invariant
            k <= ring@.len(),
            forall|j: int|
                0 <= j < k ==> in_reach(((#[trigger] ring@[j]).x as int, ring@[j].y as int)),
        decreases ring@.len() - k,
    {
        if !reachable((ring[k].x, ring[k].y)) {
            proof {
                assert(!in_reach((ring@[k as int].x as int, ring@[k as int].y as int)));
            }
            return false;
        }
        k += 1;
    }
    true
}

/// What one side of a ring adds to twice its area.
pub open spec fn side(a: Point2, b: Point2) -> int {
    a.x * b.y - b.x * a.y
}

/// What the sides up to a corner add to twice the area of a ring.
pub open spec fn sides(ring: Seq<Point2>, k: int) -> int
    decreases k,
{
    if k <= 0 {
        0
    } else {
        sides(ring, k - 1) + side(ring[k - 1], ring[if k == ring.len() {
            0
        } else {
            k
        }])
    }
}

/// Twice the area of a ring; below zero if it runs clockwise.
pub open spec fn twice_area(ring: Seq<Point2>) -> int {
    sides(ring, ring.len() as int)
}

proof fn lemma_side_bound(a: Point2, b: Point2)
    requires
        in_reach((a.x as int, a.y as int)),
        in_reach((b.x as int, b.y as int)),
    ensures
        -18_000_000_000_000_000_000 <= side(a, b) <= 18_000_000_000_000_000_000,
        -9_000_000_000_000_000_000 <= a.x * b.y <= 9_000_000_000_000_000_000,
        -9_000_000_000_000_000_000 <= b.x * a.y <= 9_000_000_000_000_000_000,
{
    assert(-9_000_000_000_000_000_000 <= a.x * b.y <= 9_000_000_000_000_000_000) by (nonlinear_arith)
        requires
            -3_000_000_000 <= a.x <= 3_000_000_000,
            -3_000_000_000 <= b.y <= 3_000_000_000,
    ;
    assert(-9_000_000_000_000_000_000 <= b.x * a.y <= 9_000_000_000_000_000_000) by (nonlinear_arith)
        requires
            -3_000_000_000 <= b.x <= 3_000_000_000,
            -3_000_000_000 <= a.y <= 3_000_000_000,
    ;
}

fn measure(ring: &Vec<Point2>) -> (area: i128)
    requires
        is_usable(ring@),
    ensures
        area == twice_area(ring@),
        -18_000_000_000_000_000_000_000_000 <= area <= 18_000_000_000_000_000_000_000_000,
{
    let mut area: i128 = 0;
    let mut k: usize = 0;
    while k < ring.len()
        invariant
            k <= ring@.len() <= MOST_CORNERS,
            is_usable(ring@),
            area == sides(ring@, k as int),
            -18_000_000_000_000_000_000 * k <= area <= 18_000_000_000_000_000_000 * k,
        decreases ring@.len() - k,
    {
        let a = ring[k];
        k += 1;
        let b = if k == ring.len() {
            ring[0]
        } else {
            ring[k]
        };
        proof {
            assert(in_reach((ring@[k - 1].x as int, ring@[k - 1].y as int)));
            lemma_side_bound(a, b);
        }
        area = area + (a.x as i128 * b.y as i128 - b.x as i128 * a.y as i128);
    }
    area
}

/// How large a number is, whatever its sign.
pub open spec fn size(n: int) -> int {
    if n < 0 {
        -n
    } else {
        n
    }
}

/// The ring of the largest area, the first of those alike.
pub open spec fn largest(rings: Seq<Seq<Point2>>) -> int
    decreases rings.len(),
{
    if rings.len() <= 1 {
        0
    } else {
        let k = largest(rings.drop_last());
        if size(twice_area(rings.last())) > size(twice_area(rings[k])) {
            rings.len() - 1
        } else {
            k
        }
    }
}

/// No ring is larger than the one that is taken for the outline.
pub proof fn lemma_largest(rings: Seq<Seq<Point2>>, i: int)
    requires
        0 <= i < rings.len(),
    ensures
        0 <= largest(rings) < rings.len(),
        size(twice_area(rings[i])) <= size(twice_area(rings[largest(rings)])),
    decreases rings.len(),
{
    if rings.len() > 1 {
        let front = rings.drop_last();
        lemma_largest(front, if i < front.len() {
            i
        } else {
            0
        });
        assert(front[largest(front)] == rings[largest(front)]);
        if i < front.len() {
            assert(front[i] == rings[i]);
        }
    }
}

/// The rings that are usable.
pub open spec fn usable(rings: Seq<Seq<Point2>>) -> Seq<Seq<Point2>>
    decreases rings.len(),
{
    if rings.len() == 0 {
        Seq::empty()
    } else {
        let front = usable(rings.drop_last());
        if is_usable(rings.last()) {
            front.push(rings.last())
        } else {
            front
        }
    }
}

/// A ring, counter-clockwise.
pub open spec fn upright(ring: Seq<Point2>) -> Seq<Point2> {
    if twice_area(ring) < 0 {
        ring.reverse()
    } else {
        ring
    }
}

/// The outline of a board: the largest of the usable rings.
pub open spec fn outline_of(rings: Seq<Seq<Point2>>) -> Option<Seq<Point2>> {
    let list = usable(rings);
    if list.len() == 0 {
        None
    } else {
        Some(upright(list[largest(list)]))
    }
}

/// The opening that a ring stands for: the rectangle round it.
pub open spec fn opening(b: BoundingBox) -> CutoutShape {
    let wide = (b.max_x - b.min_x) / 2;
    let high = (b.max_y - b.min_y) / 2;
    CutoutShape::Rect {
        center: Point2 { x: (b.min_x + wide) as i64, y: (b.min_y + high) as i64 },
        half_width: wide as i64,
        half_height: high as i64,
        rotation: 0,
    }
}

/// The openings that the rings but one stand for.
pub open spec fn openings(list: Seq<Seq<Point2>>, but: int) -> Seq<CutoutShape>
    decreases list.len(),
{
    if list.len() == 0 {
        Seq::empty()
    } else {
        let front = openings(list.drop_last(), but);
        if list.len() - 1 == but {
            front
        } else {
            front.push(opening(box_over(None, list.last())->0))
        }
    }
}

/// The openings in a board: the usable rings other than the outline.
pub open spec fn openings_of(rings: Seq<Seq<Point2>>) -> Seq<CutoutShape> {
    let list = usable(rings);
    openings(list, largest(list))
}

fn keep_usable(rings: Vec<Vec<Point2>>) -> (out: Vec<Vec<Point2>>)
    ensures
        ring_views(out@) == usable(ring_views(rings@)),
        forall|i: int| 0 <= i < out@.len() ==> is_usable((#[trigger] out@[i])@),
{
    let ghost all = ring_views(rings@);
    let mut left: Vec<Vec<Point2>> = rings;
    let mut back: Vec<Vec<Point2>> = Vec::new();
    let n: usize = left.len();
    while left.len() > 0
        invariant
            all.len() == n,
            left@.len() + back@.len() == n,
            forall|j: int| 0 <= j < left@.len() ==> all[j] == (#[trigger] left@[j])@,
            forall|j: int| 0 <= j < back@.len() ==> all[n - 1 - j] == (#[trigger] back@[j])@,
        decreases left@.len(),
    {
        let ghost before = left@;
        let last = left.pop();
        proof {
            assert(before[before.len() - 1]@ == all[before.len() - 1]);
        }
        match last {
            Some(r) => {
                back.push(r);
            },
            None => {},
        }
    }
    let mut out: Vec<Vec<Point2>> = Vec::new();
    proof {
        assert(all.take(0).len() == 0);
        assert(ring_views(out@) =~= Seq::<Seq<Point2>>::empty());
    }
    while back.len() > 0
        invariant
            all.len() == n,
            back@.len() <= n,
            forall|j: int| 0 <= j < back@.len() ==> all[n - 1 - j] == (#[trigger] back@[j])@,
            ring_views(out@) == usable(all.take(n - back@.len())),
            forall|i: int| 0 <= i < out@.len() ==> is_usable((#[trigger] out@[i])@),
        decreases back@.len(),
    {
        let ghost before = back@;
        let ghost next = all.take(n - before.len() + 1);
        let ghost done = out@;
        let last = back.pop();
        proof {
            assert(next.drop_last() =~= all.take(n - before.len()));
            assert(before[before.len() - 1]@ == all[n - before.len()]);
        }
        match last {
            Some(r) => {
                if test_usable(&r) {
                    out.push(r);
                    proof {
                        assert(ring_views(out@) =~= ring_views(done).push(r@));
                    }
                }
            },
            None => {},
        }
    }
    proof {
        assert(all.take(n as int) =~= all);
    }
    out
}

fn find_largest(list: &Vec<Vec<Point2>>) -> (at: usize)
    requires
        list@.len() > 0,
        forall|i: int| 0 <= i < list@.len() ==> is_usable((#[trigger] list@[i])@),
    ensures
        at == largest(ring_views(list@)),
        at < list@.len(),
{
    let ghost all = ring_views(list@);
    let mut at: usize = 0;
    let first: i128 = measure(&list[0]);
    let mut best: i128 = if first < 0 {
        -first
    } else {
        first
    };
    let mut i: usize = 1;
    while i < list.len()
        invariant
            1 <= i <= list@.len(),
            at < i,
            all == ring_views(list@),
            forall|j: int| 0 <= j < list@.len() ==> is_usable((#[trigger] list@[j])@),
            at == largest(all.take(i as int)),
            best == size(twice_area(all[at as int])),
        decreases list@.len() - i,
    {
        proof {
            let next = all.take(i + 1);
            assert(next.drop_last() =~= all.take(i as int));
            assert(next.last() == list@[i as int]@);
            assert(next[at as int] == all[at as int]);
        }
        let area: i128 = measure(&list[i]);
        let here: i128 = if area < 0 {
            -area
        } else {
            area
        };
        if here > best {
            best = here;
            at = i;
        }
        i += 1;
    }
    proof {
        assert(all.take(all.len() as int) =~= all);
    }
    at
}

fn reversed(ring: &Vec<Point2>) -> (out: Vec<Point2>)
    ensures
        out@ == ring@.reverse(),
{
    let mut out: Vec<Point2> = Vec::new();
    let mut k: usize = ring.len();
    while k > 0
        invariant
            k <= ring@.len(),
            out@.len() + k == ring@.len(),
            forall|j: int| 0 <= j < out@.len() ==> #[trigger] out@[j] == ring@[ring@.len() - 1 - j],
        decreases k,
    {
        k -= 1;
        out.push(ring[k]);
    }
    proof {
        assert(out@ =~= ring@.reverse());
    }
    out
}

fn copied(ring: &Vec<Point2>) -> (out: Vec<Point2>)
    ensures
        out@ == ring@,
{
    let mut out: Vec<Point2> = Vec::new();
    let mut k: usize = 0;
    while k < ring.len()
        invariant
            k <= ring@.len(),
            out@ == ring@.take(k as int),
        decreases ring@.len() - k,
    {
        proof {
            assert(ring@.take(k + 1) =~= ring@.take(k as int).push(ring@[k as int]));
        }
        out.push(ring[k]);
        k += 1;
    }
    proof {
        assert(ring@.take(ring@.len() as int) =~= ring@);
    }
    out
}

proof fn lemma_box_in_reach(points: Seq<Point2>)
    requires
        points.len() > 0,
        forall|k: int|
            0 <= k < points.len() ==> in_reach(((#[trigger] points[k]).x as int, points[k].y as int)),
    ensures
        box_over(None, points) is Some,
        ({
            let b = box_over(None, points)->0;
            &&& -FAR <= b.min_x <= b.max_x <= FAR
            &&& -FAR <= b.min_y <= b.max_y <= FAR
        }),
    decreases points.len(),
{
    let front = points.drop_last();
    assert(in_reach((points[points.len() - 1].x as int, points[points.len() - 1].y as int)));
    if front.len() > 0 {
        assert forall|k: int| 0 <= k < front.len() implies in_reach(
            ((#[trigger] front[k]).x as int, front[k].y as int),
        ) by {
            assert(front[k] == points[k]);
        }
        lemma_box_in_reach(front);
    } else {
        assert(box_over(None, front) is None);
    }
}

fn open_ring(ring: &Vec<Point2>) -> (c: CutoutShape)
    requires
        is_usable(ring@),
    ensures
        c == opening(box_over(None, ring@)->0),
{
    proof {
        lemma_box_in_reach(ring@);
    }
    match bounds_of(ring) {
        Some(b) => {
            let wide: i64 = (b.max_x - b.min_x) / 2;
            let high: i64 = (b.max_y - b.min_y) / 2;
            CutoutShape::Rect {
                center: Point2 { x: b.min_x + wide, y: b.min_y + high },
                half_width: wide,
                half_height: high,
                rotation: 0,
            }
        },
        None => CutoutShape::Circle { center: Point2 { x: 0, y: 0 }, radius: 0 },
    }
}

fn open_rings(list: &Vec<Vec<Point2>>, but: usize) -> (cutouts: Vec<CutoutShape>)
    requires
        forall|j: int| 0 <= j < list@.len() ==> is_usable((#[trigger] list@[j])@),
    ensures
        cutouts@ == openings(ring_views(list@), but as int),
{
    let ghost all = ring_views(list@);
    let mut cutouts: Vec<CutoutShape> = Vec::new();
    let mut i: usize = 0;
    proof {
        assert(all.take(0).len() == 0);
    }
    while i < list.len()
        invariant
            i <= list@.len(),
            all == ring_views(list@),
            forall|j: int| 0 <= j < list@.len() ==> is_usable((#[trigger] list@[j])@),
            cutouts@ == openings(all.take(i as int), but as int),
        decreases list@.len() - i,
    {
        proof {
            let next = all.take(i + 1);
            assert(next.drop_last() =~= all.take(i as int));
            assert(next.last() == list@[i as int]@);
        }
        if i != but {
            cutouts.push(open_ring(&list[i]));
        }
        i += 1;
    }
    proof {
        assert(all.take(all.len() as int) =~= all);
    }
    cutouts
}

/// Tells the outline of a board from the openings in it.
pub fn tell_apart(rings: Vec<Vec<Point2>>) -> (out: (Option<Vec<Point2>>, Vec<CutoutShape>))
    ensures
        (match out.0 {
            Some(r) => Some(r@),
            None => None,
        }) == outline_of(ring_views(rings@)),
        out.1@ == openings_of(ring_views(rings@)),
{
    let list = keep_usable(rings);
    let ghost all = ring_views(list@);
    if list.len() == 0 {
        proof {
            assert(all.len() == 0);
        }
        return (None, Vec::new());
    }
    let at: usize = find_largest(&list);
    proof {
        assert(all[at as int] == list@[at as int]@);
    }
    let outline = if measure(&list[at]) < 0 {
        reversed(&list[at])
    } else {
        copied(&list[at])
    };
    (Some(outline), open_rings(&list, at))
}

} // verus!
