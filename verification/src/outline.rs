//! The outline of a board, and the copper zones that follow it.

use crate::board::{outline_runs, remove_edge_cuts_lines};
use crate::fields::{loose_point, read_point};
use crate::insert::{extend_point, insert_element, inserted, point_text};
use crate::pcb::{box_over, BoundingBox, Point2};
use crate::sexpr::{
    block_end, end_of_block, lemma_named, named, named_blocks, pair, pairs, without, Span,
};
use crate::text::{
    contains, extend_str, find, find_from, has_str, lemma_find_is_first, splice, spliced, to_chars,
    to_text,
};
use crate::units::{extend_fixed, extend_plain, extend_wide_length, fixed, magnitude, plain, thousandths};
use vstd::prelude::*;
use vstd::slice::slice_subrange;

verus! {

/// The point after a marker, if there is one.
pub open spec fn marked_point(block: Seq<char>, marker: Seq<char>) -> Seq<Point2> {
    match find(block, marker, 0) {
        None => Seq::empty(),
        Some(at) => match loose_point(block, at + marker.len()) {
            None => Seq::empty(),
            Some(p) => seq![Point2 { x: p.0 as i64, y: p.1 as i64 }],
        },
    }
}

/// The ends of the lines among blocks that lie on the outline.
pub open spec fn outline_points(text: Seq<char>, blocks: Seq<(int, int)>) -> Seq<Point2>
    decreases blocks.len(),
{
    if blocks.len() == 0 {
        Seq::empty()
    } else {
        let front = outline_points(text, blocks.drop_last());
        let block = text.subrange(blocks.last().0, blocks.last().1);
        if contains(block, "Edge.Cuts"@) {
            front + marked_point(block, "(start "@) + marked_point(block, "(end "@)
        } else {
            front
        }
    }
}

/// What the outline takes up; a square of 100 millimetres if there is none.
pub open spec fn edge_bounds(text: Seq<char>) -> BoundingBox {
    let points = outline_points(text, named(text, "(gr_line"@)) + outline_points(
        text,
        named(text, "(gr_rect"@),
    );
    match box_over(None, points) {
        Some(b) => b,
        None => BoundingBox { min_x: 0, min_y: 0, max_x: 100_000_000, max_y: 100_000_000 },
    }
}

fn add_marked_point(out: &mut Vec<Point2>, block: &[char], marker: &str)
    ensures
        final(out)@ == old(out)@ + marked_point(block@, marker@),
{
    let wanted = to_chars(marker);
    proof {
        lemma_find_is_first(block@, marker@, 0);
    }
    match find_from(block, wanted.as_slice(), 0) {
        None => {},
        Some(at) => match read_point(block, at + wanted.len()) {
            None => {},
            Some(p) => {
                out.push(Point2 { x: p.0, y: p.1 });
            },
        },
    }
    proof {
        assert(out@ =~= old(out)@ + marked_point(block@, marker@));
    }
}

fn add_outline_points(out: &mut Vec<Point2>, text: &[char], keyword: &str)
    requires
        keyword@.len() > 0,
    ensures
        final(out)@ == old(out)@ + outline_points(text@, named(text@, keyword@)),
{
    let blocks = named_blocks(text, keyword);
    let ghost all = pairs(blocks@);
    let mut i: usize = 0;
    proof {
        assert(all.take(0).len() == 0);
        assert(out@ =~= old(out)@ + outline_points(text@, all.take(0)));
    }
    while i < blocks.len()
        invariant
            i <= blocks@.len(),
            all == pairs(blocks@),
            forall|j: int|
                0 <= j < blocks@.len() ==> (#[trigger] blocks@[j]).start < blocks@[j].end
                    <= text@.len(),
            out@ == old(out)@ + outline_points(text@, all.take(i as int)),
        decreases blocks@.len() - i,
    {
        let b: Span = blocks[i];
        proof {
            assert(all.take(i + 1).drop_last() =~= all.take(i as int));
            assert(all.take(i + 1).last() == pair(b));
        }
        let block = slice_subrange(text, b.start, b.end);
        if has_str(block, "Edge.Cuts") {
            add_marked_point(out, block, "(start ");
            add_marked_point(out, block, "(end ");
            proof {
                assert(out@ =~= old(out)@ + outline_points(text@, all.take(i + 1)));
            }
        }
        i += 1;
    }
    proof {
        assert(all.take(all.len() as int) =~= all);
    }
}

/// What the outline takes up.
pub fn parse_edge_cuts_bounds(content: &str) -> (b: BoundingBox)
    ensures
        b == edge_bounds(content@),
{
    let text = to_chars(content);
    let mut points: Vec<Point2> = Vec::new();
    proof {
        reveal_strlit("(gr_line");
        reveal_strlit("(gr_rect");
    }
    add_outline_points(&mut points, text.as_slice(), "(gr_line");
    let ghost first = points@;
    proof {
        assert(first =~= outline_points(text@, named(text@, "(gr_line"@)));
    }
    add_outline_points(&mut points, text.as_slice(), "(gr_rect");
    match crate::pcb::bounds_of(&points) {
        Some(b) => b,
        None => BoundingBox { min_x: 0, min_y: 0, max_x: 100_000_000, max_y: 100_000_000 },
    }
}

/// The points of a polygon from a place on.
pub open spec fn corners_from(block: Seq<char>, from: int) -> Seq<Point2>
    decreases block.len() - from,
{
    match find(block, "(xy "@, from) {
        None => Seq::empty(),
        Some(at) => if 0 <= from <= at < block.len() {
            (match loose_point(block, at + 4) {
                None => Seq::empty(),
                Some(p) => seq![Point2 { x: p.0 as i64, y: p.1 as i64 }],
            }) + corners_from(block, at + 1)
        } else {
            Seq::empty()
        },
    }
}

fn read_corners(block: &[char]) -> (out: Vec<Point2>)
    ensures
        out@ == corners_from(block@, 0),
{
    let marker = to_chars("(xy ");
    proof {
        reveal_strlit("(xy ");
        assert(marker@.len() == 4);
    }
    let mut out: Vec<Point2> = Vec::new();
    let mut from: usize = 0;
    let ghost all = corners_from(block@, 0);
    proof {
        assert(out@ + all =~= all);
    }
    loop
        invariant
            from <= block@.len(),
            marker@ == "(xy "@,
            marker@.len() == 4,
            all == out@ + corners_from(block@, from as int),
        ensures
            out@ == all,
        decreases block@.len() - from,
    {
        proof {
            lemma_find_is_first(block@, marker@, from as int);
            assert(out@ + Seq::<Point2>::empty() =~= out@);
        }
        match find_from(block, marker.as_slice(), from) {
            None => {
                break;
            },
            Some(at) => {
                let ghost rest = corners_from(block@, at + 1);
                let ghost done = out@;
                match read_point(block, at + 4) {
                    None => {
                        proof {
                            assert(done + (Seq::<Point2>::empty() + rest) =~= done + rest);
                        }
                    },
                    Some(p) => {
                        let c = Point2 { x: p.0, y: p.1 };
                        out.push(c);
                        proof {
                            assert(done + (seq![c] + rest) =~= out@ + rest);
                        }
                    },
                }
                from = at + 1;
            },
        }
    }
    out
}

/// Whether a length is within a tenth of another, or the other is too small to
/// compare with.
pub open spec fn nearly(n: int, wanted: int) -> bool {
    wanted < 10_000 || 10 * magnitude(n - wanted) < wanted
}

/// Whether a rectangle is about as large as another.
pub open spec fn same_size(b: BoundingBox, other: BoundingBox) -> bool {
    nearly(b.max_x - b.min_x, magnitude(other.max_x - other.min_x)) && nearly(
        b.max_y - b.min_y,
        magnitude(other.max_y - other.min_y),
    )
}

/// The outline of a zone, if it is about as large as the board was.
pub open spec fn zone_outline(text: Seq<char>, zone: (int, int), old: BoundingBox) -> Option<
    (int, int),
> {
    let block = text.subrange(zone.0, zone.1);
    match find(block, "(polygon"@, 0) {
        None => None,
        Some(at) => {
            let end = end_of_block(block, at);
            match box_over(None, corners_from(block.subrange(at, end), 0)) {
                Some(b) => if same_size(b, old) {
                    Some((zone.0 + at, zone.0 + end))
                } else {
                    None
                },
                None => None,
            }
        },
    }
}

/// The outlines of the zones that are about as large as the board was.
pub open spec fn zone_outlines(text: Seq<char>, zones: Seq<(int, int)>, old: BoundingBox) -> Seq<
    (int, int),
>
    decreases zones.len(),
{
    if zones.len() == 0 {
        Seq::empty()
    } else {
        let front = zone_outlines(text, zones.drop_last(), old);
        match zone_outline(text, zones.last(), old) {
            Some(run) => front.push(run),
            None => front,
        }
    }
}

/// A text with runs of it replaced, the last first.
pub open spec fn swapped(text: Seq<char>, runs: Seq<(int, int)>, new: Seq<char>) -> Seq<char>
    decreases runs.len(),
{
    if runs.len() == 0 {
        text
    } else {
        swapped(spliced(text, runs.last().0, runs.last().1, new), runs.drop_last(), new)
    }
}

/// A rectangle as the outline of a zone.
pub open spec fn zone_text(b: BoundingBox) -> Seq<char> {
    "(polygon\n      (pts\n        (xy "@ + point_text(b.min_x as int, b.min_y as int)
        + ")\n        (xy "@ + point_text(b.max_x as int, b.min_y as int) + ")\n        (xy "@
        + point_text(b.max_x as int, b.max_y as int) + ")\n        (xy "@ + point_text(
        b.min_x as int,
        b.max_y as int,
    ) + ")\n        (xy "@ + point_text(b.min_x as int, b.min_y as int) + ")\n      )\n    )"@
}

fn write_zone(b: &BoundingBox) -> (out: Vec<char>)
    ensures
        out@ == zone_text(*b),
{
    let mut out = to_chars("(polygon\n      (pts\n        (xy ");
    extend_point(&mut out, b.min_x, b.min_y);
    extend_str(&mut out, ")\n        (xy ");
    extend_point(&mut out, b.max_x, b.min_y);
    extend_str(&mut out, ")\n        (xy ");
    extend_point(&mut out, b.max_x, b.max_y);
    extend_str(&mut out, ")\n        (xy ");
    extend_point(&mut out, b.min_x, b.max_y);
    extend_str(&mut out, ")\n        (xy ");
    extend_point(&mut out, b.min_x, b.min_y);
    extend_str(&mut out, ")\n      )\n    )");
    out
}

/// Zones follow the board: those about as large as it was become as large as it is.
pub open spec fn with_zones(text: Seq<char>, old: BoundingBox, new: BoundingBox) -> Seq<char> {
    swapped(text, zone_outlines(text, named(text, "(zone"@), old), zone_text(new))
}

fn is_nearly(n: i128, wanted: i128) -> (yes: bool)
    requires
        -0x2_0000_0000_0000_0000 <= n <= 0x2_0000_0000_0000_0000,
        -0x2_0000_0000_0000_0000 <= wanted <= 0x2_0000_0000_0000_0000,
    ensures
        yes == nearly(n as int, magnitude(wanted as int)),
{
    let size: i128 = if wanted < 0 {
        -wanted
    } else {
        wanted
    };
    let off: i128 = if n < size {
        size - n
    } else {
        n - size
    };
    size < 10_000 || 10 * off < size
}

fn find_zone_outline(text: &[char], zone: Span, old: &BoundingBox) -> (run: Option<Span>)
    requires
        zone.start < zone.end <= text@.len(),
    ensures
        (match run {
            Some(r) => Some(pair(r)),
            None => None,
        }) == zone_outline(text@, pair(zone), *old),
        run matches Some(r) ==> zone.start <= r.start <= r.end <= zone.end,
{
    let block = slice_subrange(text, zone.start, zone.end);
    let marker = to_chars("(polygon");
    proof {
        lemma_find_is_first(block@, marker@, 0);
    }
    match find_from(block, marker.as_slice(), 0) {
        None => None,
        Some(at) => {
            let end: usize = block_end(block, at);
            let corners = read_corners(slice_subrange(block, at, end));
            match crate::pcb::bounds_of(&corners) {
                None => None,
                Some(b) => {
                    let same: bool = is_nearly(
                        b.max_x as i128 - b.min_x as i128,
                        old.max_x as i128 - old.min_x as i128,
                    ) && is_nearly(
                        b.max_y as i128 - b.min_y as i128,
                        old.max_y as i128 - old.min_y as i128,
                    );
                    if same {
                        Some(Span { start: zone.start + at, end: zone.start + end })
                    } else {
                        None
                    }
                },
            }
        },
    }
}

/// Whether runs stand one behind another, within so many characters.
pub open spec fn in_a_row(runs: Seq<(int, int)>, n: int) -> bool {
    &&& forall|i: int|
        0 <= i < runs.len() ==> 0 <= (#[trigger] runs[i]).0 <= runs[i].1 <= n
    &&& forall|i: int, j: int|
        0 <= i < j < runs.len() ==> (#[trigger] runs[i]).1 <= (#[trigger] runs[j]).0
}

fn swap_runs(text: &[char], runs: &Vec<Span>, new: &[char]) -> (out: Vec<char>)
    requires
        in_a_row(pairs(runs@), text@.len() as int),
    ensures
        out@ == swapped(text@, pairs(runs@), new@),
{
    let ghost all = pairs(runs@);
    let mut out: Vec<char> = Vec::new();
    crate::text::extend(&mut out, text);
    proof {
        assert(out@ =~= text@);
        assert(all.take(all.len() as int) =~= all);
        if all.len() > 0 {
            assert(all[all.len() - 1].1 <= text@.len());
        }
    }
    let mut n: usize = runs.len();
    while n > 0
        invariant
            n <= runs@.len(),
            all == pairs(runs@),
            in_a_row(all, text@.len() as int),
            n > 0 ==> all[n - 1].1 <= out@.len(),
            swapped(text@, all, new@) == swapped(out@, all.take(n as int), new@),
        decreases n,
    {
        n -= 1;
        let r: Span = runs[n];
        proof {
            assert(all.take(n + 1).drop_last() =~= all.take(n as int));
            assert(all.take(n + 1).last() == pair(r));
            assert(all[n as int] == pair(r));
            if n > 0 {
                assert(all[n - 1].1 <= all[n as int].0);
            }
        }
        out = splice(out.as_slice(), r.start, r.end, new);
    }
    out
}

/// Zones follow the board: those about as large as it was become as large as it is.
pub fn update_all_zone_polygons(content: &str, old: &BoundingBox, new: &BoundingBox) -> (out:
    String)
    ensures
        out@ == with_zones(content@, *old, *new),
{
    let text = to_chars(content);
    proof {
        reveal_strlit("(zone");
        lemma_named(text@, "(zone"@);
    }
    let zones = named_blocks(text.as_slice(), "(zone");
    let ghost all = pairs(zones@);
    let mut runs: Vec<Span> = Vec::new();
    let mut i: usize = 0;
    proof {
        assert(all.take(0).len() == 0);
        assert(pairs(runs@) =~= Seq::empty());
    }
    while i < zones.len()
        invariant
            i <= zones@.len(),
            all == pairs(zones@),
            forall|j: int|
                0 <= j < zones@.len() ==> (#[trigger] zones@[j]).start < zones@[j].end
                    <= text@.len(),
            forall|j: int, k: int|
                0 <= j < k < all.len() ==> (#[trigger] all[j]).1 <= (#[trigger] all[k]).0,
            pairs(runs@) == zone_outlines(text@, all.take(i as int), *old),
            in_a_row(pairs(runs@), text@.len() as int),
            i < zones@.len() ==> forall|j: int|
                0 <= j < runs@.len() ==> (#[trigger] runs@[j]).end <= zones@[i as int].start,
        decreases zones@.len() - i,
    {
        let z: Span = zones[i];
        proof {
            assert(all.take(i + 1).drop_last() =~= all.take(i as int));
            assert(all.take(i + 1).last() == pair(z));
            assert(all[i as int] == pair(z));
            if i + 1 < zones@.len() {
                assert(all[i as int].1 <= all[i + 1].0);
            }
        }
        let ghost done = runs@;
        match find_zone_outline(text.as_slice(), z, old) {
            None => {},
            Some(r) => {
                runs.push(r);
                proof {
                    assert(pairs(runs@) =~= pairs(done).push(pair(r)));
                    let now = pairs(runs@);
                    assert forall|a: int, b: int| 0 <= a < b < now.len() implies (
                    #[trigger] now[a]).1 <= (#[trigger] now[b]).0 by {
                        if b == now.len() - 1 {
                            assert(done[a].end <= z.start);
                        } else {
                            assert(pairs(done)[a].1 <= pairs(done)[b].0);
                        }
                    }
                    assert forall|a: int| 0 <= a < now.len() implies 0 <= (#[trigger] now[a]).0
                        <= now[a].1 <= text@.len() by {
                        if a < done.len() {
                            assert(pairs(done)[a].1 <= text@.len());
                        }
                    }
                }
            },
        }
        i += 1;
        proof {
            if i < zones@.len() {
                assert(all[i as int] == pair(zones@[i as int]));
                assert forall|j: int| 0 <= j < runs@.len() implies (#[trigger] runs@[j]).end
                    <= zones@[i as int].start by {
                    if j < done.len() {
                        assert(done[j].end <= z.start);
                    }
                }
            }
        }
    }
    proof {
        assert(all.take(all.len() as int) =~= all);
    }
    let shape = write_zone(new);
    let out = swap_runs(text.as_slice(), &runs, shape.as_slice());
    to_text(out.as_slice())
}

/// One side of the outline.
pub open spec fn side_text(a: (int, int), b: (int, int), stamp: Seq<char>) -> Seq<char> {
    "  (gr_line (start "@ + point_text(a.0, a.1) + ") (end "@ + point_text(b.0, b.1)
        + ")\n    (stroke (width 0.05) (type solid)) (layer \"Edge.Cuts\") (tstamp "@ + stamp
        + "))"@
}

/// The four sides of the outline.
pub open spec fn sides_text(b: BoundingBox, stamps: Seq<Seq<char>>) -> Seq<char> {
    let x1 = b.min_x as int;
    let y1 = b.min_y as int;
    let x2 = b.max_x as int;
    let y2 = b.max_y as int;
    side_text((x1, y1), (x2, y1), stamps[0]) + "\n\n"@ + side_text((x2, y1), (x2, y2), stamps[1])
        + "\n\n"@ + side_text((x2, y2), (x1, y2), stamps[2]) + "\n\n"@ + side_text(
        (x1, y2),
        (x1, y1),
        stamps[3],
    )
}

/// A board with a new outline, which zones follow if that is wanted.
pub open spec fn with_outline(
    text: Seq<char>,
    b: BoundingBox,
    zones: bool,
    stamps: Seq<Seq<char>>,
) -> Seq<char> {
    let drawn = inserted(without(text, outline_runs(text)), sides_text(b, stamps));
    if zones {
        with_zones(drawn, edge_bounds(text), b)
    } else {
        drawn
    }
}

fn extend_side(out: &mut Vec<char>, a: (i64, i64), b: (i64, i64), stamp: &str)
    ensures
        final(out)@ == old(out)@ + side_text(
            (a.0 as int, a.1 as int),
            (b.0 as int, b.1 as int),
            stamp@,
        ),
{
    extend_str(out, "  (gr_line (start ");
    extend_point(out, a.0, a.1);
    extend_str(out, ") (end ");
    extend_point(out, b.0, b.1);
    extend_str(out, ")\n    (stroke (width 0.05) (type solid)) (layer \"Edge.Cuts\") (tstamp ");
    extend_str(out, stamp);
    extend_str(out, "))");
    proof {
        assert(out@ =~= old(out)@ + side_text(
            (a.0 as int, a.1 as int),
            (b.0 as int, b.1 as int),
            stamp@,
        ));
    }
}

/// Gives a board a new outline, in place of the one it has. `stamps` are four marks
/// that no other element has.
pub fn set_board_outline(
    content: &str,
    b: &BoundingBox,
    update_zones: bool,
    stamps: (&str, &str, &str, &str),
) -> (out: String)
    ensures
        out@ == with_outline(
            content@,
            *b,
            update_zones,
            seq![stamps.0@, stamps.1@, stamps.2@, stamps.3@],
        ),
{
    let old = parse_edge_cuts_bounds(content);
    let bare = remove_edge_cuts_lines(content);
    let ghost marks = seq![stamps.0@, stamps.1@, stamps.2@, stamps.3@];
    let mut sides: Vec<char> = Vec::new();
    extend_side(&mut sides, (b.min_x, b.min_y), (b.max_x, b.min_y), stamps.0);
    extend_str(&mut sides, "\n\n");
    extend_side(&mut sides, (b.max_x, b.min_y), (b.max_x, b.max_y), stamps.1);
    extend_str(&mut sides, "\n\n");
    extend_side(&mut sides, (b.max_x, b.max_y), (b.min_x, b.max_y), stamps.2);
    extend_str(&mut sides, "\n\n");
    extend_side(&mut sides, (b.min_x, b.max_y), (b.min_x, b.min_y), stamps.3);
    proof {
        assert(sides@ =~= sides_text(*b, marks));
    }
    let drawn = insert_element(bare.as_str(), sides.as_slice());
    if update_zones {
        update_all_zone_polygons(drawn.as_str(), &old, b)
    } else {
        drawn
    }
}

/// What is said of a new outline.
pub open spec fn outline_set(b: BoundingBox) -> Seq<char> {
    "Board outline set to ("@ + plain(b.min_x as int) + ", "@ + plain(b.min_y as int) + ") → ("@
        + plain(b.max_x as int) + ", "@ + plain(b.max_y as int) + "), size "@ + thousandths(
        b.max_x - b.min_x,
    ) + "×"@ + thousandths(b.max_y - b.min_y) + "mm (zones updated and refilled)"@
}

/// What is said of a new outline.
pub fn describe_new_outline(b: &BoundingBox) -> (out: String)
    ensures
        out@ == outline_set(*b),
{
    let mut out = to_chars("Board outline set to (");
    extend_plain(&mut out, b.min_x);
    extend_str(&mut out, ", ");
    extend_plain(&mut out, b.min_y);
    extend_str(&mut out, ") → (");
    extend_plain(&mut out, b.max_x);
    extend_str(&mut out, ", ");
    extend_plain(&mut out, b.max_y);
    extend_str(&mut out, "), size ");
    extend_wide_length(&mut out, b.max_x as i128 - b.min_x as i128);
    extend_str(&mut out, "×");
    extend_wide_length(&mut out, b.max_y as i128 - b.min_y as i128);
    extend_str(&mut out, "mm (zones updated and refilled)");
    to_text(out.as_slice())
}

/// What is said of an outline.
pub open spec fn outline_report(b: BoundingBox) -> Seq<char> {
    "Board outline:\n  x_min="@ + plain(b.min_x as int) + "\n  y_min="@ + plain(b.min_y as int)
        + "\n  x_max="@ + plain(b.max_x as int) + "\n  y_max="@ + plain(b.max_y as int)
        + "\n  width="@ + fixed(b.max_x - b.min_x, 10_000) + "mm\n  height="@ + fixed(
        b.max_y - b.min_y,
        10_000,
    ) + "mm"@
}

/// What the outline of a board takes up, in words.
pub fn get_board_outline(content: &str) -> (out: String)
    ensures
        out@ == outline_report(edge_bounds(content@)),
{
    let b = parse_edge_cuts_bounds(content);
    let mut out = to_chars("Board outline:\n  x_min=");
    extend_plain(&mut out, b.min_x);
    extend_str(&mut out, "\n  y_min=");
    extend_plain(&mut out, b.min_y);
    extend_str(&mut out, "\n  x_max=");
    extend_plain(&mut out, b.max_x);
    extend_str(&mut out, "\n  y_max=");
    extend_plain(&mut out, b.max_y);
    extend_str(&mut out, "\n  width=");
    extend_fixed(&mut out, b.max_x as i128 - b.min_x as i128, 10_000);
    extend_str(&mut out, "mm\n  height=");
    extend_fixed(&mut out, b.max_y as i128 - b.min_y as i128, 10_000);
    extend_str(&mut out, "mm");
    to_text(out.as_slice())
}

} // verus!
