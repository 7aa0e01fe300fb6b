//! What a board takes up, and which zones follow it.

use crate::finding::{is_in, lemma_is_in};
use crate::outline::{edge_bounds, marked_point, outline_points, zone_outline, zone_outlines};
use crate::pcb::{lemma_box_holds, BoundingBox, Point2};
use crate::listing::{lemma_picked_next, picked_next, picks};
use crate::sexpr::named;
use vstd::prelude::*;

verus! {

/// Whether a point is the start or the end of a block on the edge of the board.
pub open spec fn is_end_on_edge(text: Seq<char>, run: (int, int), p: Point2) -> bool {
    let block = text.subrange(run.0, run.1);
    &&& is_in(block, "Edge.Cuts"@)
    &&& marked_point(block, "(start "@).contains(p) || marked_point(block, "(end "@).contains(p)
}

/// The points of an outline are the starts and ends of the blocks on the edge, and no
/// others.
pub proof fn lemma_outline_points_are_ends(text: Seq<char>, blocks: Seq<(int, int)>, p: Point2)
    ensures
        outline_points(text, blocks).contains(p) == exists|k: int|
            0 <= k < blocks.len() && is_end_on_edge(text, #[trigger] blocks[k], p),
    decreases blocks.len(),
{
    if blocks.len() > 0 {
        let rest = blocks.drop_last();
        let n = blocks.len() - 1;
        let run = blocks.last();
        let block = text.subrange(run.0, run.1);
        lemma_outline_points_are_ends(text, rest, p);
        lemma_is_in(block, "Edge.Cuts"@);
        let front = outline_points(text, rest);
        let a = marked_point(block, "(start "@);
        let b = marked_point(block, "(end "@);
        lemma_either(front, a, p);
        lemma_either(front + a, b, p);
        assert(outline_points(text, blocks).contains(p) == (front.contains(p) || is_end_on_edge(
            text,
            blocks[n],
            p,
        )));
        if exists|k: int| 0 <= k < rest.len() && is_end_on_edge(text, #[trigger] rest[k], p) {
            let k = choose|k: int| 0 <= k < rest.len() && is_end_on_edge(text, #[trigger] rest[k], p);
            assert(blocks[k] == rest[k]);
        }
        if exists|k: int| 0 <= k < blocks.len() && is_end_on_edge(text, #[trigger] blocks[k], p) {
            let k = choose|k: int|
                0 <= k < blocks.len() && is_end_on_edge(text, #[trigger] blocks[k], p);
            if k < n {
                assert(rest[k] == blocks[k]);
            }
        }
    }
}

proof fn lemma_either(a: Seq<Point2>, b: Seq<Point2>, p: Point2)
    ensures
        (a + b).contains(p) == (a.contains(p) || b.contains(p)),
{
    let c = a + b;
    if a.contains(p) {
        let k = choose|k: int| 0 <= k < a.len() && a[k] == p;
        assert(c[k] == p);
    }
    if b.contains(p) {
        let k = choose|k: int| 0 <= k < b.len() && b[k] == p;
        assert(c[a.len() + k] == p);
    }
    if c.contains(p) {
        let k = choose|k: int| 0 <= k < c.len() && c[k] == p;
        if k < a.len() {
            assert(a[k] == p);
        } else {
            assert(b[k - a.len()] == p);
        }
    }
}

/// Whether a point is an end of a line or a rectangle on the edge of the board.
pub open spec fn is_on_edge(text: Seq<char>, p: Point2) -> bool {
    ||| exists|k: int|
        0 <= k < named(text, "(gr_line"@).len() && is_end_on_edge(
            text,
            #[trigger] named(text, "(gr_line"@)[k],
            p,
        )
    ||| exists|k: int|
        0 <= k < named(text, "(gr_rect"@).len() && is_end_on_edge(
            text,
            #[trigger] named(text, "(gr_rect"@)[k],
            p,
        )
}

/// What a board takes up holds every line and rectangle on its edge.
pub proof fn lemma_board_holds_its_edge(text: Seq<char>, p: Point2)
    requires
        is_on_edge(text, p),
    ensures
        edge_bounds(text).min_x <= p.x <= edge_bounds(text).max_x,
        edge_bounds(text).min_y <= p.y <= edge_bounds(text).max_y,
{
    let a = outline_points(text, named(text, "(gr_line"@));
    let b = outline_points(text, named(text, "(gr_rect"@));
    lemma_outline_points_are_ends(text, named(text, "(gr_line"@), p);
    lemma_outline_points_are_ends(text, named(text, "(gr_rect"@), p);
    lemma_either(a, b, p);
    let all = a + b;
    let i = choose|i: int| 0 <= i < all.len() && all[i] == p;
    lemma_box_holds(None, all, i);
}

/// A board without an outline counts as a square of 100 millimetres.
pub proof fn lemma_bare_board_is_a_square(text: Seq<char>)
    requires
        forall|p: Point2| !#[trigger] is_on_edge(text, p),
    ensures
        edge_bounds(text).min_x == 0,
        edge_bounds(text).min_y == 0,
        edge_bounds(text).max_x == 100_000_000,
        edge_bounds(text).max_y == 100_000_000,
{
    let a = outline_points(text, named(text, "(gr_line"@));
    let b = outline_points(text, named(text, "(gr_rect"@));
    let all = a + b;
    if all.len() > 0 {
        let p = all[0];
        assert(all.contains(p));
        lemma_either(a, b, p);
        lemma_outline_points_are_ends(text, named(text, "(gr_line"@), p);
        lemma_outline_points_are_ends(text, named(text, "(gr_rect"@), p);
        assert(is_on_edge(text, p));
    }
}

/// The zones that follow the board.
pub open spec fn follows(text: Seq<char>, zones: Seq<(int, int)>, old: BoundingBox) -> spec_fn(
    int,
) -> bool {
    |i: int| zone_outline(text, zones[i], old) is Some
}

/// The outlines that change are those of the zones that follow the board, one each.
pub proof fn lemma_zones_that_follow(text: Seq<char>, zones: Seq<(int, int)>, old: BoundingBox) -> (at:
    Seq<int>)
    ensures
        picks(at, zones.len() as int, follows(text, zones, old)),
        zone_outlines(text, zones, old) == at.map_values(|i: int| zone_outline(text, zones[i], old)->0),
    decreases zones.len(),
{
    if zones.len() == 0 {
        let at = Seq::<int>::empty();
        assert(zone_outlines(text, zones, old) =~= at.map_values(
            |i: int| zone_outline(text, zones[i], old)->0,
        ));
        at
    } else {
        let front = zones.drop_last();
        let at = lemma_zones_that_follow(text, front, old);
        let n = zones.len() - 1;
        let p = follows(text, zones, old);
        lemma_picked_next(at, n, follows(text, front, old), p);
        let more = picked_next(at, n, p);
        assert forall|k: int| 0 <= k < at.len() implies front[at[k]] == zones[at[k]] by {}
        assert(zone_outlines(text, zones, old) =~= more.map_values(
            |i: int| zone_outline(text, zones[i], old)->0,
        ));
        more
    }
}

/// Whether a length is within a tenth of another.
pub open spec fn is_about(n: int, wanted: int) -> bool {
    9 * wanted < 10 * n < 11 * wanted
}

/// A zone follows the board only if it was about as large: within a tenth, both ways, of a
/// board that is not too small to compare with.
pub proof fn lemma_only_zones_of_the_size_follow(b: BoundingBox, old: BoundingBox)
    requires
        old.max_x - old.min_x >= 10_000,
        old.max_y - old.min_y >= 10_000,
    ensures
        crate::outline::same_size(b, old) == (is_about(b.max_x - b.min_x, old.max_x - old.min_x)
            && is_about(b.max_y - b.min_y, old.max_y - old.min_y)),
{
}

} // verus!
