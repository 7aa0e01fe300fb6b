//! Building solids from flat shapes: faces at a height, and walls between heights.
//!
//! Coordinates count steps of a tenth of a micrometre from a corner of the board.

use crate::bores::{upper_of, via_bore, via_bore_diameter, COLLAR_GAP};
use crate::distance::{in_reach, reachable, twice_from_segment, twice_gap};
use crate::mesh::{Mesh, Point3, Triangle};
use crate::pcb::{CopperLayer, Pad, Point2, Trace, Via};
use crate::repair::repair;
use vstd::prelude::*;

verus! {

/// A length in nanometres in steps of the grid, a half rounded up.
pub open spec fn steps(nm: int) -> int {
    (nm + 50) / 100
}

/// A length in nanometres in steps of the grid.
pub fn to_steps(nm: i64) -> (n: i64)
    ensures
        n == steps(nm as int),
{
    let k: i128 = nm as i128 + 50;
    let n: i128 = if k >= 0 {
        k / 100
    } else {
        -((-k + 99) / 100)
    };
    n as i64
}

/// A ring without a last point that repeats its first.
pub open spec fn opened(ring: Seq<(i64, i64)>) -> Seq<(i64, i64)> {
    if ring.len() > 1 && ring[0] == ring.last() {
        ring.drop_last()
    } else {
        ring
    }
}

/// A ring without points that repeat the one before.
pub open spec fn unrepeated(ring: Seq<(i64, i64)>) -> Seq<(i64, i64)>
    decreases ring.len(),
{
    if ring.len() == 0 {
        ring
    } else {
        let front = unrepeated(ring.drop_last());
        if front.len() > 0 && front.last() == ring.last() {
            front
        } else {
            front.push(ring.last())
        }
    }
}

/// A ring that can be cut into triangles: no point repeats the one before, and the last
/// does not repeat the first.
pub open spec fn cleaned(ring: Seq<(i64, i64)>) -> Seq<(i64, i64)> {
    opened(unrepeated(opened(ring)))
}

/// Cleans a ring.
pub fn clean_ring(ring: &Vec<(i64, i64)>) -> (out: Vec<(i64, i64)>)
    ensures
        out@ == cleaned(ring@),
{
    let mut n: usize = ring.len();
    if n > 1 && ring[0].0 == ring[n - 1].0 && ring[0].1 == ring[n - 1].1 {
        n -= 1;
    }
    let ghost open = opened(ring@);
    proof {
        assert(open =~= ring@.take(n as int));
    }
    let mut out: Vec<(i64, i64)> = Vec::new();
    let mut i: usize = 0;
    proof {
        assert(open.take(0).len() == 0);
        assert(out@ =~= unrepeated(open.take(0)));
    }
    while i < n
        invariant
            i <= n <= ring@.len(),
            open == ring@.take(n as int),
            out@ == unrepeated(open.take(i as int)),
        decreases n - i,
    {
        proof {
            assert(open.take(i + 1).drop_last() =~= open.take(i as int));
            assert(open.take(i + 1).last() == ring@[i as int]);
        }
        let p: (i64, i64) = ring[i];
        let m: usize = out.len();
        if !(m > 0 && out[m - 1].0 == p.0 && out[m - 1].1 == p.1) {
            out.push(p);
        }
        i += 1;
    }
    proof {
        assert(open.take(open.len() as int) =~= open);
    }
    let m: usize = out.len();
    if m > 1 && out[0].0 == out[m - 1].0 && out[0].1 == out[m - 1].1 {
        let ghost full = out@;
        let _ = out.pop();
        proof {
            assert(out@ =~= full.drop_last());
        }
    }
    out
}

proof fn lemma_unrepeated(ring: Seq<(i64, i64)>)
    ensures
        forall|i: int|
            0 <= i < unrepeated(ring).len() - 1 ==> #[trigger] unrepeated(ring)[i] != unrepeated(
                ring,
            )[i + 1],
    decreases ring.len(),
{
    if ring.len() > 0 {
        lemma_unrepeated(ring.drop_last());
        let front = unrepeated(ring.drop_last());
        let out = unrepeated(ring);
        assert forall|i: int| 0 <= i < out.len() - 1 implies #[trigger] out[i] != out[i + 1] by {
            if i < front.len() - 1 {
                assert(out[i] == front[i]);
                assert(out[i + 1] == front[i + 1]);
            }
        }
    }
}

/// No two neighbours of a cleaned ring are the same point.
pub proof fn lemma_cleaned(ring: Seq<(i64, i64)>, i: int)
    requires
        0 <= i < cleaned(ring).len() - 1,
    ensures
        cleaned(ring)[i] != cleaned(ring)[i + 1],
{
    let u = unrepeated(opened(ring));
    lemma_unrepeated(opened(ring));
    assert(cleaned(ring)[i] == u[i]);
    assert(cleaned(ring)[i + 1] == u[i + 1]);
}

/// A vertex over a point.
pub open spec fn over(p: (i64, i64), z: i64) -> Point3 {
    Point3 { x: p.0, y: p.1, z }
}

fn lift(p: (i64, i64), z: i64) -> (out: Point3)
    ensures
        out == over(p, z),
{
    Point3 { x: p.0, y: p.1, z }
}

/// The first half of a wall between two points and two heights.
pub open spec fn wall_foot(a: (i64, i64), b: (i64, i64), low: i64, high: i64, inward: bool) -> Triangle {
    if inward {
        Triangle { a: over(a, low), b: over(b, high), c: over(b, low) }
    } else {
        Triangle { a: over(a, low), b: over(b, low), c: over(b, high) }
    }
}

/// The second half of a wall between two points and two heights.
pub open spec fn wall_head(a: (i64, i64), b: (i64, i64), low: i64, high: i64, inward: bool) -> Triangle {
    if inward {
        Triangle { a: over(a, low), b: over(a, high), c: over(b, high) }
    } else {
        Triangle { a: over(a, low), b: over(b, high), c: over(a, high) }
    }
}

/// The point behind a point of a ring.
pub open spec fn behind(ring: Seq<(i64, i64)>, i: int) -> (i64, i64) {
    if i + 1 < ring.len() {
        ring[i + 1]
    } else {
        ring[0]
    }
}

/// The walls along the first points of a ring.
pub open spec fn walls_upto(
    ring: Seq<(i64, i64)>,
    low: i64,
    high: i64,
    inward: bool,
    upto: int,
) -> Seq<Triangle>
    decreases upto,
{
    if upto <= 0 {
        Seq::empty()
    } else {
        let a = ring[upto - 1];
        let b = behind(ring, upto - 1);
        walls_upto(ring, low, high, inward, upto - 1).push(wall_foot(a, b, low, high, inward)).push(
            wall_head(a, b, low, high, inward),
        )
    }
}

/// The walls along a ring; a ring of fewer than two points has none.
pub open spec fn ring_walls(ring: Seq<(i64, i64)>, low: i64, high: i64, inward: bool) -> Seq<Triangle> {
    let r = opened(ring);
    if r.len() < 2 {
        Seq::empty()
    } else {
        walls_upto(r, low, high, inward, r.len() as int)
    }
}

/// Adds the walls along a ring between two heights. `inward` walls face to the left of
/// the way round, others to the right.
pub fn add_ring_walls(out: &mut Vec<Triangle>, ring: &Vec<(i64, i64)>, low: i64, high: i64, inward: bool)
    ensures
        final(out)@ == old(out)@ + ring_walls(ring@, low, high, inward),
{
    let mut n: usize = ring.len();
    if n > 1 && ring[0].0 == ring[n - 1].0 && ring[0].1 == ring[n - 1].1 {
        n -= 1;
    }
    let ghost open = opened(ring@);
    let ghost start = out@;
    proof {
        assert(open =~= ring@.take(n as int));
    }
    if n < 2 {
        proof {
            assert(out@ =~= start + ring_walls(ring@, low, high, inward));
        }
        return ;
    }
    let mut i: usize = 0;
    proof {
        assert(out@ =~= start + walls_upto(open, low, high, inward, 0));
    }
    while i < n
        invariant
            i <= n <= ring@.len(),
            2 <= n,
            open == ring@.take(n as int),
            out@ == start + walls_upto(open, low, high, inward, i as int),
        decreases n - i,
    {
        let a: (i64, i64) = ring[i];
        let b: (i64, i64) = if i + 1 < n {
            ring[i + 1]
        } else {
            ring[0]
        };
        proof {
            assert(a == open[i as int]);
            assert(b == behind(open, i as int));
        }
        if inward {
            out.push(Triangle { a: lift(a, low), b: lift(b, high), c: lift(b, low) });
            out.push(Triangle { a: lift(a, low), b: lift(a, high), c: lift(b, high) });
        } else {
            out.push(Triangle { a: lift(a, low), b: lift(b, low), c: lift(b, high) });
            out.push(Triangle { a: lift(a, low), b: lift(b, high), c: lift(a, high) });
        }
        proof {
            assert(out@ =~= start + walls_upto(open, low, high, inward, i + 1));
        }
        i += 1;
    }
}

/// Neighbouring walls share an upright edge: where one goes up, the other goes down.
pub proof fn lemma_walls_meet(ring: Seq<(i64, i64)>, low: i64, high: i64, inward: bool, i: int)
    requires
        ring.len() >= 2,
        0 <= i < ring.len() - 1,
    ensures
        ({
            let here = wall_foot(ring[i], behind(ring, i), low, high, inward);
            let next = wall_head(ring[i + 1], behind(ring, i + 1), low, high, inward);
            let low_end = over(ring[i + 1], low);
            let high_end = over(ring[i + 1], high);
            if inward {
                here.b == high_end && here.c == low_end && next.a == low_end && next.b == high_end
            } else {
                here.b == low_end && here.c == high_end && next.c == high_end && next.a == low_end
            }
        }),
{
}

/// A flat shape: its rings, the outer one first, and the corners of the triangles it is
/// cut into, three by three, counted through all its rings.
#[derive(Debug)]
pub struct Shape {
    pub rings: Vec<Vec<(i64, i64)>>,
    pub corners: Vec<usize>,
}

pub open spec fn ring_views(rings: Seq<Vec<(i64, i64)>>) -> Seq<Seq<(i64, i64)>> {
    rings.map_values(|r: Vec<(i64, i64)>| r@)
}

/// The points of rings, one ring behind another.
pub open spec fn all_points(rings: Seq<Seq<(i64, i64)>>) -> Seq<(i64, i64)>
    decreases rings.len(),
{
    if rings.len() == 0 {
        Seq::empty()
    } else {
        all_points(rings.drop_last()) + rings.last()
    }
}

impl Shape {
    /// Whether every corner is a point of the shape.
    pub open spec fn well_formed(self) -> bool {
        forall|i: int|
            0 <= i < self.corners@.len() ==> #[trigger] self.corners@[i] < all_points(
                ring_views(self.rings@),
            ).len()
    }

    /// A shape from its rings and corners; none if a corner is no point of it.
    pub fn new(rings: Vec<Vec<(i64, i64)>>, corners: Vec<usize>) -> (out: Option<Shape>)
        ensures
            ({
                let s = Shape { rings, corners };
                out is Some == s.well_formed() && (out matches Some(t) ==> t == s)
            }),
    {
        let points = gather(&rings);
        let mut i: usize = 0;
        while i < corners.len()
            invariant
                i <= corners@.len(),
                points@ == all_points(ring_views(rings@)),
                forall|j: int| 0 <= j < i ==> #[trigger] corners@[j] < points@.len(),
            decreases corners@.len() - i,
        {
            if corners[i] >= points.len() {
                proof {
                    let s = Shape { rings, corners };
                    assert(!(s.corners@[i as int] < all_points(ring_views(s.rings@)).len()));
                }
                return None;
            }
            i += 1;
        }
        Some(Shape { rings, corners })
    }
}

fn gather(rings: &Vec<Vec<(i64, i64)>>) -> (out: Vec<(i64, i64)>)
    ensures
        out@ == all_points(ring_views(rings@)),
{
    let ghost all = ring_views(rings@);
    let mut out: Vec<(i64, i64)> = Vec::new();
    let mut i: usize = 0;
    proof {
        assert(all.take(0).len() == 0);
        assert(out@ =~= all_points(all.take(0)));
    }
    while i < rings.len()
        invariant
            i <= rings@.len(),
            all == ring_views(rings@),
            out@ == all_points(all.take(i as int)),
        decreases rings@.len() - i,
    {
        proof {
            assert(all.take(i + 1).drop_last() =~= all.take(i as int));
            assert(all.take(i + 1).last() == rings@[i as int]@);
        }
        let ghost done = out@;
        let ring = &rings[i];
        let mut j: usize = 0;
        proof {
            assert(out@ =~= done + ring@.take(0));
        }
        while j < ring.len()
            invariant
                j <= ring@.len(),
                out@ == done + ring@.take(j as int),
            decreases ring@.len() - j,
        {
            out.push(ring[j]);
            proof {
                assert(out@ =~= done + ring@.take(j + 1));
            }
            j += 1;
        }
        proof {
            assert(ring@.take(ring@.len() as int) =~= ring@);
        }
        i += 1;
    }
    proof {
        assert(all.take(all.len() as int) =~= all);
    }
    out
}

/// A triangle of a face at a height.
pub open spec fn face_triangle(
    points: Seq<(i64, i64)>,
    corners: Seq<usize>,
    k: int,
    z: i64,
    up: bool,
) -> Triangle {
    let a = over(points[corners[3 * k] as int], z);
    let b = over(points[corners[3 * k + 1] as int], z);
    let c = over(points[corners[3 * k + 2] as int], z);
    if up {
        Triangle { a, b, c }
    } else {
        Triangle { a, b: c, c: b }
    }
}

/// The face that a shape has at a height, facing up or down.
pub open spec fn face_of(s: Shape, z: i64, up: bool) -> Seq<Triangle> {
    let points = all_points(ring_views(s.rings@));
    Seq::new(s.corners@.len() / 3, |k: int| face_triangle(points, s.corners@, k, z, up))
}

fn add_face(out: &mut Vec<Triangle>, s: &Shape, z: i64, up: bool)
    requires
        s.well_formed(),
    ensures
        final(out)@ == old(out)@ + face_of(*s, z, up),
{
    let points = gather(&s.rings);
    let ghost start = out@;
    let ghost all = face_of(*s, z, up);
    let count: usize = s.corners.len();
    let n: usize = count / 3;
    let mut k: usize = 0;
    proof {
        assert(out@ =~= start + all.take(0));
    }
    while k < n
        invariant
            k <= n,
            count == s.corners@.len(),
            n == count / 3,
            s.well_formed(),
            points@ == all_points(ring_views(s.rings@)),
            all == face_of(*s, z, up),
            out@ == start + all.take(k as int),
        decreases n - k,
    {
        assert(3 * k + 2 < count);
        let i: usize = s.corners[3 * k];
        let j: usize = s.corners[3 * k + 1];
        let l: usize = s.corners[3 * k + 2];
        let a = lift(points[i], z);
        let b = lift(points[j], z);
        let c = lift(points[l], z);
        let t = if up {
            Triangle { a, b, c }
        } else {
            Triangle { a, b: c, c: b }
        };
        out.push(t);
        proof {
            assert(t == all[k as int]);
            assert(out@ =~= start + all.take(k + 1));
        }
        k += 1;
    }
    proof {
        assert(all.take(all.len() as int) =~= all);
    }
}

pub open spec fn all_well_formed(shapes: Seq<Shape>) -> bool {
    forall|i: int| 0 <= i < shapes.len() ==> (#[trigger] shapes[i]).well_formed()
}

/// The faces that shapes have at a height.
pub open spec fn faces_of(shapes: Seq<Shape>, z: i64, up: bool) -> Seq<Triangle>
    decreases shapes.len(),
{
    if shapes.len() == 0 {
        Seq::empty()
    } else {
        faces_of(shapes.drop_last(), z, up) + face_of(shapes.last(), z, up)
    }
}

/// Adds the faces that shapes have at a height, facing up or down.
pub fn add_flat(out: &mut Vec<Triangle>, shapes: &Vec<Shape>, z: i64, up: bool)
    requires
        all_well_formed(shapes@),
    ensures
        final(out)@ == old(out)@ + faces_of(shapes@, z, up),
{
    let ghost start = out@;
    let mut i: usize = 0;
    proof {
        assert(shapes@.take(0).len() == 0);
        assert(out@ =~= start + faces_of(shapes@.take(0), z, up));
    }
    while i < shapes.len()
        invariant
            i <= shapes@.len(),
            all_well_formed(shapes@),
            out@ == start + faces_of(shapes@.take(i as int), z, up),
        decreases shapes@.len() - i,
    {
        proof {
            assert(shapes@.take(i + 1).drop_last() =~= shapes@.take(i as int));
            assert(shapes@.take(i + 1).last() == shapes@[i as int]);
        }
        add_face(out, &shapes[i], z, up);
        proof {
            assert(out@ =~= start + faces_of(shapes@.take(i + 1), z, up));
        }
        i += 1;
    }
    proof {
        assert(shapes@.take(shapes@.len() as int) =~= shapes@);
    }
}

/// The walls along the first rings of a shape. The outer ring and the rings of holes in
/// it are walked in different ways, so that their walls face away from each other.
pub open spec fn shape_walls(
    rings: Seq<Seq<(i64, i64)>>,
    low: i64,
    high: i64,
    outer_inward: bool,
) -> Seq<Triangle>
    decreases rings.len(),
{
    if rings.len() == 0 {
        Seq::empty()
    } else {
        let inward = if rings.len() == 1 {
            outer_inward
        } else {
            !outer_inward
        };
        shape_walls(rings.drop_last(), low, high, outer_inward) + ring_walls(
            rings.last(),
            low,
            high,
            inward,
        )
    }
}

/// The walls along shapes.
pub open spec fn all_walls(shapes: Seq<Shape>, low: i64, high: i64, outer_inward: bool) -> Seq<Triangle>
    decreases shapes.len(),
{
    if shapes.len() == 0 {
        Seq::empty()
    } else {
        all_walls(shapes.drop_last(), low, high, outer_inward) + shape_walls(
            ring_views(shapes.last().rings@),
            low,
            high,
            outer_inward,
        )
    }
}

fn add_shape_walls(out: &mut Vec<Triangle>, s: &Shape, low: i64, high: i64, outer_inward: bool)
    ensures
        final(out)@ == old(out)@ + shape_walls(ring_views(s.rings@), low, high, outer_inward),
{
    let ghost start = out@;
    let ghost all = ring_views(s.rings@);
    let mut i: usize = 0;
    proof {
        assert(all.take(0).len() == 0);
        assert(out@ =~= start + shape_walls(all.take(0), low, high, outer_inward));
    }
    while i < s.rings.len()
        invariant
            i <= s.rings@.len(),
            all == ring_views(s.rings@),
            out@ == start + shape_walls(all.take(i as int), low, high, outer_inward),
        decreases s.rings@.len() - i,
    {
        proof {
            assert(all.take(i + 1).drop_last() =~= all.take(i as int));
            assert(all.take(i + 1).last() == s.rings@[i as int]@);
        }
        let inward: bool = if i == 0 {
            outer_inward
        } else {
            !outer_inward
        };
        add_ring_walls(out, &s.rings[i], low, high, inward);
        proof {
            assert(out@ =~= start + shape_walls(all.take(i + 1), low, high, outer_inward));
        }
        i += 1;
    }
    proof {
        assert(all.take(all.len() as int) =~= all);
    }
}

/// Adds the walls along shapes between two heights.
pub fn add_walls(out: &mut Vec<Triangle>, shapes: &Vec<Shape>, low: i64, high: i64, outer_inward: bool)
    ensures
        final(out)@ == old(out)@ + all_walls(shapes@, low, high, outer_inward),
{
    let ghost start = out@;
    let mut i: usize = 0;
    proof {
        assert(shapes@.take(0).len() == 0);
        assert(out@ =~= start + all_walls(shapes@.take(0), low, high, outer_inward));
    }
    while i < shapes.len()
        invariant
            i <= shapes@.len(),
            out@ == start + all_walls(shapes@.take(i as int), low, high, outer_inward),
        decreases shapes@.len() - i,
    {
        proof {
            assert(shapes@.take(i + 1).drop_last() =~= shapes@.take(i as int));
            assert(shapes@.take(i + 1).last() == shapes@[i as int]);
        }
        add_shape_walls(out, &shapes[i], low, high, outer_inward);
        proof {
            assert(out@ =~= start + all_walls(shapes@.take(i + 1), low, high, outer_inward));
        }
        i += 1;
    }
    proof {
        assert(shapes@.take(shapes@.len() as int) =~= shapes@);
    }
}

/// The height at which a band of a groove begins, of so many bands of equal height
/// between the floor and the opening.
pub open spec fn band_height(floor: int, opening: int, count: int, i: int) -> int {
    floor + (2 * (opening - floor) * i + count) / (2 * count)
}

proof fn lemma_band_height(floor: int, opening: int, count: int, i: int)
    requires
        count > 0,
        0 <= i <= count,
    ensures
        floor <= opening ==> floor <= band_height(floor, opening, count, i) <= opening,
        opening <= floor ==> opening <= band_height(floor, opening, count, i) <= floor,
        band_height(floor, opening, count, 0) == floor,
        band_height(floor, opening, count, count) == opening,
{
    let d = opening - floor;
    let k = (2 * d * i + count) / (2 * count);
    assert(d >= 0 ==> 0 <= 2 * d * i <= 2 * d * count) by (nonlinear_arith)
        requires
            0 <= i <= count,
    ;
    assert(d <= 0 ==> 2 * d * count <= 2 * d * i <= 0) by (nonlinear_arith)
        requires
            0 <= i <= count,
    ;
    lemma_between(2 * d * i + count, d, count);
    assert(2 * d * 0 == 0);
    assert((0 + count) / (2 * count) == 0) by (nonlinear_arith)
        requires
            count > 0,
    ;
    assert((2 * d * count + count) / (2 * count) == d) by (nonlinear_arith)
        requires
            count > 0,
    ;
}

proof fn lemma_between(n: int, d: int, count: int)
    requires
        count > 0,
    ensures
        count <= n <= 2 * d * count + count ==> 0 <= n / (2 * count) <= d,
        2 * d * count + count <= n <= count ==> d <= n / (2 * count) <= 0,
{
    let q = n / (2 * count);
    assert(q * (2 * count) <= n < (q + 1) * (2 * count)) by (nonlinear_arith)
        requires
            q == n / (2 * count),
            count > 0,
    ;
    if count <= n <= 2 * d * count + count {
        assert(q >= 0) by (nonlinear_arith)
            requires
                n < (q + 1) * (2 * count),
                count <= n,
                count > 0,
        ;
        assert(q <= d) by (nonlinear_arith)
            requires
                q * (2 * count) <= n,
                n <= 2 * d * count + count,
                count > 0,
        ;
    }
    if 2 * d * count + count <= n <= count {
        assert(d <= q) by (nonlinear_arith)
            requires
                n < (q + 1) * (2 * count),
                2 * d * count + count <= n,
                count > 0,
        ;
        assert(q <= 0) by (nonlinear_arith)
            requires
                q * (2 * count) <= n,
                n <= count,
                count > 0,
        ;
    }
}

/// The most bands that a groove is built of.
pub const MOST_LEVELS: usize = 64;

/// The furthest height.
pub const HIGHEST: i64 = 0x1000_0000;

fn height_at(floor: i64, opening: i64, count: usize, i: usize) -> (z: i64)
    requires
        0 < count <= MOST_LEVELS,
        i <= count,
        -HIGHEST <= floor <= HIGHEST,
        -HIGHEST <= opening <= HIGHEST,
    ensures
        z == band_height(floor as int, opening as int, count as int, i as int),
{
    proof {
        lemma_band_height(floor as int, opening as int, count as int, i as int);
        let d = opening - floor;
        assert(-0x100_0000_0000 <= 2 * d * i <= 0x100_0000_0000) by (nonlinear_arith)
            requires
                -0x2000_0000 <= d <= 0x2000_0000,
                0 <= i <= 64,
        ;
    }
    let d: i64 = opening - floor;
    let n: i64 = 2 * d * i as i64 + count as i64;
    let unit: i64 = 2 * count as i64;
    let k: i64 = if n >= 0 {
        n / unit
    } else {
        proof {
            lemma_negative_quotient(n as int, unit as int);
        }
        -((-n + (unit - 1)) / unit)
    };
    floor + k
}

proof fn lemma_negative_quotient(n: int, unit: int)
    requires
        n < 0,
        unit > 0,
    ensures
        n / unit == -((-n + (unit - 1)) / unit),
{
    let q = (-n + (unit - 1)) / unit;
    assert(q * unit <= -n + (unit - 1) < (q + 1) * unit) by (nonlinear_arith)
        requires
            q == (-n + (unit - 1)) / unit,
            unit > 0,
    ;
    assert(n / unit == -q) by (nonlinear_arith)
        requires
            q * unit <= -n + (unit - 1),
            -n + (unit - 1) < (q + 1) * unit,
            unit > 0,
    ;
}

pub open spec fn levels_well_formed(levels: Seq<Vec<Shape>>) -> bool {
    forall|i: int| 0 <= i < levels.len() ==> all_well_formed((#[trigger] levels[i])@)
}

/// A band of a groove: its walls, and the ledge that joins it to the next one.
pub open spec fn band_of(
    levels: Seq<Vec<Shape>>,
    ledges: Seq<Vec<Shape>>,
    floor: i64,
    opening: i64,
    is_top: bool,
    i: int,
) -> Seq<Triangle> {
    let n = levels.len() as int;
    let low = band_height(floor as int, opening as int, n, i) as i64;
    let high = band_height(floor as int, opening as int, n, i + 1) as i64;
    let walls = all_walls(levels[i]@, low, high, !is_top);
    if i + 1 < n && i < ledges.len() {
        walls + faces_of(ledges[i]@, high, is_top)
    } else {
        walls
    }
}

pub open spec fn bands_upto(
    levels: Seq<Vec<Shape>>,
    ledges: Seq<Vec<Shape>>,
    floor: i64,
    opening: i64,
    is_top: bool,
    upto: int,
) -> Seq<Triangle>
    decreases upto,
{
    if upto <= 0 {
        Seq::empty()
    } else {
        bands_upto(levels, ledges, floor, opening, is_top, upto - 1) + band_of(
            levels,
            ledges,
            floor,
            opening,
            is_top,
            upto - 1,
        )
    }
}

/// A groove: its floor, and its bands from the floor to the opening, each wider than the
/// one before, joined by ledges that face as the floor does.
pub open spec fn groove(
    levels: Seq<Vec<Shape>>,
    ledges: Seq<Vec<Shape>>,
    floor: i64,
    opening: i64,
    is_top: bool,
) -> Seq<Triangle> {
    if levels.len() == 0 {
        Seq::empty()
    } else {
        faces_of(levels[0]@, floor, is_top) + bands_upto(
            levels,
            ledges,
            floor,
            opening,
            is_top,
            levels.len() as int,
        )
    }
}

/// Adds a groove. `levels` holds the shape of each band, the floor first, and `ledges`
/// what each band leaves of the next.
pub fn add_tapered_channel(
    out: &mut Vec<Triangle>,
    levels: &Vec<Vec<Shape>>,
    ledges: &Vec<Vec<Shape>>,
    floor: i64,
    opening: i64,
    is_top: bool,
)
    requires
        levels@.len() <= MOST_LEVELS,
        levels_well_formed(levels@),
        levels_well_formed(ledges@),
        -HIGHEST <= floor <= HIGHEST,
        -HIGHEST <= opening <= HIGHEST,
    ensures
        final(out)@ == old(out)@ + groove(levels@, ledges@, floor, opening, is_top),
{
    let ghost start = out@;
    let n: usize = levels.len();
    if n == 0 {
        proof {
            assert(out@ =~= start + groove(levels@, ledges@, floor, opening, is_top));
        }
        return ;
    }
    add_flat(out, &levels[0], floor, is_top);
    let ghost head = out@;
    let mut i: usize = 0;
    proof {
        assert(out@ =~= head + bands_upto(levels@, ledges@, floor, opening, is_top, 0));
    }
    while i < n
        invariant
            i <= n,
            n == levels@.len(),
            n <= MOST_LEVELS,
            levels_well_formed(levels@),
            levels_well_formed(ledges@),
            -HIGHEST <= floor <= HIGHEST,
            -HIGHEST <= opening <= HIGHEST,
            out@ == head + bands_upto(levels@, ledges@, floor, opening, is_top, i as int),
        decreases n - i,
    {
        let low: i64 = height_at(floor, opening, n, i);
        let high: i64 = height_at(floor, opening, n, i + 1);
        let ghost before = out@;
        add_walls(out, &levels[i], low, high, !is_top);
        if i + 1 < n && i < ledges.len() {
            add_flat(out, &ledges[i], high, is_top);
        }
        proof {
            assert(out@ =~= before + band_of(
                levels@,
                ledges@,
                floor,
                opening,
                is_top,
                i as int,
            ));
            assert(out@ =~= head + bands_upto(levels@, ledges@, floor, opening, is_top, i + 1));
        }
        i += 1;
    }
    proof {
        assert(out@ =~= start + groove(levels@, ledges@, floor, opening, is_top));
    }
}

/// The shapes that a board is built of: its outline, what is left of its faces, the
/// grooves in them with the ledges of their bands, and its holes.
#[derive(Debug)]
pub struct Solid {
    pub outline: Vec<(i64, i64)>,
    pub top: Vec<Shape>,
    pub bottom: Vec<Shape>,
    pub upper: Vec<Vec<Shape>>,
    pub upper_ledges: Vec<Vec<Shape>>,
    pub lower: Vec<Vec<Shape>>,
    pub lower_ledges: Vec<Vec<Shape>>,
    pub holes: Vec<Shape>,
}

impl Solid {
    /// Whether a board can be built of the shapes.
    pub open spec fn well_formed(self) -> bool {
        &&& all_well_formed(self.top@)
        &&& all_well_formed(self.bottom@)
        &&& levels_well_formed(self.upper@)
        &&& levels_well_formed(self.upper_ledges@)
        &&& levels_well_formed(self.lower@)
        &&& levels_well_formed(self.lower_ledges@)
        &&& self.upper@.len() <= MOST_LEVELS
        &&& self.lower@.len() <= MOST_LEVELS
    }
}

/// The surface of a board: its two faces, its sides, the grooves in its top and, if it
/// has any, in its bottom, and the walls of its holes.
pub open spec fn surface(s: Solid, thickness: i64, depth: i64, recessed: bool) -> Seq<Triangle> {
    let shell = faces_of(s.top@, thickness, true) + faces_of(s.bottom@, 0, false) + ring_walls(
        s.outline@,
        0,
        thickness,
        false,
    ) + groove(s.upper@, s.upper_ledges@, (thickness - depth) as i64, thickness, true);
    let cut = if recessed {
        shell + groove(s.lower@, s.lower_ledges@, depth, 0, false)
    } else {
        shell
    };
    cut + all_walls(s.holes@, 0, thickness, false)
}

/// Puts the surface of a board together.
pub fn assemble_board(s: &Solid, thickness: i64, depth: i64, recessed: bool) -> (out: Vec<Triangle>)
    requires
        s.well_formed(),
        -HIGHEST <= thickness <= HIGHEST,
        -HIGHEST <= depth <= HIGHEST,
        -HIGHEST <= thickness - depth <= HIGHEST,
    ensures
        out@ == surface(*s, thickness, depth, recessed),
{
    let mut out: Vec<Triangle> = Vec::new();
    add_flat(&mut out, &s.top, thickness, true);
    add_flat(&mut out, &s.bottom, 0, false);
    add_ring_walls(&mut out, &s.outline, 0, thickness, false);
    add_tapered_channel(
        &mut out,
        &s.upper,
        &s.upper_ledges,
        thickness - depth,
        thickness,
        true,
    );
    if recessed {
        add_tapered_channel(&mut out, &s.lower, &s.lower_ledges, depth, 0, false);
    }
    add_walls(&mut out, &s.holes, 0, thickness, false);
    proof {
        assert(out@ =~= surface(*s, thickness, depth, recessed));
    }
    out
}

/// Whether the bottom of a board has anything cut into it: it has if there are traces on
/// it, or if holes widen towards it.
pub fn has_bottom_recess(bottom_traces: &Vec<Trace>, cones: bool) -> (yes: bool)
    ensures
        yes == (bottom_traces@.len() > 0 || cones),
{
    bottom_traces.len() > 0 || cones
}

/// Puts a board together, closes its gaps and turns its surface outward. None if it is
/// too large, or has too many triangles.
pub fn generate_model(s: &Solid, thickness: i64, depth: i64, recessed: bool) -> (out: Option<Mesh>)
    requires
        s.well_formed(),
        -HIGHEST <= thickness <= HIGHEST,
        -HIGHEST <= depth <= HIGHEST,
        -HIGHEST <= thickness - depth <= HIGHEST,
    ensures
        is_repaired(surface(*s, thickness, depth, recessed), out),
{
    let triangles = assemble_board(s, thickness, depth, recessed);
    repair(&triangles)
}

/// What repairing triangles gives.
pub open spec fn is_repaired(triangles: Seq<Triangle>, out: Option<Mesh>) -> bool {
    &&& out is Some ==> crate::mesh::can_weld(triangles)
    &&& out matches Some(m) ==> {
        &&& m.well_formed()
        &&& m.faces@.len() <= crate::mesh::MOST_FACES
        &&& m.points@ == crate::mesh::points_of(triangles)
        &&& exists|welded: Mesh| #[trigger]
            crate::mesh::is_weld(welded, triangles) && m.faces@ == crate::repair::repaired(
                m.points@,
                welded.faces@,
            )
    }
    &&& out is None && crate::mesh::can_weld(triangles) ==> exists|welded: Mesh| #[trigger]
        crate::mesh::is_weld(welded, triangles) && crate::repair::mended(
            welded.points@,
            welded.faces@,
        ).len() > crate::mesh::MOST_FACES
}

/// Whether two meshes have the same corners and the same triangles, or there is neither.
pub open spec fn same_mesh(a: Option<Mesh>, b: Option<Mesh>) -> bool {
    match (a, b) {
        (Some(m), Some(k)) => m.points@ == k.points@ && m.faces@ == k.faces@,
        (None, None) => true,
        _ => false,
    }
}

/// Repairing the same triangles twice gives the same mesh, or none both times.
pub proof fn lemma_repaired_alike(triangles: Seq<Triangle>, a: Option<Mesh>, b: Option<Mesh>)
    requires
        is_repaired(triangles, a),
        is_repaired(triangles, b),
    ensures
        same_mesh(a, b),
{
    if a is Some || b is Some {
        lemma_repaired_faces(triangles, a);
        lemma_repaired_faces(triangles, b);
    }
}

proof fn lemma_repaired_faces(triangles: Seq<Triangle>, out: Option<Mesh>)
    requires
        is_repaired(triangles, out),
        crate::mesh::can_weld(triangles),
    ensures
        forall|welded: Mesh| #[trigger]
            crate::mesh::is_weld(welded, triangles) ==> {
                let n = crate::repair::mended(welded.points@, welded.faces@).len();
                &&& out is Some == (n <= crate::mesh::MOST_FACES)
                &&& out matches Some(m) ==> m.faces@ == crate::repair::repaired(
                    welded.points@,
                    welded.faces@,
                )
            },
        exists|welded: Mesh| #[trigger] crate::mesh::is_weld(welded, triangles),
{
    if let Some(m) = out {
        let welded = choose|welded: Mesh| #[trigger]
            crate::mesh::is_weld(welded, triangles) && m.faces@ == crate::repair::repaired(
                m.points@,
                welded.faces@,
            );
        assert forall|other: Mesh| #[trigger] crate::mesh::is_weld(other, triangles) implies {
            let n = crate::repair::mended(other.points@, other.faces@).len();
            &&& n <= crate::mesh::MOST_FACES
            &&& m.faces@ == crate::repair::repaired(other.points@, other.faces@)
        } by {
            crate::repair::lemma_weld_is_one(welded, other, triangles);
        }
    } else {
        let welded = choose|welded: Mesh| #[trigger]
            crate::mesh::is_weld(welded, triangles) && crate::repair::mended(
                welded.points@,
                welded.faces@,
            ).len() > crate::mesh::MOST_FACES;
        assert forall|other: Mesh| #[trigger] crate::mesh::is_weld(
            other,
            triangles,
        ) implies crate::repair::mended(other.points@, other.faces@).len()
            > crate::mesh::MOST_FACES by {
            crate::repair::lemma_weld_is_one(welded, other, triangles);
        }
    }
}

/// The surface of a flat stencil: a plate with slots.
pub open spec fn plate_surface(
    face: Seq<Shape>,
    outer: Seq<(i64, i64)>,
    slots: Seq<Shape>,
    thickness: i64,
) -> Seq<Triangle> {
    faces_of(face, thickness, true) + faces_of(face, 0, false) + ring_walls(
        outer,
        0,
        thickness,
        false,
    ) + all_walls(slots, 0, thickness, false)
}

/// Puts a flat stencil together.
pub fn assemble_plate(
    face: &Vec<Shape>,
    outer: &Vec<(i64, i64)>,
    slots: &Vec<Shape>,
    thickness: i64,
) -> (out: Option<Mesh>)
    requires
        all_well_formed(face@),
    ensures
        is_repaired(plate_surface(face@, outer@, slots@, thickness), out),
{
    let mut t: Vec<Triangle> = Vec::new();
    add_flat(&mut t, face, thickness, true);
    add_flat(&mut t, face, 0, false);
    add_ring_walls(&mut t, outer, 0, thickness, false);
    add_walls(&mut t, slots, 0, thickness, false);
    proof {
        assert(t@ =~= plate_surface(face@, outer@, slots@, thickness));
    }
    repair(&t)
}

/// The shapes of a stencil with a lip: its top, the underside within the lip, the rim of
/// the lip, its outer and inner edge, and the slots.
#[derive(Debug)]
pub struct Lipped {
    pub top: Vec<Shape>,
    pub underside: Vec<Shape>,
    pub rim: Vec<Shape>,
    pub outer: Vec<(i64, i64)>,
    pub inner: Vec<(i64, i64)>,
    pub slots: Vec<Shape>,
}

/// The surface of a stencil with a lip that hangs down below it.
pub open spec fn lipped_surface(s: Lipped, thickness: i64, drop: i64) -> Seq<Triangle> {
    faces_of(s.top@, thickness, true) + faces_of(s.underside@, 0, false) + faces_of(
        s.rim@,
        (-drop) as i64,
        false,
    ) + ring_walls(s.outer@, (-drop) as i64, thickness, false) + ring_walls(
        s.inner@,
        (-drop) as i64,
        0,
        true,
    ) + all_walls(s.slots@, 0, thickness, false)
}

/// A vertex mirrored at the plane of the board.
pub open spec fn flipped(p: Point3) -> Point3 {
    Point3 { z: (-p.z) as i64, ..p }
}

pub open spec fn all_flipped(list: Seq<Triangle>) -> Seq<Triangle> {
    list.map_values(
        |t: Triangle| Triangle { a: flipped(t.a), b: flipped(t.b), c: flipped(t.c) },
    )
}

fn flip(p: Point3) -> (q: Point3)
    requires
        p.z > i64::MIN,
    ensures
        q == flipped(p),
{
    Point3 { x: p.x, y: p.y, z: -p.z }
}

pub open spec fn can_flip(list: Seq<Triangle>) -> bool {
    forall|i: int|
        0 <= i < list.len() ==> (#[trigger] list[i]).a.z > i64::MIN && list[i].b.z > i64::MIN
            && list[i].c.z > i64::MIN
}

/// Mirrors triangles at the plane of the board.
pub fn flip_all(list: &Vec<Triangle>) -> (out: Vec<Triangle>)
    requires
        can_flip(list@),
    ensures
        out@ == all_flipped(list@),
{
    let mut out: Vec<Triangle> = Vec::new();
    let mut i: usize = 0;
    while i < list.len()
        invariant
            i <= list@.len(),
            can_flip(list@),
            out@ == all_flipped(list@).take(i as int),
        decreases list@.len() - i,
    {
        let t: Triangle = list[i];
        out.push(Triangle { a: flip(t.a), b: flip(t.b), c: flip(t.c) });
        proof {
            assert(all_flipped(list@).take(i + 1) =~= all_flipped(list@).take(i as int).push(
                all_flipped(list@)[i as int],
            ));
        }
        i += 1;
    }
    proof {
        assert(all_flipped(list@).take(list@.len() as int) =~= all_flipped(list@));
    }
    out
}

/// Mirroring twice changes nothing.
pub proof fn lemma_flip_twice(list: Seq<Triangle>)
    requires
        can_flip(list),
    ensures
        all_flipped(all_flipped(list)) == list,
{
    assert forall|i: int| 0 <= i < list.len() implies all_flipped(all_flipped(list))[i]
        == #[trigger] list[i] by {}
    assert(all_flipped(all_flipped(list)) =~= list);
}

/// Puts a stencil with a lip together; for the other side of the board it is mirrored.
/// None if it is too large, or has too many triangles.
pub fn assemble_lipped(s: &Lipped, thickness: i64, drop: i64, layer: CopperLayer) -> (out: Option<Mesh>)
    requires
        all_well_formed(s.top@),
        all_well_formed(s.underside@),
        all_well_formed(s.rim@),
        drop > i64::MIN,
    ensures
        ({
            let t = lipped_surface(*s, thickness, drop);
            if layer == CopperLayer::BCu {
                if can_flip(t) {
                    is_repaired(all_flipped(t), out)
                } else {
                    out is None
                }
            } else {
                is_repaired(t, out)
            }
        }),
{
    let mut t: Vec<Triangle> = Vec::new();
    add_flat(&mut t, &s.top, thickness, true);
    add_flat(&mut t, &s.underside, 0, false);
    add_flat(&mut t, &s.rim, -drop, false);
    add_ring_walls(&mut t, &s.outer, -drop, thickness, false);
    add_ring_walls(&mut t, &s.inner, -drop, 0, true);
    add_walls(&mut t, &s.slots, 0, thickness, false);
    proof {
        assert(t@ =~= lipped_surface(*s, thickness, drop));
    }
    if layer == CopperLayer::BCu {
        let mut i: usize = 0;
        while i < t.len()
            invariant
                i <= t@.len(),
                t@ == lipped_surface(*s, thickness, drop),
                layer == CopperLayer::BCu,
                forall|j: int|
                    0 <= j < i ==> (#[trigger] t@[j]).a.z > i64::MIN && t@[j].b.z > i64::MIN
                        && t@[j].c.z > i64::MIN,
            decreases t@.len() - i,
        {
            let k: Triangle = t[i];
            if k.a.z == i64::MIN || k.b.z == i64::MIN || k.c.z == i64::MIN {
                assert(t@[i as int] == k);
                assert(!can_flip(t@));
                return None;
            }
            i += 1;
        }
        let other = flip_all(&t);
        repair(&other)
    } else {
        repair(&t)
    }
}

/// The shapes of a clamp ring: its lower rim, the underside of its lip, its top, and the
/// edges of its wall, of the room within, and of its lip.
#[derive(Debug)]
pub struct Clamp {
    pub lower: Vec<Shape>,
    pub ledge: Vec<Shape>,
    pub upper: Vec<Shape>,
    pub outer: Vec<(i64, i64)>,
    pub inner: Vec<(i64, i64)>,
    pub lip: Vec<(i64, i64)>,
}

/// The surface of a clamp ring: the lip stands on the plate and folds inward over it.
pub open spec fn clamp_surface(s: Clamp, plate_top: i64, ring_top: i64) -> Seq<Triangle> {
    faces_of(s.lower@, 0, false) + faces_of(s.ledge@, plate_top, false) + faces_of(
        s.upper@,
        ring_top,
        true,
    ) + ring_walls(s.outer@, 0, ring_top, false) + ring_walls(s.inner@, 0, plate_top, true)
        + ring_walls(s.lip@, plate_top, ring_top, true)
}

/// Puts a clamp ring together.
pub fn assemble_clamp(s: &Clamp, plate_top: i64, ring_top: i64) -> (out: Option<Mesh>)
    requires
        all_well_formed(s.lower@),
        all_well_formed(s.ledge@),
        all_well_formed(s.upper@),
    ensures
        is_repaired(clamp_surface(*s, plate_top, ring_top), out),
{
    let mut t: Vec<Triangle> = Vec::new();
    add_flat(&mut t, &s.lower, 0, false);
    add_flat(&mut t, &s.ledge, plate_top, false);
    add_flat(&mut t, &s.upper, ring_top, true);
    add_ring_walls(&mut t, &s.outer, 0, ring_top, false);
    add_ring_walls(&mut t, &s.inner, 0, plate_top, true);
    add_ring_walls(&mut t, &s.lip, plate_top, ring_top, true);
    proof {
        assert(t@ =~= clamp_surface(*s, plate_top, ring_top));
    }
    repair(&t)
}

pub open spec fn place_of(p: Point2) -> (int, int) {
    (p.x as int, p.y as int)
}

/// Whether a trace runs into a hole: its groove overlaps the bore.
pub open spec fn reaches(center: (int, int), bore: int, t: Trace, channel: int) -> bool {
    twice_gap(center, place_of(t.start), place_of(t.end)) < bore + channel
}

/// Whether any trace runs into a hole.
pub open spec fn is_reached(center: (int, int), bore: int, traces: Seq<Trace>, channel: int) -> bool {
    exists|i: int| 0 <= i < traces.len() && reaches(center, bore, #[trigger] traces[i], channel)
}

pub open spec fn traces_in_reach(traces: Seq<Trace>) -> bool {
    forall|i: int|
        0 <= i < traces.len() ==> in_reach(place_of((#[trigger] traces[i]).start)) && in_reach(
            place_of(traces[i].end),
        )
}

fn find_reached(center: Point2, bore: i64, traces: &Vec<Trace>, channel: i64) -> (yes: bool)
    requires
        in_reach(place_of(center)),
        traces_in_reach(traces@),
    ensures
        yes == is_reached(place_of(center), bore as int, traces@, channel as int),
{
    let most: i128 = bore as i128 + channel as i128;
    let mut i: usize = 0;
    while i < traces.len()
        invariant
            i <= traces@.len(),
            in_reach(place_of(center)),
            traces_in_reach(traces@),
            most == bore + channel,
            forall|j: int|
                0 <= j < i ==> !reaches(
                    place_of(center),
                    bore as int,
                    #[trigger] traces@[j],
                    channel as int,
                ),
        decreases traces@.len() - i,
    {
        let t: Trace = traces[i];
        assert(in_reach(place_of(traces@[i as int].start)));
        let d: i64 = twice_from_segment(
            (center.x, center.y),
            (t.start.x, t.start.y),
            (t.end.x, t.end.y),
        );
        if (d as i128) < most {
            assert(reaches(place_of(center), bore as int, traces@[i as int], channel as int));
            return true;
        }
        i += 1;
    }
    false
}

/// A collar: a flat pocket round a hole. Its diameter is twice the radius of the bore,
/// with twice the gap, and twice what a higher band adds.
#[derive(Clone, Copy, Debug, PartialEq, Eq, Structural)]
pub struct Collar {
    pub center: Point2,
    pub diameter: i128,
}

/// The diameter of a collar round a bore.
pub open spec fn collar_diameter(bore: int, extra: int) -> int {
    bore + 2 * COLLAR_GAP + 2 * extra
}

/// The collars of drilled pads: of those that a trace runs into, and of those with a
/// land.
pub open spec fn pad_collars(
    pads: Seq<Pad>,
    traces: Seq<Trace>,
    layer: CopperLayer,
    lands: bool,
    channel: int,
    least: int,
    extra: int,
) -> Seq<((int, int), int)>
    decreases pads.len(),
{
    if pads.len() == 0 {
        Seq::empty()
    } else {
        let front = pad_collars(pads.drop_last(), traces, layer, lands, channel, least, extra);
        let p = pads.last();
        let bore = upper_of(upper_of(p.drill as int, p.drill_h as int), least);
        if p.drill > 0 && (is_reached(place_of(p.center), bore, traces, channel) || (lands
            && is_on(p, layer))) {
            front.push((place_of(p.center), collar_diameter(bore, extra)))
        } else {
            front
        }
    }
}

/// Whether a pad is on a layer.
pub open spec fn is_on(p: Pad, layer: CopperLayer) -> bool {
    match layer {
        CopperLayer::FCu => p.on_fcu,
        CopperLayer::BCu => p.on_bcu,
    }
}

/// The collars of vias that a trace runs into.
pub open spec fn via_collars(
    vias: Seq<Via>,
    traces: Seq<Trace>,
    channel: int,
    eyelet: int,
    extra: int,
) -> Seq<((int, int), int)>
    decreases vias.len(),
{
    if vias.len() == 0 {
        Seq::empty()
    } else {
        let front = via_collars(vias.drop_last(), traces, channel, eyelet, extra);
        let v = vias.last();
        let bore = via_bore(v.drill as int, eyelet);
        if is_reached(place_of(v.center), bore, traces, channel) {
            front.push((place_of(v.center), collar_diameter(bore, extra)))
        } else {
            front
        }
    }
}

pub open spec fn collar_models(list: Seq<Collar>) -> Seq<((int, int), int)> {
    list.map_values(|c: Collar| (place_of(c.center), c.diameter as int))
}

/// What decides on the collars of a layer.
#[derive(Clone, Copy, Debug)]
pub struct CollarRules {
    pub layer: CopperLayer,
    pub lands: bool,
    pub channel_width: i64,
    pub pad_hole_diameter: i64,
    pub eyelet_diameter: i64,
    /// What a higher band adds all round.
    pub extra: i64,
}

/// The collars round the holes that the traces of a layer run into.
pub open spec fn collars(pads: Seq<Pad>, vias: Seq<Via>, traces: Seq<Trace>, r: CollarRules) -> Seq<
    ((int, int), int),
> {
    pad_collars(
        pads,
        traces,
        r.layer,
        r.lands,
        r.channel_width as int,
        r.pad_hole_diameter as int,
        r.extra as int,
    ) + via_collars(
        vias,
        traces,
        r.channel_width as int,
        r.eyelet_diameter as int,
        r.extra as int,
    )
}

pub open spec fn centers_in_reach(pads: Seq<Pad>, vias: Seq<Via>) -> bool {
    &&& forall|i: int| 0 <= i < pads.len() ==> in_reach(place_of((#[trigger] pads[i]).center))
    &&& forall|i: int| 0 <= i < vias.len() ==> in_reach(place_of((#[trigger] vias[i]).center))
}

fn all_reachable(pads: &Vec<Pad>, vias: &Vec<Via>, traces: &Vec<Trace>) -> (yes: bool)
    ensures
        yes == (centers_in_reach(pads@, vias@) && traces_in_reach(traces@)),
{
    let mut i: usize = 0;
    while i < pads.len()
        invariant
            i <= pads@.len(),
            forall|j: int| 0 <= j < i ==> in_reach(place_of((#[trigger] pads@[j]).center)),
        decreases pads@.len() - i,
    {
        if !reachable((pads[i].center.x, pads[i].center.y)) {
            assert(!in_reach(place_of(pads@[i as int].center)));
            return false;
        }
        i += 1;
    }
    let mut i: usize = 0;
    while i < vias.len()
        invariant
            i <= vias@.len(),
            forall|j: int| 0 <= j < i ==> in_reach(place_of((#[trigger] vias@[j]).center)),
        decreases vias@.len() - i,
    {
        if !reachable((vias[i].center.x, vias[i].center.y)) {
            assert(!in_reach(place_of(vias@[i as int].center)));
            return false;
        }
        i += 1;
    }
    let mut i: usize = 0;
    while i < traces.len()
        invariant
            i <= traces@.len(),
            forall|j: int|
                0 <= j < i ==> in_reach(place_of((#[trigger] traces@[j]).start)) && in_reach(
                    place_of(traces@[j].end),
                ),
        decreases traces@.len() - i,
    {
        let t: Trace = traces[i];
        if !(reachable((t.start.x, t.start.y)) && reachable((t.end.x, t.end.y))) {
            assert(!(in_reach(place_of(traces@[i as int].start)) && in_reach(
                place_of(traces@[i as int].end),
            )));
            return false;
        }
        i += 1;
    }
    true
}

fn greater(a: i64, b: i64) -> (c: i64)
    ensures
        c == upper_of(a as int, b as int),
{
    if a >= b {
        a
    } else {
        b
    }
}

fn collar_at(center: Point2, bore: i64, extra: i64) -> (c: Collar)
    ensures
        c.center == center,
        c.diameter == collar_diameter(bore as int, extra as int),
{
    Collar { center, diameter: bore as i128 + 2 * COLLAR_GAP as i128 + 2 * extra as i128 }
}

fn add_pad_collars(out: &mut Vec<Collar>, pads: &Vec<Pad>, traces: &Vec<Trace>, r: &CollarRules)
    requires
        forall|i: int| 0 <= i < pads@.len() ==> in_reach(place_of((#[trigger] pads@[i]).center)),
        traces_in_reach(traces@),
        old(out)@.len() == 0,
    ensures
        collar_models(final(out)@) == pad_collars(
            pads@,
            traces@,
            r.layer,
            r.lands,
            r.channel_width as int,
            r.pad_hole_diameter as int,
            r.extra as int,
        ),
{
    let mut i: usize = 0;
    proof {
        assert(pads@.take(0).len() == 0);
        assert(collar_models(out@) =~= Seq::empty());
    }
    while i < pads.len()
        invariant
            i <= pads@.len(),
            forall|j: int| 0 <= j < pads@.len() ==> in_reach(place_of((#[trigger] pads@[j]).center)),
            traces_in_reach(traces@),
            collar_models(out@) == pad_collars(
                pads@.take(i as int),
                traces@,
                r.layer,
                r.lands,
                r.channel_width as int,
                r.pad_hole_diameter as int,
                r.extra as int,
            ),
        decreases pads@.len() - i,
    {
        proof {
            assert(pads@.take(i + 1).drop_last() =~= pads@.take(i as int));
            assert(pads@.take(i + 1).last() == pads@[i as int]);
        }
        let p = &pads[i];
        if p.drill > 0 {
            let bore: i64 = greater(greater(p.drill, p.drill_h), r.pad_hole_diameter);
            let on: bool = match r.layer {
                CopperLayer::FCu => p.on_fcu,
                CopperLayer::BCu => p.on_bcu,
            };
            if find_reached(p.center, bore, traces, r.channel_width) || (r.lands && on) {
                let ghost done = out@;
                let c = collar_at(p.center, bore, r.extra);
                out.push(c);
                proof {
                    assert(collar_models(out@) =~= collar_models(done).push(
                        (place_of(c.center), c.diameter as int),
                    ));
                }
            }
        }
        i += 1;
    }
    proof {
        assert(pads@.take(pads@.len() as int) =~= pads@);
    }
}

/// The collars round the holes that the traces of a layer run into. None if something
/// is too far away to be measured.
pub fn hole_collars(pads: &Vec<Pad>, vias: &Vec<Via>, traces: &Vec<Trace>, r: &CollarRules) -> (out: Option<
    Vec<Collar>,
>)
    ensures
        out is Some == (centers_in_reach(pads@, vias@) && traces_in_reach(traces@)),
        out matches Some(list) ==> collar_models(list@) == collars(pads@, vias@, traces@, *r),
{
    if !all_reachable(pads, vias, traces) {
        return None;
    }
    let mut out: Vec<Collar> = Vec::new();
    add_pad_collars(&mut out, pads, traces, r);
    let ghost start = collar_models(out@);
    let mut i: usize = 0;
    proof {
        assert(vias@.take(0).len() == 0);
        assert(collar_models(out@) =~= start + via_collars(
            vias@.take(0),
            traces@,
            r.channel_width as int,
            r.eyelet_diameter as int,
            r.extra as int,
        ));
    }
    while i < vias.len()
        invariant
            i <= vias@.len(),
            centers_in_reach(pads@, vias@),
            traces_in_reach(traces@),
            collar_models(out@) == start + via_collars(
                vias@.take(i as int),
                traces@,
                r.channel_width as int,
                r.eyelet_diameter as int,
                r.extra as int,
            ),
        decreases vias@.len() - i,
    {
        proof {
            assert(vias@.take(i + 1).drop_last() =~= vias@.take(i as int));
            assert(vias@.take(i + 1).last() == vias@[i as int]);
        }
        let v = &vias[i];
        let bore: i64 = via_bore_diameter(v, r.eyelet_diameter);
        if find_reached(v.center, bore, traces, r.channel_width) {
            let ghost done = out@;
            let c = collar_at(v.center, bore, r.extra);
            out.push(c);
            proof {
                assert(collar_models(out@) =~= collar_models(done).push(
                    (place_of(c.center), c.diameter as int),
                ));
            }
        }
        proof {
            assert(collar_models(out@) =~= start + via_collars(
                vias@.take(i + 1),
                traces@,
                r.channel_width as int,
                r.eyelet_diameter as int,
                r.extra as int,
            ));
        }
        i += 1;
    }
    proof {
        assert(vias@.take(vias@.len() as int) =~= vias@);
    }
    Some(out)
}

/// A collar lies wholly outside its bore, and a higher band has a wider one.
pub proof fn lemma_collars_nest(bore: int, extra: int, more: int)
    requires
        0 <= extra < more,
    ensures
        bore < collar_diameter(bore, extra) < collar_diameter(bore, more),
{
}

} // verus!
