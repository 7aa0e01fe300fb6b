//! What the surface of a board is made of: its faces at their heights, the floors of its
//! grooves, its sides, and the walls of its grooves and holes.

use crate::mesh::{Point3, Triangle};
use crate::solid::{
    all_points, all_walls, band_of, bands_upto, behind, clamp_surface, face_of, faces_of, groove,
    lipped_surface, opened, plate_surface, ring_views, ring_walls, shape_walls, surface, walls_upto,
    Clamp, Lipped, Shape, Solid,
};
use vstd::prelude::*;

verus! {

/// A triangle of a shape, laid flat at a height: it is walked as the shape says if it
/// faces up, and the other way round if it faces down.
pub open spec fn flat(s: Shape, k: int, z: i64, up: bool) -> Triangle {
    let points = all_points(ring_views(s.rings@));
    let p = points[s.corners@[3 * k] as int];
    let q = points[s.corners@[3 * k + 1] as int];
    let r = points[s.corners@[3 * k + 2] as int];
    let a = Point3 { x: p.0, y: p.1, z };
    let b = Point3 { x: q.0, y: q.1, z };
    let c = Point3 { x: r.0, y: r.1, z };
    if up {
        Triangle { a, b, c }
    } else {
        Triangle { a, b: c, c: b }
    }
}

/// Whether all triangles of shapes lie flat at a height.
pub open spec fn lies_flat(list: Seq<Triangle>, shapes: Seq<Shape>, z: i64, up: bool) -> bool {
    forall|j: int, k: int|
        0 <= j < shapes.len() && 0 <= k && 3 * k + 2 < shapes[j].corners@.len() ==> list.contains(
            #[trigger] flat(shapes[j], k, z, up),
        )
}

/// Whether a wall stands between two points and two heights, in two triangles. Seen from
/// the side that it faces, it is walked round to the left: that side is to the right of
/// the way from the one point to the other, or to the left if it faces `inward`.
pub open spec fn has_wall(
    list: Seq<Triangle>,
    p: (i64, i64),
    q: (i64, i64),
    low: i64,
    high: i64,
    inward: bool,
) -> bool {
    let foot = Point3 { x: p.0, y: p.1, z: low };
    let head = Point3 { x: p.0, y: p.1, z: high };
    let far_foot = Point3 { x: q.0, y: q.1, z: low };
    let far_head = Point3 { x: q.0, y: q.1, z: high };
    if inward {
        &&& list.contains(Triangle { a: foot, b: far_head, c: far_foot })
        &&& list.contains(Triangle { a: foot, b: head, c: far_head })
    } else {
        &&& list.contains(Triangle { a: foot, b: far_foot, c: far_head })
        &&& list.contains(Triangle { a: foot, b: far_head, c: head })
    }
}

/// Whether walls stand along a ring, between each point and the next, and from the last
/// to the first.
pub open spec fn has_walls(
    list: Seq<Triangle>,
    ring: Seq<(i64, i64)>,
    low: i64,
    high: i64,
    inward: bool,
) -> bool {
    &&& forall|i: int|
        0 <= i < ring.len() - 1 ==> has_wall(
            list,
            #[trigger] ring[i],
            ring[i + 1],
            low,
            high,
            inward,
        )
    &&& ring[0] != ring.last() ==> has_wall(list, ring.last(), ring[0], low, high, inward)
}

/// Whether walls stand along the rings of shapes; those of holes in a shape face the
/// other way than those along its outer ring.
pub open spec fn is_walled(
    list: Seq<Triangle>,
    shapes: Seq<Shape>,
    low: i64,
    high: i64,
    inward: bool,
) -> bool {
    forall|j: int, r: int|
        0 <= j < shapes.len() && 0 <= r < shapes[j].rings@.len() && (
        #[trigger] shapes[j].rings@[r])@.len() >= 3 ==> has_walls(
            list,
            shapes[j].rings@[r]@,
            low,
            high,
            if r == 0 {
                inward
            } else {
                !inward
            },
        )
}

spec fn holds_all(list: Seq<Triangle>, part: Seq<Triangle>) -> bool {
    forall|t: Triangle| #[trigger] part.contains(t) ==> list.contains(t)
}

proof fn lemma_sum(a: Seq<Triangle>, b: Seq<Triangle>)
    ensures
        holds_all(a + b, a),
        holds_all(a + b, b),
{
    assert forall|t: Triangle| #[trigger] a.contains(t) implies (a + b).contains(t) by {
        let i = choose|i: int| 0 <= i < a.len() && a[i] == t;
        assert((a + b)[i] == t);
    }
    assert forall|t: Triangle| #[trigger] b.contains(t) implies (a + b).contains(t) by {
        let i = choose|i: int| 0 <= i < b.len() && b[i] == t;
        assert((a + b)[a.len() + i] == t);
    }
}

proof fn lemma_flat(list: Seq<Triangle>, shapes: Seq<Shape>, z: i64, up: bool)
    requires
        holds_all(list, faces_of(shapes, z, up)),
    ensures
        lies_flat(list, shapes, z, up),
    decreases shapes.len(),
{
    if shapes.len() > 0 {
        let front = shapes.drop_last();
        let last = shapes[shapes.len() - 1];
        lemma_sum(faces_of(front, z, up), face_of(last, z, up));
        lemma_flat(list, front, z, up);
        assert forall|j: int, k: int|
            0 <= j < shapes.len() && 0 <= k && 3 * k + 2 < shapes[j].corners@.len() implies list.contains(
            #[trigger] flat(shapes[j], k, z, up),
        ) by {
            if j < front.len() {
                assert(front[j] == shapes[j]);
                assert(list.contains(flat(front[j], k, z, up)));
            } else {
                let faces = face_of(last, z, up);
                assert(k < last.corners@.len() / 3);
                assert(faces[k] == flat(last, k, z, up));
                assert(faces.contains(flat(last, k, z, up)));
                assert(faces_of(shapes, z, up).contains(flat(last, k, z, up)));
            }
        }
    }
}

proof fn lemma_upto(ring: Seq<(i64, i64)>, low: i64, high: i64, inward: bool, upto: int, i: int)
    requires
        0 <= i < upto,
    ensures
        has_wall(
            walls_upto(ring, low, high, inward, upto),
            ring[i],
            behind(ring, i),
            low,
            high,
            inward,
        ),
    decreases upto,
{
    let walls = walls_upto(ring, low, high, inward, upto);
    let front = walls_upto(ring, low, high, inward, upto - 1);
    if i == upto - 1 {
        assert(walls[front.len() as int] == walls[walls.len() - 2]);
        assert(walls.contains(walls[walls.len() - 2]));
        assert(walls.contains(walls[walls.len() - 1]));
    } else {
        lemma_upto(ring, low, high, inward, upto - 1, i);
        assert forall|t: Triangle| #[trigger] front.contains(t) implies walls.contains(t) by {
            let k = choose|k: int| 0 <= k < front.len() && front[k] == t;
            assert(walls[k] == t);
        }
    }
}

proof fn lemma_has_wall_kept(
    list: Seq<Triangle>,
    part: Seq<Triangle>,
    p: (i64, i64),
    q: (i64, i64),
    low: i64,
    high: i64,
    inward: bool,
)
    requires
        holds_all(list, part),
        has_wall(part, p, q, low, high, inward),
    ensures
        has_wall(list, p, q, low, high, inward),
{
}

proof fn lemma_ring(list: Seq<Triangle>, ring: Seq<(i64, i64)>, low: i64, high: i64, inward: bool)
    requires
        ring.len() >= 3,
        holds_all(list, ring_walls(ring, low, high, inward)),
    ensures
        has_walls(list, ring, low, high, inward),
{
    let r = opened(ring);
    let n = r.len() as int;
    let walls = walls_upto(r, low, high, inward, n);
    assert forall|i: int| 0 <= i < ring.len() - 1 implies has_wall(
        list,
        #[trigger] ring[i],
        ring[i + 1],
        low,
        high,
        inward,
    ) by {
        lemma_upto(r, low, high, inward, n, i);
        assert(r[i] == ring[i]);
        assert(behind(r, i) == ring[i + 1]);
        lemma_has_wall_kept(list, walls, ring[i], ring[i + 1], low, high, inward);
    }
    if ring[0] != ring.last() {
        lemma_upto(r, low, high, inward, n, n - 1);
        lemma_has_wall_kept(list, walls, ring.last(), ring[0], low, high, inward);
    }
}

proof fn lemma_shape(
    list: Seq<Triangle>,
    rings: Seq<Seq<(i64, i64)>>,
    low: i64,
    high: i64,
    inward: bool,
    r: int,
)
    requires
        holds_all(list, shape_walls(rings, low, high, inward)),
        0 <= r < rings.len(),
        rings[r].len() >= 3,
    ensures
        has_walls(
            list,
            rings[r],
            low,
            high,
            if r == 0 {
                inward
            } else {
                !inward
            },
        ),
    decreases rings.len(),
{
    let front = rings.drop_last();
    let turned = if rings.len() == 1 {
        inward
    } else {
        !inward
    };
    lemma_sum(
        shape_walls(front, low, high, inward),
        ring_walls(rings.last(), low, high, turned),
    );
    if r < front.len() {
        assert(front[r] == rings[r]);
        lemma_shape(list, front, low, high, inward, r);
    } else {
        lemma_ring(list, rings[r], low, high, turned);
    }
}

proof fn lemma_walls(list: Seq<Triangle>, shapes: Seq<Shape>, low: i64, high: i64, inward: bool)
    requires
        holds_all(list, all_walls(shapes, low, high, inward)),
    ensures
        is_walled(list, shapes, low, high, inward),
    decreases shapes.len(),
{
    if shapes.len() > 0 {
        let front = shapes.drop_last();
        let last = shapes[shapes.len() - 1];
        lemma_sum(
            all_walls(front, low, high, inward),
            shape_walls(ring_views(last.rings@), low, high, inward),
        );
        lemma_walls(list, front, low, high, inward);
        assert forall|j: int, r: int|
            0 <= j < shapes.len() && 0 <= r < shapes[j].rings@.len() && (
            #[trigger] shapes[j].rings@[r])@.len() >= 3 implies has_walls(
            list,
            shapes[j].rings@[r]@,
            low,
            high,
            if r == 0 {
                inward
            } else {
                !inward
            },
        ) by {
            if j < front.len() {
                assert(front[j] == shapes[j]);
                assert(front[j].rings@[r]@.len() >= 3);
            } else {
                let rings = ring_views(last.rings@);
                assert(rings[r] == last.rings@[r]@);
                lemma_shape(list, rings, low, high, inward, r);
            }
        }
    }
}

proof fn lemma_band(
    list: Seq<Triangle>,
    levels: Seq<Vec<Shape>>,
    ledges: Seq<Vec<Shape>>,
    floor: i64,
    opening: i64,
    is_top: bool,
    upto: int,
    i: int,
)
    requires
        0 <= i < upto <= levels.len(),
        holds_all(list, bands_upto(levels, ledges, floor, opening, is_top, upto)),
    ensures
        holds_all(list, band_of(levels, ledges, floor, opening, is_top, i)),
    decreases upto,
{
    lemma_sum(
        bands_upto(levels, ledges, floor, opening, is_top, upto - 1),
        band_of(levels, ledges, floor, opening, is_top, upto - 1),
    );
    if i < upto - 1 {
        lemma_band(list, levels, ledges, floor, opening, is_top, upto - 1, i);
    }
}

/// The height between two that lies `i` of `n` parts up, to the nearest step.
pub open spec fn part_way(from: int, to: int, i: int, n: int) -> int {
    from + (2 * (to - from) * i + n) / (2 * n)
}

/// Whether a groove is there: its floor, flat at the height of the floor, and for each
/// band a wall from its height to that of the next, and a ledge where the next begins.
pub open spec fn has_groove(
    list: Seq<Triangle>,
    levels: Seq<Vec<Shape>>,
    ledges: Seq<Vec<Shape>>,
    floor: i64,
    opening: i64,
    up: bool,
    i: int,
) -> bool {
    let n = levels.len() as int;
    &&& lies_flat(list, levels[0]@, floor, up)
    &&& is_walled(
        list,
        levels[i]@,
        part_way(floor as int, opening as int, i, n) as i64,
        part_way(floor as int, opening as int, i + 1, n) as i64,
        !up,
    )
    &&& i + 1 < n && i < ledges.len() ==> lies_flat(
        list,
        ledges[i]@,
        part_way(floor as int, opening as int, i + 1, n) as i64,
        up,
    )
}

proof fn lemma_groove(
    list: Seq<Triangle>,
    levels: Seq<Vec<Shape>>,
    ledges: Seq<Vec<Shape>>,
    floor: i64,
    opening: i64,
    up: bool,
    i: int,
)
    requires
        holds_all(list, groove(levels, ledges, floor, opening, up)),
        0 <= i < levels.len(),
    ensures
        has_groove(list, levels, ledges, floor, opening, up, i),
{
    let n = levels.len() as int;
    let bands = bands_upto(levels, ledges, floor, opening, up, n);
    lemma_sum(faces_of(levels[0]@, floor, up), bands);
    assert(holds_all(list, faces_of(levels[0]@, floor, up)));
    assert(holds_all(list, bands));
    lemma_flat(list, levels[0]@, floor, up);
    lemma_band(list, levels, ledges, floor, opening, up, n, i);
    let low = part_way(floor as int, opening as int, i, n) as i64;
    let high = part_way(floor as int, opening as int, i + 1, n) as i64;
    let walls = all_walls(levels[i]@, low, high, !up);
    if i + 1 < n && i < ledges.len() {
        lemma_sum(walls, faces_of(ledges[i]@, high, up));
        assert(holds_all(list, faces_of(ledges[i]@, high, up)));
        lemma_flat(list, ledges[i]@, high, up);
    }
    assert(holds_all(list, walls));
    lemma_walls(list, levels[i]@, low, high, !up);
}

/// The surface of a board has its top at the height of its thickness, facing up, and its
/// bottom at nought, facing down. Its sides and the walls of its holes go from the one to
/// the other. The grooves of the top go down from there by the depth, and those of the
/// bottom, if anything is cut into it, up by the depth.
pub proof fn lemma_board_has_its_parts(
    s: Solid,
    thickness: i64,
    depth: i64,
    recessed: bool,
    i: int,
    j: int,
)
    requires
        i64::MIN <= thickness - depth <= i64::MAX,
    ensures
        ({
            let list = surface(s, thickness, depth, recessed);
            let floor = (thickness - depth) as i64;
            &&& lies_flat(list, s.top@, thickness, true)
            &&& lies_flat(list, s.bottom@, 0, false)
            &&& s.outline@.len() >= 3 ==> has_walls(list, s.outline@, 0, thickness, false)
            &&& is_walled(list, s.holes@, 0, thickness, false)
            &&& 0 <= i < s.upper@.len() ==> has_groove(
                list,
                s.upper@,
                s.upper_ledges@,
                floor,
                thickness,
                true,
                i,
            )
            &&& recessed && 0 <= j < s.lower@.len() ==> has_groove(
                list,
                s.lower@,
                s.lower_ledges@,
                depth,
                0,
                false,
                j,
            )
        }),
{
    let list = surface(s, thickness, depth, recessed);
    let floor = (thickness - depth) as i64;
    let top = faces_of(s.top@, thickness, true);
    let bottom = faces_of(s.bottom@, 0, false);
    let sides = ring_walls(s.outline@, 0, thickness, false);
    let upper = groove(s.upper@, s.upper_ledges@, floor, thickness, true);
    let lower = groove(s.lower@, s.lower_ledges@, depth, 0, false);
    let bores = all_walls(s.holes@, 0, thickness, false);
    let shell = top + bottom + sides + upper;
    let cut = if recessed {
        shell + lower
    } else {
        shell
    };
    assert(list == cut + bores);
    lemma_sum(cut, bores);
    lemma_sum(shell, lower);
    assert(holds_all(list, cut));
    assert(holds_all(list, shell));
    lemma_sum(top + bottom + sides, upper);
    lemma_sum(top + bottom, sides);
    lemma_sum(top, bottom);
    assert(holds_all(list, top + bottom + sides));
    assert(holds_all(list, top + bottom));
    assert(holds_all(list, top));
    assert(holds_all(list, bottom));
    assert(holds_all(list, sides));
    assert(holds_all(list, upper));
    assert(holds_all(list, bores));
    lemma_flat(list, s.top@, thickness, true);
    lemma_flat(list, s.bottom@, 0, false);
    if s.outline@.len() >= 3 {
        lemma_ring(list, s.outline@, 0, thickness, false);
    }
    lemma_walls(list, s.holes@, 0, thickness, false);
    if 0 <= i < s.upper@.len() {
        lemma_groove(list, s.upper@, s.upper_ledges@, floor, thickness, true, i);
    }
    if recessed && 0 <= j < s.lower@.len() {
        assert(holds_all(list, lower));
        lemma_groove(list, s.lower@, s.lower_ledges@, depth, 0, false, j);
    }
}

/// A flat stencil is a plate from nought to its thickness: its face above, the same face
/// below, its edge, and the walls of its slots.
pub proof fn lemma_plate_has_its_parts(
    face: Seq<Shape>,
    outer: Seq<(i64, i64)>,
    slots: Seq<Shape>,
    thickness: i64,
)
    ensures
        ({
            let list = plate_surface(face, outer, slots, thickness);
            &&& lies_flat(list, face, thickness, true)
            &&& lies_flat(list, face, 0, false)
            &&& outer.len() >= 3 ==> has_walls(list, outer, 0, thickness, false)
            &&& is_walled(list, slots, 0, thickness, false)
        }),
{
    let list = plate_surface(face, outer, slots, thickness);
    let top = faces_of(face, thickness, true);
    let under = faces_of(face, 0, false);
    let edge = ring_walls(outer, 0, thickness, false);
    let cuts = all_walls(slots, 0, thickness, false);
    lemma_sum(top + under + edge, cuts);
    lemma_sum(top + under, edge);
    lemma_sum(top, under);
    assert(holds_all(list, top + under + edge));
    assert(holds_all(list, top + under));
    assert(holds_all(list, top) && holds_all(list, under));
    assert(holds_all(list, edge) && holds_all(list, cuts));
    lemma_flat(list, face, thickness, true);
    lemma_flat(list, face, 0, false);
    if outer.len() >= 3 {
        lemma_ring(list, outer, 0, thickness, false);
    }
    lemma_walls(list, slots, 0, thickness, false);
}

/// A stencil with a lip has its top at its thickness, its underside at nought and the rim
/// of the lip below that by the drop. The outer edge goes all the way, the inner edge of
/// the lip from its rim to the underside, and the slots through the plate.
pub proof fn lemma_lipped_has_its_parts(s: Lipped, thickness: i64, drop: i64)
    requires
        drop > i64::MIN,
    ensures
        ({
            let list = lipped_surface(s, thickness, drop);
            let low = (-drop) as i64;
            &&& lies_flat(list, s.top@, thickness, true)
            &&& lies_flat(list, s.underside@, 0, false)
            &&& lies_flat(list, s.rim@, low, false)
            &&& s.outer@.len() >= 3 ==> has_walls(list, s.outer@, low, thickness, false)
            &&& s.inner@.len() >= 3 ==> has_walls(list, s.inner@, low, 0, true)
            &&& is_walled(list, s.slots@, 0, thickness, false)
        }),
{
    let list = lipped_surface(s, thickness, drop);
    let low = (-drop) as i64;
    let top = faces_of(s.top@, thickness, true);
    let under = faces_of(s.underside@, 0, false);
    let rim = faces_of(s.rim@, low, false);
    let outer = ring_walls(s.outer@, low, thickness, false);
    let inner = ring_walls(s.inner@, low, 0, true);
    let cuts = all_walls(s.slots@, 0, thickness, false);
    lemma_sum(top + under + rim + outer + inner, cuts);
    lemma_sum(top + under + rim + outer, inner);
    lemma_sum(top + under + rim, outer);
    lemma_sum(top + under, rim);
    lemma_sum(top, under);
    assert(holds_all(list, top + under + rim + outer + inner) && holds_all(list, cuts));
    assert(holds_all(list, top + under + rim + outer) && holds_all(list, inner));
    assert(holds_all(list, top + under + rim) && holds_all(list, outer));
    assert(holds_all(list, top + under) && holds_all(list, rim));
    assert(holds_all(list, top) && holds_all(list, under));
    lemma_flat(list, s.top@, thickness, true);
    lemma_flat(list, s.underside@, 0, false);
    lemma_flat(list, s.rim@, low, false);
    if s.outer@.len() >= 3 {
        lemma_ring(list, s.outer@, low, thickness, false);
    }
    if s.inner@.len() >= 3 {
        lemma_ring(list, s.inner@, low, 0, true);
    }
    lemma_walls(list, s.slots@, 0, thickness, false);
}

/// A clamp ring stands from nought to its height: its lower rim faces down, the underside
/// of its lip lies on the plate, and its top faces up. The outer wall goes all the way,
/// the inner one up to the plate, and the edge of the lip from there to the top.
pub proof fn lemma_clamp_has_its_parts(s: Clamp, plate_top: i64, ring_top: i64)
    ensures
        ({
            let list = clamp_surface(s, plate_top, ring_top);
            &&& lies_flat(list, s.lower@, 0, false)
            &&& lies_flat(list, s.ledge@, plate_top, false)
            &&& lies_flat(list, s.upper@, ring_top, true)
            &&& s.outer@.len() >= 3 ==> has_walls(list, s.outer@, 0, ring_top, false)
            &&& s.inner@.len() >= 3 ==> has_walls(list, s.inner@, 0, plate_top, true)
            &&& s.lip@.len() >= 3 ==> has_walls(list, s.lip@, plate_top, ring_top, true)
        }),
{
    let list = clamp_surface(s, plate_top, ring_top);
    let lower = faces_of(s.lower@, 0, false);
    let ledge = faces_of(s.ledge@, plate_top, false);
    let upper = faces_of(s.upper@, ring_top, true);
    let outer = ring_walls(s.outer@, 0, ring_top, false);
    let inner = ring_walls(s.inner@, 0, plate_top, true);
    let lip = ring_walls(s.lip@, plate_top, ring_top, true);
    lemma_sum(lower + ledge + upper + outer + inner, lip);
    lemma_sum(lower + ledge + upper + outer, inner);
    lemma_sum(lower + ledge + upper, outer);
    lemma_sum(lower + ledge, upper);
    lemma_sum(lower, ledge);
    assert(holds_all(list, lower + ledge + upper + outer + inner) && holds_all(list, lip));
    assert(holds_all(list, lower + ledge + upper + outer) && holds_all(list, inner));
    assert(holds_all(list, lower + ledge + upper) && holds_all(list, outer));
    assert(holds_all(list, lower + ledge) && holds_all(list, upper));
    assert(holds_all(list, lower) && holds_all(list, ledge));
    lemma_flat(list, s.lower@, 0, false);
    lemma_flat(list, s.ledge@, plate_top, false);
    lemma_flat(list, s.upper@, ring_top, true);
    if s.outer@.len() >= 3 {
        lemma_ring(list, s.outer@, 0, ring_top, false);
    }
    if s.inner@.len() >= 3 {
        lemma_ring(list, s.inner@, 0, plate_top, true);
    }
    if s.lip@.len() >= 3 {
        lemma_ring(list, s.lip@, plate_top, ring_top, true);
    }
}

} // verus!
