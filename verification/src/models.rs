//! What the files of a model hold: every corner of every triangle, at its place.

use crate::choices::OutputFormat;
use crate::export::{
    coordinate, corner_points, counting, extent, is_page, outputs_of, shown_file, triangle_lines,
    vertex_line, vertex_lines, vertex_list, Output,
};
use crate::listing::stands;
use crate::mesh::{Point3, Triangle};
use crate::strings::{decimal, digit, joined};
use crate::units::{padded, sign};
use vstd::prelude::*;

verus! {

/// The corners of a model are those of its triangles, three after three.
pub proof fn lemma_corners_are_three_by_three(list: Seq<Triangle>)
    ensures
        corner_points(list).len() == 3 * list.len(),
        forall|i: int|
            0 <= i < list.len() ==> corner_points(list)[3 * i] == (#[trigger] list[i]).a
                && corner_points(list)[3 * i + 1] == list[i].b && corner_points(list)[3 * i + 2]
                == list[i].c,
    decreases list.len(),
{
    if list.len() > 0 {
        let front = list.drop_last();
        lemma_corners_are_three_by_three(front);
        assert forall|i: int| 0 <= i < list.len() implies corner_points(list)[3 * i] == (
        #[trigger] list[i]).a && corner_points(list)[3 * i + 1] == list[i].b && corner_points(
            list,
        )[3 * i + 2] == list[i].c by {
            if i < front.len() {
                assert(front[i] == list[i]);
                assert(corner_points(list)[3 * i] == corner_points(front)[3 * i]);
                assert(corner_points(list)[3 * i + 1] == corner_points(front)[3 * i + 1]);
                assert(corner_points(list)[3 * i + 2] == corner_points(front)[3 * i + 2]);
            }
        }
    }
}

pub open spec fn vertex_of() -> spec_fn(Point3) -> Seq<char> {
    |p: Point3| vertex_line(p)
}

/// A model lists the corners of its triangles, one line each.
pub proof fn lemma_model_lists_its_corners(list: Seq<Triangle>)
    ensures
        vertex_lines(list) == corner_points(list).map_values(vertex_of()).flatten_alt(),
    decreases list.len(),
{
    let lines = corner_points(list).map_values(vertex_of());
    if list.len() == 0 {
        assert(lines.flatten_alt() =~= Seq::<char>::empty());
    } else {
        let front = list.drop_last();
        let t = list.last();
        lemma_model_lists_its_corners(front);
        let l2 = lines.drop_last();
        let l1 = l2.drop_last();
        assert(l1.drop_last() =~= corner_points(front).map_values(vertex_of()));
        assert(lines.last() == vertex_line(t.c));
        assert(l2.last() == vertex_line(t.b));
        assert(l1.last() == vertex_line(t.a));
        assert(lines.flatten_alt() == l2.flatten_alt() + vertex_line(t.c));
        assert(l2.flatten_alt() == l1.flatten_alt() + vertex_line(t.b));
        assert(l1.flatten_alt() == vertex_lines(front) + vertex_line(t.a));
    }
}

/// The line of a corner gives its coordinates, each under its name.
#[verifier::rlimit(40)]
pub proof fn lemma_corner_is_named(p: Point3)
    ensures
        ({
            let x = coordinate(p.x as int);
            let y = coordinate(p.y as int);
            let z = coordinate(p.z as int);
            let line = vertex_line(p);
            &&& stands(line, 0, "<vertex x=\""@ + x + "\""@)
            &&& stands(line, 11 + x.len() as int, "\" y=\""@ + y + "\""@)
            &&& stands(line, 16 + x.len() + y.len() as int, "\" z=\""@ + z + "\"/>\n"@)
            &&& line.len() == 25 + x.len() + y.len() + z.len()
        }),
{
    reveal_strlit("<vertex x=\"");
    reveal_strlit("\" y=\"");
    reveal_strlit("\" z=\"");
    reveal_strlit("\"/>\n");
    reveal_strlit("\"");
    let x = coordinate(p.x as int);
    let y = coordinate(p.y as int);
    let z = coordinate(p.z as int);
    let line = vertex_line(p);
    let a = "<vertex x=\""@ + x + "\""@;
    assert(line.subrange(0, a.len() as int) =~= a);
    let b = "\" y=\""@ + y + "\""@;
    assert(line.subrange(11 + x.len() as int, 11 + x.len() as int + b.len()) =~= b);
    let c = "\" z=\""@ + z + "\"/>\n"@;
    assert(line.subrange(16 + x.len() + y.len() as int, 16 + x.len() + y.len() as int + c.len()) =~= c);
}

/// A triangle of a model, by the numbers of its corners.
pub open spec fn triangle_of() -> spec_fn(int) -> Seq<char> {
    |i: int|
        "<triangle v1=\""@ + decimal((i + i + i) as nat) + "\" v2=\""@ + decimal((i + i + i + 1) as nat)
            + "\" v3=\""@ + decimal((i + i + i + 2) as nat) + "\"/>\n"@
}

/// A model lists its triangles, each by the numbers of its own corners.
pub proof fn lemma_model_lists_its_triangles(n: nat)
    ensures
        triangle_lines(n) == Seq::new(n, triangle_of()).flatten_alt(),
    decreases n,
{
    let lines = Seq::new(n, triangle_of());
    if n == 0 {
        assert(lines.flatten_alt() =~= Seq::<char>::empty());
    } else {
        let m = (n - 1) as nat;
        lemma_model_lists_its_triangles(m);
        assert(lines.drop_last() =~= Seq::new(m, triangle_of()));
        assert(3 * m == m + m + m);
    }
}

/// A coordinate is written in millimetres to four places, which is exact.
#[verifier::rlimit(40)]
pub proof fn lemma_coordinate_is_exact(n: int)
    ensures
        n >= 0 ==> coordinate(n) == decimal((n / 10_000) as nat) + seq![
            '.',
            digit((n / 1_000 % 10) as nat),
            digit((n / 100 % 10) as nat),
            digit((n / 10 % 10) as nat),
            digit((n % 10) as nat),
        ],
        n < 0 ==> coordinate(n) == seq!['-'] + coordinate(-n),
{
    lemma_fixed_places(n);
    lemma_four_places(if n < 0 {
        -n
    } else {
        n
    });
    if n >= 0 {
        assert(Seq::<char>::empty() + decimal((n / 10_000) as nat) =~= decimal((n / 10_000) as nat));
        assert(coordinate(n) =~= decimal((n / 10_000) as nat) + (seq!['.'] + padded(
            (n % 10_000) as nat,
            1_000,
        )));
        assert(seq!['.'] + padded((n % 10_000) as nat, 1_000) =~= seq![
            '.',
            digit((n / 1_000 % 10) as nat),
            digit((n / 100 % 10) as nat),
            digit((n / 10 % 10) as nat),
            digit((n % 10) as nat),
        ]);
    } else {
        lemma_fixed_places(-n);
        assert(Seq::<char>::empty() + decimal((-n / 10_000) as nat) =~= decimal((-n / 10_000) as nat));
        assert(coordinate(n) =~= seq!['-'] + coordinate(-n));
    }
}

proof fn lemma_fixed_places(n: int)
    ensures
        ({
            let m = if n < 0 {
                -n
            } else {
                n
            };
            coordinate(n) == sign(n) + decimal((m / 10_000) as nat) + seq!['.'] + padded(
                (m % 10_000) as nat,
                1_000,
            )
        }),
{
    let m = if n < 0 {
        -n
    } else {
        n
    };
    assert(1_000_000int / 10_000int == 100);
    assert((100 * m + 50) / 100 == m);
    assert(sign(100 * n) == sign(n));
}

#[verifier::rlimit(40)]
proof fn lemma_four_places(m: int)
    requires
        0 <= m,
    ensures
        padded((m % 10_000) as nat, 1_000) == seq![
            digit((m / 1_000 % 10) as nat),
            digit((m / 100 % 10) as nat),
            digit((m / 10 % 10) as nat),
            digit((m % 10) as nat),
        ],
{
    let f = (m % 10_000) as nat;
    let f1 = f % 1_000;
    let f2 = f1 % 100;
    let f3 = f2 % 10;
    assert(padded(f3 % 1, 0) == Seq::<char>::empty());
    assert(padded(f3, 1) =~= seq![digit(f3 / 1 % 10)]);
    assert(padded(f2, 10) =~= seq![digit(f2 / 10 % 10), digit(f3 / 1 % 10)]);
    assert(padded(f1, 100) =~= seq![
        digit(f1 / 100 % 10),
        digit(f2 / 10 % 10),
        digit(f3 / 1 % 10),
    ]);
    assert(padded(f, 1_000) =~= seq![
        digit(f / 1_000 % 10),
        digit(f1 / 100 % 10),
        digit(f2 / 10 % 10),
        digit(f3 / 1 % 10),
    ]);
    lemma_digits_of(m);
}

proof fn lemma_digits_of(m: int)
    requires
        0 <= m,
    ensures
        m % 10_000 / 1_000 % 10 == m / 1_000 % 10,
        m % 10_000 % 1_000 / 100 % 10 == m / 100 % 10,
        m % 10_000 % 1_000 % 100 / 10 % 10 == m / 10 % 10,
        m % 10_000 % 1_000 % 100 % 10 / 1 % 10 == m % 10,
{
    let d = m % 10;
    let m1 = m / 10;
    let c = m1 % 10;
    let m2 = m1 / 10;
    let b = m2 % 10;
    let m3 = m2 / 10;
    let a = m3 % 10;
    let q = m3 / 10;
    assert(m == 10_000 * q + 1_000 * a + 100 * b + 10 * c + d);
    assert(m / 100 == m2);
    assert(m / 1_000 == m3);
    assert(m % 10_000 == 1_000 * a + 100 * b + 10 * c + d);
    assert(m % 10_000 / 1_000 == a);
    assert(m % 10_000 % 1_000 == 100 * b + 10 * c + d);
    assert(m % 10_000 % 1_000 / 100 == b);
    assert(m % 10_000 % 1_000 % 100 == 10 * c + d);
    assert(m % 10_000 % 1_000 % 100 / 10 == c);
    assert(m % 10_000 % 1_000 % 100 % 10 == d);
}

pub open spec fn shown_point() -> spec_fn(Point3) -> Seq<char> {
    |p: Point3|
        joined(
            seq![coordinate(p.x as int), coordinate(p.y as int), coordinate(p.z as int)],
            seq![','],
        )
}

/// A preview holds the coordinates of its corners, with commas between.
#[verifier::rlimit(40)]
pub proof fn lemma_preview_holds_its_corners(points: Seq<Point3>)
    ensures
        vertex_list(points) == joined(points.map_values(shown_point()), seq![',']),
    decreases points.len(),
{
    reveal_strlit(",");
    assert(","@ =~= seq![',']);
    let shown = points.map_values(shown_point());
    if points.len() > 0 {
        let p = points.last();
        let parts = seq![coordinate(p.x as int), coordinate(p.y as int), coordinate(p.z as int)];
        reveal_with_fuel(joined, 3);
        assert(parts.drop_last().drop_last() =~= seq![coordinate(p.x as int)]);
        assert(shown.last() == joined(parts, seq![',']));
        let text = coordinate(p.x as int) + ","@ + coordinate(p.y as int) + ","@ + coordinate(
            p.z as int,
        );
        assert(joined(parts, seq![',']) =~= text);
        if points.len() > 1 {
            lemma_preview_holds_its_corners(points.drop_last());
            assert(shown.drop_last() =~= points.drop_last().map_values(shown_point()));
        } else {
            assert(shown[0] == shown.last());
        }
    }
}

pub open spec fn shown_number() -> spec_fn(int) -> Seq<char> {
    |i: int| decimal(i as nat)
}

/// A preview numbers its corners from nought on.
pub proof fn lemma_preview_counts_its_corners(n: nat)
    ensures
        counting(n) == joined(Seq::new(n, shown_number()), seq![',']),
    decreases n,
{
    reveal_strlit(",");
    assert(","@ =~= seq![',']);
    let all = Seq::new(n, shown_number());
    if n > 1 {
        let m = (n - 1) as nat;
        lemma_preview_counts_its_corners(m);
        assert(all.drop_last() =~= Seq::new(m, shown_number()));
    } else if n == 1 {
        assert(all[0] == decimal(0));
    }
}

/// The room that points take up holds all of them, and no less would.
pub proof fn lemma_extent_is_tight(points: Seq<Point3>, f: spec_fn(Point3) -> int)
    requires
        points.len() > 0,
    ensures
        forall|i: int|
            0 <= i < points.len() ==> extent(points, f).0 <= f(#[trigger] points[i])
                <= extent(points, f).1,
        exists|i: int| 0 <= i < points.len() && f(#[trigger] points[i]) == extent(points, f).0,
        exists|i: int| 0 <= i < points.len() && f(#[trigger] points[i]) == extent(points, f).1,
    decreases points.len(),
{
    let n = points.len() - 1;
    if n == 0 {
        assert(f(points[0]) == extent(points, f).0);
    } else {
        let front = points.drop_last();
        lemma_extent_is_tight(front, f);
        assert forall|i: int| 0 <= i < points.len() implies extent(points, f).0 <= f(
            #[trigger] points[i],
        ) <= extent(points, f).1 by {
            if i < n {
                assert(front[i] == points[i]);
            }
        }
        let low = choose|i: int| 0 <= i < front.len() && f(#[trigger] front[i]) == extent(front, f).0;
        let high = choose|i: int| 0 <= i < front.len() && f(#[trigger] front[i]) == extent(front, f).1;
        assert(points[low] == front[low] && points[high] == front[high]);
        assert(f(points[n]) == f(points.last()));
    }
}

/// What is written of a model: the solid in the formats asked for, always a preview, and a
/// guide if there is one; nothing twice.
pub proof fn lemma_outputs_are_those_asked_for(format: OutputFormat, guided: bool)
    ensures
        outputs_of(format, guided).no_duplicates(),
        outputs_of(format, guided).contains(Output::Stl) == (format != OutputFormat::ThreeM),
        outputs_of(format, guided).contains(Output::ThreeMf) == (format != OutputFormat::Stl),
        outputs_of(format, guided).contains(Output::Preview),
        outputs_of(format, guided).contains(Output::Guide) == guided,
{
    let all = outputs_of(format, guided);
    let n = if format == OutputFormat::Both {
        2int
    } else {
        1int
    };
    assert(all[0] == Output::Stl || all[0] == Output::ThreeMf);
    assert(format == OutputFormat::Both ==> all[1] == Output::ThreeMf && all[0] == Output::Stl);
    assert(all[n] == Output::Preview);
    assert(guided ==> all[n + 1] == Output::Guide);
}

/// The file that is opened is the first page; where there is no page, the first file.
pub proof fn lemma_first_page_is_shown(names: Seq<Seq<char>>, from: int)
    requires
        0 <= from <= names.len(),
    ensures
        (shown_file(names, from) is None) == (names.len() == 0),
        shown_file(names, from) matches Some(i) ==> 0 <= i < names.len() && (is_page(names[i]) && from
            <= i || i == 0 && forall|j: int| from <= j < names.len() ==> !is_page(#[trigger] names[j])),
        shown_file(names, from) matches Some(i) ==> forall|j: int|
            from <= j < i ==> !is_page(#[trigger] names[j]),
    decreases names.len() - from,
{
    if from < names.len() && !is_page(names[from]) {
        lemma_first_page_is_shown(names, from + 1);
    }
}

} // verus!
