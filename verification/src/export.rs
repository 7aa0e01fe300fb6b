//! What models are written to: files for printing, a preview, and their names.

use crate::choices::{lowercase, lowered, OutputFormat};
use crate::export_text::{
    CONTENT_TYPES, MODEL_END, MODEL_START, MODEL_TRIANGLES, PREVIEW_BY, PREVIEW_COUNT, PREVIEW_END,
    PREVIEW_INDICES, PREVIEW_NAME, PREVIEW_START, PREVIEW_VERTICES, PREVIEW_WIDTH, RELS,
};
use crate::mesh::{Point3, Triangle};
use crate::pcb::Side;
use crate::strings::{decimal, ends_with, number, strings};
use crate::text::{
    contains, extend, extend_str, has_at, has_str, same_str, to_chars, to_text,
};
use crate::units::{extend_decimal, extend_fixed, fixed};
use vstd::prelude::*;

verus! {

/// Three numbers, each by the bits of its single-precision form.
#[derive(Clone, Copy, Debug, PartialEq, Eq, Structural)]
pub struct Bits3 {
    pub x: u32,
    pub y: u32,
    pub z: u32,
}

/// A triangle as it is written for printing.
#[derive(Clone, Copy, Debug, PartialEq, Eq, Structural)]
pub struct StlTriangle {
    pub normal: Bits3,
    pub a: Bits3,
    pub b: Bits3,
    pub c: Bits3,
}

/// A number in four bytes, the least first.
pub open spec fn le4(n: u32) -> Seq<u8> {
    seq![
        (n % 256) as u8,
        (n / 256 % 256) as u8,
        (n / 65_536 % 256) as u8,
        (n / 16_777_216) as u8,
    ]
}

pub open spec fn le12(p: Bits3) -> Seq<u8> {
    le4(p.x) + le4(p.y) + le4(p.z)
}

/// A triangle: its normal, its corners, and two bytes that mean nothing.
pub open spec fn stl_record(t: StlTriangle) -> Seq<u8> {
    le12(t.normal) + le12(t.a) + le12(t.b) + le12(t.c) + seq![0u8, 0u8]
}

pub open spec fn stl_records(list: Seq<StlTriangle>) -> Seq<u8>
    decreases list.len(),
{
    if list.len() == 0 {
        Seq::empty()
    } else {
        stl_records(list.drop_last()) + stl_record(list.last())
    }
}

/// The eighty bytes that a file starts with: the name of this program and nothing.
pub open spec fn stl_header() -> Seq<u8> {
    seq![107u8, 105u8, 99u8, 97u8, 100u8, 50u8, 112u8, 114u8, 105u8, 110u8, 116u8] + Seq::new(
        69,
        |i: int| 0u8,
    )
}

/// A file of triangles.
pub open spec fn stl_file(list: Seq<StlTriangle>) -> Seq<u8> {
    stl_header() + le4(list.len() as u32) + stl_records(list)
}

fn push4(out: &mut Vec<u8>, n: u32)
    ensures
        final(out)@ == old(out)@ + le4(n),
{
    out.push((n % 256) as u8);
    out.push((n / 256 % 256) as u8);
    out.push((n / 65_536 % 256) as u8);
    out.push((n / 16_777_216) as u8);
    proof {
        assert(out@ =~= old(out)@ + le4(n));
    }
}

fn push12(out: &mut Vec<u8>, p: &Bits3)
    ensures
        final(out)@ == old(out)@ + le12(*p),
{
    push4(out, p.x);
    push4(out, p.y);
    push4(out, p.z);
    proof {
        assert(out@ =~= old(out)@ + le12(*p));
    }
}

/// A file of triangles.
pub fn stl_bytes(list: &Vec<StlTriangle>) -> (out: Vec<u8>)
    ensures
        out@ == stl_file(list@),
{
    let mut out: Vec<u8> = Vec::new();
    out.push(107);
    out.push(105);
    out.push(99);
    out.push(97);
    out.push(100);
    out.push(50);
    out.push(112);
    out.push(114);
    out.push(105);
    out.push(110);
    out.push(116);
    let ghost name = out@;
    while out.len() < 80
        invariant
            11 <= out@.len() <= 80,
            out@ =~= name + Seq::new((out@.len() - 11) as nat, |i: int| 0u8),
            name.len() == 11,
        decreases 80 - out@.len(),
    {
        out.push(0);
    }
    proof {
        assert(out@ =~= stl_header());
    }
    push4(
        &mut out,
        #[verifier::truncate]
        (list.len() as u32),
    );
    let ghost head = out@;
    let mut i: usize = 0;
    proof {
        assert(list@.take(0).len() == 0);
        assert(out@ =~= head + stl_records(list@.take(0)));
    }
    while i < list.len()
        invariant
            i <= list@.len(),
            out@ == head + stl_records(list@.take(i as int)),
        decreases list@.len() - i,
    {
        proof {
            assert(list@.take(i + 1).drop_last() =~= list@.take(i as int));
        }
        let t = &list[i];
        push12(&mut out, &t.normal);
        push12(&mut out, &t.a);
        push12(&mut out, &t.b);
        push12(&mut out, &t.c);
        out.push(0);
        out.push(0);
        proof {
            assert(out@ =~= head + stl_records(list@.take(i + 1)));
        }
        i += 1;
    }
    proof {
        assert(list@.take(list@.len() as int) =~= list@);
    }
    out
}

proof fn lemma_records_length(list: Seq<StlTriangle>)
    ensures
        stl_records(list).len() == 50 * list.len(),
    decreases list.len(),
{
    if list.len() > 0 {
        lemma_records_length(list.drop_last());
    }
}

/// A file of triangles is as long as its format says: 84 bytes and fifty for each
/// triangle.
pub proof fn lemma_stl_length(list: Seq<StlTriangle>)
    ensures
        stl_file(list).len() == 84 + 50 * list.len(),
{
    lemma_records_length(list);
}

/// The four bytes from a place on, as a number.
pub open spec fn read4(bytes: Seq<u8>, at: int) -> int {
    bytes[at] + 256 * bytes[at + 1] + 65_536 * bytes[at + 2] + 16_777_216 * bytes[at + 3]
}

proof fn lemma_read4(n: u32)
    ensures
        read4(le4(n), 0) == n,
{
    let b = le4(n);
    assert(n == n % 256 + 256 * (n / 256 % 256) + 65_536 * (n / 65_536 % 256) + 16_777_216 * (n
        / 16_777_216)) by (bit_vector);
    assert(n / 16_777_216 < 256) by (bit_vector);
}

/// The number of triangles can be read back from a file of no more than fit it.
pub proof fn lemma_stl_count(list: Seq<StlTriangle>)
    requires
        list.len() <= u32::MAX,
    ensures
        read4(stl_file(list), 80) == list.len(),
{
    let n = list.len() as u32;
    lemma_read4(n);
    let file = stl_file(list);
    assert(file[80] == le4(n)[0]);
    assert(file[81] == le4(n)[1]);
    assert(file[82] == le4(n)[2]);
    assert(file[83] == le4(n)[3]);
}

proof fn lemma_record_place(list: Seq<StlTriangle>, i: int)
    requires
        0 <= i < list.len(),
    ensures
        stl_records(list).len() == 50 * list.len(),
        stl_records(list).subrange(50 * i, 50 * i + 50) == stl_record(list[i]),
    decreases list.len(),
{
    lemma_records_length(list);
    lemma_records_length(list.drop_last());
    if i < list.len() - 1 {
        lemma_record_place(list.drop_last(), i);
        assert(stl_records(list).subrange(50 * i, 50 * i + 50) =~= stl_records(
            list.drop_last(),
        ).subrange(50 * i, 50 * i + 50));
    } else {
        assert(stl_records(list).subrange(50 * i, 50 * i + 50) =~= stl_record(list.last()));
    }
}

proof fn lemma_read_from(file: Seq<u8>, at: int, n: u32)
    requires
        0 <= at,
        at + 4 <= file.len(),
        file.subrange(at, at + 4) == le4(n),
    ensures
        file[at] + 256 * file[at + 1] + 65_536 * file[at + 2] + 16_777_216 * file[at + 3] == n,
{
    lemma_read4(n);
    let part = file.subrange(at, at + 4);
    assert(part[0] == file[at] && part[1] == file[at + 1]);
    assert(part[2] == file[at + 2] && part[3] == file[at + 3]);
}

proof fn lemma_record_parts(t: StlTriangle)
    ensures
        ({
            let r = stl_record(t);
            &&& r.len() == 50
            &&& r.subrange(0, 12) == le12(t.normal)
            &&& r.subrange(12, 24) == le12(t.a)
            &&& r.subrange(24, 36) == le12(t.b)
            &&& r.subrange(36, 48) == le12(t.c)
            &&& r[48] == 0
            &&& r[49] == 0
        }),
{
    let r = stl_record(t);
    assert(r.subrange(0, 12) =~= le12(t.normal));
    assert(r.subrange(12, 24) =~= le12(t.a));
    assert(r.subrange(24, 36) =~= le12(t.b));
    assert(r.subrange(36, 48) =~= le12(t.c));
}

proof fn lemma_read_three(file: Seq<u8>, at: int, p: Bits3)
    requires
        0 <= at,
        at + 12 <= file.len(),
        file.subrange(at, at + 12) == le12(p),
    ensures
        file[at] + 256 * file[at + 1] + 65_536 * file[at + 2] + 16_777_216 * file[at + 3] == p.x,
        file[at + 4] + 256 * file[at + 5] + 65_536 * file[at + 6] + 16_777_216 * file[at + 7]
            == p.y,
        file[at + 8] + 256 * file[at + 9] + 65_536 * file[at + 10] + 16_777_216 * file[at + 11]
            == p.z,
{
    assert(file.subrange(at, at + 4) =~= le12(p).subrange(0, 4));
    assert(le12(p).subrange(0, 4) =~= le4(p.x));
    lemma_read_from(file, at, p.x);
    assert(file.subrange(at + 4, at + 8) =~= le12(p).subrange(4, 8));
    assert(le12(p).subrange(4, 8) =~= le4(p.y));
    lemma_read_from(file, at + 4, p.y);
    assert(file.subrange(at + 8, at + 12) =~= le12(p).subrange(8, 12));
    assert(le12(p).subrange(8, 12) =~= le4(p.z));
    lemma_read_from(file, at + 8, p.z);
}

/// Reading a file back gives its triangles: fifty bytes each, from byte 84 on, with the
/// normal and then the three corners in order, twelve bytes each, four for a coordinate
/// with the least first, and two bytes of nothing.
#[verifier::rlimit(40)]
pub proof fn lemma_stl_read_back(list: Seq<StlTriangle>, i: int)
    requires
        0 <= i < list.len(),
    ensures
        ({
            let file = stl_file(list);
            let t = list[i];
            let at = 84 + 50 * i;
            let number = |k: int|
                file[k] + 256 * file[k + 1] + 65_536 * file[k + 2] + 16_777_216 * file[k + 3];
            &&& at + 50 <= file.len()
            &&& number(at) == t.normal.x
            &&& number(at + 4) == t.normal.y
            &&& number(at + 8) == t.normal.z
            &&& number(at + 12) == t.a.x
            &&& number(at + 16) == t.a.y
            &&& number(at + 20) == t.a.z
            &&& number(at + 24) == t.b.x
            &&& number(at + 28) == t.b.y
            &&& number(at + 32) == t.b.z
            &&& number(at + 36) == t.c.x
            &&& number(at + 40) == t.c.y
            &&& number(at + 44) == t.c.z
            &&& file[at + 48] == 0
            &&& file[at + 49] == 0
        }),
{
    let file = stl_file(list);
    let t = list[i];
    let at = 84 + 50 * i;
    let r = stl_record(t);
    lemma_record_place(list, i);
    assert(file.len() == 84 + 50 * list.len());
    assert(file.subrange(at, at + 50) =~= r) by {
        assert(file.subrange(at, at + 50) =~= stl_records(list).subrange(50 * i, 50 * i + 50));
    }
    lemma_record_parts(t);
    assert(file.subrange(at, at + 12) =~= file.subrange(at, at + 50).subrange(0, 12));
    assert(file.subrange(at + 12, at + 24) =~= file.subrange(at, at + 50).subrange(12, 24));
    assert(file.subrange(at + 24, at + 36) =~= file.subrange(at, at + 50).subrange(24, 36));
    assert(file.subrange(at + 36, at + 48) =~= file.subrange(at, at + 50).subrange(36, 48));
    lemma_read_three(file, at, t.normal);
    lemma_read_three(file, at + 12, t.a);
    lemma_read_three(file, at + 24, t.b);
    lemma_read_three(file, at + 36, t.c);
    assert(file.subrange(at, at + 50)[48] == 0);
    assert(file.subrange(at, at + 50)[49] == 0);
}

/// A coordinate in millimetres, to the last of the four places that it has.
pub open spec fn coordinate(n: int) -> Seq<char> {
    fixed(100 * n, 10_000)
}

fn extend_coordinate(out: &mut Vec<char>, n: i64)
    ensures
        final(out)@ == old(out)@ + coordinate(n as int),
{
    extend_fixed(out, 100 * n as i128, 10_000);
}

/// A vertex of a model.
pub open spec fn vertex_line(p: Point3) -> Seq<char> {
    "<vertex x=\""@ + coordinate(p.x as int) + "\" y=\""@ + coordinate(p.y as int) + "\" z=\""@
        + coordinate(p.z as int) + "\"/>\n"@
}

pub open spec fn vertex_lines(list: Seq<Triangle>) -> Seq<char>
    decreases list.len(),
{
    if list.len() == 0 {
        Seq::empty()
    } else {
        vertex_lines(list.drop_last()) + vertex_line(list.last().a) + vertex_line(list.last().b)
            + vertex_line(list.last().c)
    }
}

/// A triangle of a model: the three vertices that are its own.
pub open spec fn triangle_line(i: nat) -> Seq<char> {
    "<triangle v1=\""@ + decimal(3 * i) + "\" v2=\""@ + decimal(3 * i + 1) + "\" v3=\""@ + decimal(
        3 * i + 2,
    ) + "\"/>\n"@
}

pub open spec fn triangle_lines(n: nat) -> Seq<char>
    decreases n,
{
    if n == 0 {
        Seq::empty()
    } else {
        triangle_lines((n - 1) as nat) + triangle_line((n - 1) as nat)
    }
}

/// The model of an archive.
pub open spec fn model_text(list: Seq<Triangle>) -> Seq<char> {
    MODEL_START@ + vertex_lines(list) + MODEL_TRIANGLES@ + triangle_lines(list.len()) + MODEL_END@
}

fn extend_vertex(out: &mut Vec<char>, p: &Point3)
    ensures
        final(out)@ == old(out)@ + vertex_line(*p),
{
    extend_str(out, "<vertex x=\"");
    extend_coordinate(out, p.x);
    extend_str(out, "\" y=\"");
    extend_coordinate(out, p.y);
    extend_str(out, "\" z=\"");
    extend_coordinate(out, p.z);
    extend_str(out, "\"/>\n");
    proof {
        assert(out@ =~= old(out)@ + vertex_line(*p));
    }
}

fn extend_triangle(out: &mut Vec<char>, i: usize)
    ensures
        final(out)@ == old(out)@ + triangle_line(i as nat),
{
    let n: u128 = 3 * i as u128;
    extend_str(out, "<triangle v1=\"");
    extend_decimal(out, n);
    extend_str(out, "\" v2=\"");
    extend_decimal(out, n + 1);
    extend_str(out, "\" v3=\"");
    extend_decimal(out, n + 2);
    extend_str(out, "\"/>\n");
    proof {
        assert(out@ =~= old(out)@ + triangle_line(i as nat));
    }
}

/// The model of an archive.
pub fn write_model(list: &Vec<Triangle>) -> (out: String)
    ensures
        out@ == model_text(list@),
{
    let mut out = to_chars(MODEL_START);
    let ghost head = out@;
    let mut i: usize = 0;
    proof {
        assert(list@.take(0).len() == 0);
        assert(out@ =~= head + vertex_lines(list@.take(0)));
    }
    while i < list.len()
        invariant
            i <= list@.len(),
            out@ == head + vertex_lines(list@.take(i as int)),
        decreases list@.len() - i,
    {
        proof {
            assert(list@.take(i + 1).drop_last() =~= list@.take(i as int));
        }
        extend_vertex(&mut out, &list[i].a);
        extend_vertex(&mut out, &list[i].b);
        extend_vertex(&mut out, &list[i].c);
        proof {
            assert(out@ =~= head + vertex_lines(list@.take(i + 1)));
        }
        i += 1;
    }
    proof {
        assert(list@.take(list@.len() as int) =~= list@);
    }
    extend_str(&mut out, MODEL_TRIANGLES);
    let ghost head = out@;
    let mut i: usize = 0;
    proof {
        assert(out@ =~= head + triangle_lines(0));
    }
    while i < list.len()
        invariant
            i <= list@.len(),
            out@ == head + triangle_lines(i as nat),
        decreases list@.len() - i,
    {
        extend_triangle(&mut out, i);
        i += 1;
        proof {
            assert((i as nat - 1) as nat == (i - 1) as nat);
            assert(out@ =~= head + triangle_lines(i as nat));
        }
    }
    extend_str(&mut out, MODEL_END);
    to_text(out.as_slice())
}

pub open spec fn named_texts(list: Seq<(String, String)>) -> Seq<(Seq<char>, Seq<char>)> {
    list.map_values(|p: (String, String)| (p.0@, p.1@))
}

/// The files of the archive of a model, by name and content.
pub fn threemf_parts(list: &Vec<Triangle>) -> (out: Vec<(String, String)>)
    ensures
        named_texts(out@) == seq![
            ("[Content_Types].xml"@, CONTENT_TYPES@),
            ("_rels/.rels"@, RELS@),
            ("3D/3dmodel.model"@, model_text(list@)),
        ],
{
    let mut out: Vec<(String, String)> = Vec::new();
    out.push(("[Content_Types].xml".to_string(), CONTENT_TYPES.to_string()));
    out.push(("_rels/.rels".to_string(), RELS.to_string()));
    out.push(("3D/3dmodel.model".to_string(), write_model(list)));
    proof {
        assert(named_texts(out@) =~= seq![
            ("[Content_Types].xml"@, CONTENT_TYPES@),
            ("_rels/.rels"@, RELS@),
            ("3D/3dmodel.model"@, model_text(list@)),
        ]);
    }
    out
}

/// The coordinates of vertices, with commas between.
pub open spec fn vertex_list(points: Seq<Point3>) -> Seq<char>
    decreases points.len(),
{
    if points.len() == 0 {
        Seq::empty()
    } else {
        let p = points.last();
        let shown = coordinate(p.x as int) + ","@ + coordinate(p.y as int) + ","@ + coordinate(
            p.z as int,
        );
        if points.len() == 1 {
            shown
        } else {
            vertex_list(points.drop_last()) + ","@ + shown
        }
    }
}

/// The corners of triangles.
pub open spec fn corner_points(list: Seq<Triangle>) -> Seq<Point3>
    decreases list.len(),
{
    if list.len() == 0 {
        Seq::empty()
    } else {
        corner_points(list.drop_last()).push(list.last().a).push(list.last().b).push(list.last().c)
    }
}

fn read_corners(list: &Vec<Triangle>) -> (out: Vec<Point3>)
    ensures
        out@ == corner_points(list@),
{
    let mut out: Vec<Point3> = Vec::new();
    let mut i: usize = 0;
    proof {
        assert(list@.take(0).len() == 0);
    }
    while i < list.len()
        invariant
            i <= list@.len(),
            out@ == corner_points(list@.take(i as int)),
        decreases list@.len() - i,
    {
        proof {
            assert(list@.take(i + 1).drop_last() =~= list@.take(i as int));
        }
        out.push(list[i].a);
        out.push(list[i].b);
        out.push(list[i].c);
        i += 1;
    }
    proof {
        assert(list@.take(list@.len() as int) =~= list@);
    }
    out
}

fn extend_vertex_list(out: &mut Vec<char>, points: &Vec<Point3>)
    ensures
        final(out)@ == old(out)@ + vertex_list(points@),
{
    let mut i: usize = 0;
    proof {
        assert(points@.take(0).len() == 0);
        assert(out@ =~= old(out)@ + vertex_list(points@.take(0)));
    }
    while i < points.len()
        invariant
            i <= points@.len(),
            out@ == old(out)@ + vertex_list(points@.take(i as int)),
        decreases points@.len() - i,
    {
        proof {
            assert(points@.take(i + 1).drop_last() =~= points@.take(i as int));
        }
        if i > 0 {
            extend_str(out, ",");
        }
        extend_coordinate(out, points[i].x);
        extend_str(out, ",");
        extend_coordinate(out, points[i].y);
        extend_str(out, ",");
        extend_coordinate(out, points[i].z);
        proof {
            assert(out@ =~= old(out)@ + vertex_list(points@.take(i + 1)));
        }
        i += 1;
    }
    proof {
        assert(points@.take(points@.len() as int) =~= points@);
    }
}

/// The first numbers, with commas between.
pub open spec fn counting(n: nat) -> Seq<char>
    decreases n,
{
    if n == 0 {
        Seq::empty()
    } else if n == 1 {
        decimal(0)
    } else {
        counting((n - 1) as nat) + ","@ + decimal((n - 1) as nat)
    }
}

fn extend_counting(out: &mut Vec<char>, n: usize)
    ensures
        final(out)@ == old(out)@ + counting(n as nat),
{
    let mut i: usize = 0;
    proof {
        assert(out@ =~= old(out)@ + counting(0));
    }
    while i < n
        invariant
            i <= n,
            out@ == old(out)@ + counting(i as nat),
        decreases n - i,
    {
        if i > 0 {
            extend_str(out, ",");
        }
        extend_decimal(out, i as u128);
        i += 1;
        proof {
            assert((i as nat - 1) as nat == (i - 1) as nat);
            assert(out@ =~= old(out)@ + counting(i as nat));
        }
    }
}

/// The least and the greatest of what points give.
pub open spec fn extent(points: Seq<Point3>, f: spec_fn(Point3) -> int) -> (int, int)
    recommends
        points.len() > 0,
    decreases points.len(),
{
    if points.len() <= 1 {
        (f(points[0]), f(points[0]))
    } else {
        let r = extent(points.drop_last(), f);
        let n = f(points.last());
        (if n < r.0 {
            n
        } else {
            r.0
        }, if n > r.1 {
            n
        } else {
            r.1
        })
    }
}

/// How much room points take up in one direction.
pub open spec fn size_text(points: Seq<Point3>, f: spec_fn(Point3) -> int) -> Seq<char> {
    if points.len() == 0 {
        "-inf"@
    } else {
        let r = extent(points, f);
        fixed(100 * (r.1 - r.0), 10)
    }
}

pub open spec fn x_of() -> spec_fn(Point3) -> int {
    |p: Point3| p.x as int
}

pub open spec fn y_of() -> spec_fn(Point3) -> int {
    |p: Point3| p.y as int
}

pub open spec fn z_of() -> spec_fn(Point3) -> int {
    |p: Point3| p.z as int
}

fn extend_size(out: &mut Vec<char>, points: &Vec<Point3>, axis: u8)
    requires
        axis < 3,
    ensures
        final(out)@ == old(out)@ + size_text(
            points@,
            if axis == 0 {
                x_of()
            } else if axis == 1 {
                y_of()
            } else {
                z_of()
            },
        ),
{
    let ghost f: spec_fn(Point3) -> int = if axis == 0 {
        x_of()
    } else if axis == 1 {
        y_of()
    } else {
        z_of()
    };
    if points.len() == 0 {
        extend_str(out, "-inf");
        return;
    }
    let first = along(&points[0], axis);
    let mut low: i64 = first;
    let mut high: i64 = first;
    let mut i: usize = 1;
    while i < points.len()
        invariant
            1 <= i <= points@.len(),
            axis < 3,
            f == (if axis == 0 {
                x_of()
            } else if axis == 1 {
                y_of()
            } else {
                z_of()
            }),
            (low as int, high as int) == extent(points@.take(i as int), f),
            low <= high,
        decreases points@.len() - i,
    {
        proof {
            assert(points@.take(i + 1).drop_last() =~= points@.take(i as int));
        }
        let n: i64 = along(&points[i], axis);
        if n < low {
            low = n;
        }
        if n > high {
            high = n;
        }
        i += 1;
    }
    proof {
        assert(points@.take(points@.len() as int) =~= points@);
    }
    extend_fixed(out, 100 * (high as i128 - low as i128), 10);
}

fn along(p: &Point3, axis: u8) -> (n: i64)
    requires
        axis < 3,
    ensures
        n == (if axis == 0 {
            x_of()
        } else if axis == 1 {
            y_of()
        } else {
            z_of()
        })(*p),
{
    if axis == 0 {
        p.x
    } else if axis == 1 {
        p.y
    } else {
        p.z
    }
}

/// The preview of a model.
pub open spec fn preview(list: Seq<Triangle>, stem: Seq<char>) -> Seq<char> {
    let points = corner_points(list);
    PREVIEW_START@ + stem + PREVIEW_NAME@ + stem + PREVIEW_COUNT@ + decimal(list.len())
        + PREVIEW_WIDTH@ + size_text(points, x_of()) + PREVIEW_BY@ + size_text(points, y_of())
        + PREVIEW_BY@ + size_text(points, z_of()) + PREVIEW_VERTICES@ + "["@ + vertex_list(points)
        + "]"@ + PREVIEW_INDICES@ + "["@ + counting(points.len()) + "]"@ + PREVIEW_END@
}

/// The preview of a model.
pub fn write_preview(list: &Vec<Triangle>, stem: &str) -> (out: String)
    ensures
        out@ == preview(list@, stem@),
{
    let points = read_corners(list);
    let mut out = to_chars(PREVIEW_START);
    extend_str(&mut out, stem);
    extend_str(&mut out, PREVIEW_NAME);
    extend_str(&mut out, stem);
    extend_str(&mut out, PREVIEW_COUNT);
    let digits = number(list.len());
    extend(&mut out, digits.as_slice());
    extend_str(&mut out, PREVIEW_WIDTH);
    extend_size(&mut out, &points, 0);
    extend_str(&mut out, PREVIEW_BY);
    extend_size(&mut out, &points, 1);
    extend_str(&mut out, PREVIEW_BY);
    extend_size(&mut out, &points, 2);
    extend_str(&mut out, PREVIEW_VERTICES);
    extend_str(&mut out, "[");
    extend_vertex_list(&mut out, &points);
    extend_str(&mut out, "]");
    extend_str(&mut out, PREVIEW_INDICES);
    extend_str(&mut out, "[");
    extend_counting(&mut out, points.len());
    extend_str(&mut out, "]");
    extend_str(&mut out, PREVIEW_END);
    to_text(out.as_slice())
}

/// A file that is written.
#[derive(Clone, Copy, Debug, PartialEq, Eq, Structural)]
pub enum Output {
    Stl,
    ThreeMf,
    Preview,
    Guide,
}

/// The files that are written of a model, in order. `guided` says whether there is a
/// guide.
pub open spec fn outputs_of(format: OutputFormat, guided: bool) -> Seq<Output> {
    let prints = match format {
        OutputFormat::Stl => seq![Output::Stl],
        OutputFormat::ThreeM => seq![Output::ThreeMf],
        OutputFormat::Both => seq![Output::Stl, Output::ThreeMf],
    };
    prints + (if guided {
        seq![Output::Preview, Output::Guide]
    } else {
        seq![Output::Preview]
    })
}

/// The files that are written of a model, in order: what is printed, then the preview
/// and, if there is one, the guide.
pub fn plan_outputs(format: OutputFormat, guided: bool) -> (out: Vec<Output>)
    ensures
        out@ == outputs_of(format, guided),
{
    let mut out: Vec<Output> = Vec::new();
    match format {
        OutputFormat::Stl => out.push(Output::Stl),
        OutputFormat::ThreeM => out.push(Output::ThreeMf),
        OutputFormat::Both => {
            out.push(Output::Stl);
            out.push(Output::ThreeMf);
        },
    }
    out.push(Output::Preview);
    if guided {
        out.push(Output::Guide);
    }
    proof {
        assert(out@ =~= outputs_of(format, guided));
    }
    out
}

/// What the name of a file ends in.
pub open spec fn ending(o: Output) -> Seq<char> {
    match o {
        Output::Stl => ".stl"@,
        Output::ThreeMf => ".3mf"@,
        Output::Preview => "_preview.html"@,
        Output::Guide => "_guide.html"@,
    }
}

impl Output {
    /// The name of the file for a board.
    pub fn file_name(self, stem: &str) -> (name: String)
        ensures
            name@ == stem@ + ending(self),
    {
        let mut out = to_chars(stem);
        match self {
            Output::Stl => extend_str(&mut out, ".stl"),
            Output::ThreeMf => extend_str(&mut out, ".3mf"),
            Output::Preview => extend_str(&mut out, "_preview.html"),
            Output::Guide => extend_str(&mut out, "_guide.html"),
        }
        to_text(out.as_slice())
    }
}

/// The sides that can be asked for.
pub open spec fn side_named(lower: Seq<char>) -> Option<Side> {
    if lower == "top"@ {
        Some(Side::Top)
    } else if lower == "bottom"@ {
        Some(Side::Bottom)
    } else {
        None
    }
}

/// The side that a name stands for, however it is spelt.
pub fn parse_side(name: &str) -> (side: Result<Side, String>)
    ensures
        match side_named(lowercase(name@)) {
            Some(s) => side == Ok::<Side, String>(s),
            None => side is Err && side->Err_0@ == "Invalid side: '"@ + lowercase(name@)
                + "'. Use 'top' or 'bottom', or omit for combined model."@,
        },
{
    let lower = lowered(name);
    if same_str(lower.as_str(), "top") {
        Ok(Side::Top)
    } else if same_str(lower.as_str(), "bottom") {
        Ok(Side::Bottom)
    } else {
        let mut out = to_chars("Invalid side: '");
        extend_str(&mut out, lower.as_str());
        extend_str(&mut out, "'. Use 'top' or 'bottom', or omit for combined model.");
        Err(to_text(out.as_slice()))
    }
}

/// The name of a model, with the side if only one is made.
pub fn model_stem(board: &str, side: Option<Side>) -> (stem: String)
    ensures
        stem@ == board@ + (match side {
            None => Seq::empty(),
            Some(Side::Top) => "_top"@,
            Some(Side::Bottom) => "_bottom"@,
        }),
{
    let mut out = to_chars(board);
    match side {
        None => {
            proof {
                assert(out@ + Seq::<char>::empty() =~= out@);
            }
        },
        Some(Side::Top) => extend_str(&mut out, "_top"),
        Some(Side::Bottom) => extend_str(&mut out, "_bottom"),
    }
    to_text(out.as_slice())
}

/// Whether a file is a page: its name ends so and is not only that.
pub open spec fn is_page(name: Seq<char>) -> bool {
    name.len() > 5 && ends_with(name, ".html"@)
}

/// What is said of a file that was written.
pub open spec fn label_of(name: Seq<char>) -> Seq<char> {
    if ends_with(name, "_guide.html"@) {
        "  📋 Build guide (assembly + continuity + 3D)"@
    } else if ends_with(name, "_stencil_ring.stl"@) {
        "  ⭕ Stencil clamp ring (reusable, snaps to PCB)"@
    } else if contains(name, "_stencil_"@) {
        "  🩹 Paint stencil (print contact-face down)"@
    } else if is_page(name) {
        "  🌐 Preview (interactive)"@
    } else {
        "  📦"@
    }
}

fn has_ending(name: &[char], end: &str) -> (yes: bool)
    ensures
        yes == ends_with(name@, end@),
{
    let end = to_chars(end);
    end.len() <= name.len() && has_at(name, end.as_slice(), name.len() - end.len())
}

fn page_name(name: &[char]) -> (yes: bool)
    ensures
        yes == is_page(name@),
{
    name.len() > 5 && has_ending(name, ".html")
}

/// What is said of a file that was written.
pub fn file_label(name: &str) -> (label: &'static str)
    ensures
        label@ == label_of(name@),
{
    let chars = to_chars(name);
    let name = chars.as_slice();
    if has_ending(name, "_guide.html") {
        "  📋 Build guide (assembly + continuity + 3D)"
    } else if has_ending(name, "_stencil_ring.stl") {
        "  ⭕ Stencil clamp ring (reusable, snaps to PCB)"
    } else if has_str(name, "_stencil_") {
        "  🩹 Paint stencil (print contact-face down)"
    } else if page_name(name) {
        "  🌐 Preview (interactive)"
    } else {
        "  📦"
    }
}

/// Which of the files is opened to look at the model: the first page, else the first
/// file.
pub open spec fn shown_file(names: Seq<Seq<char>>, upto: int) -> Option<int>
    decreases names.len() - upto,
{
    if upto < 0 || upto >= names.len() {
        if names.len() > 0 {
            Some(0)
        } else {
            None
        }
    } else if is_page(names[upto]) {
        Some(upto)
    } else {
        shown_file(names, upto + 1)
    }
}

/// Which of the files is opened to look at the model.
pub fn file_to_show(names: &Vec<String>) -> (found: Option<usize>)
    ensures
        (match found {
            Some(i) => Some(i as int),
            None => None,
        }) == shown_file(strings(names@), 0),
        found matches Some(i) ==> i < names@.len(),
{
    let ghost all = strings(names@);
    proof {
        assert(all.len() == names@.len());
    }
    let mut i: usize = 0;
    while i < names.len()
        invariant
            i <= names@.len(),
            all == strings(names@),
            all.len() == names@.len(),
            shown_file(all, 0) == shown_file(all, i as int),
        decreases names@.len() - i,
    {
        let chars = to_chars(names[i].as_str());
        assert(all[i as int] == names@[i as int]@);
        if page_name(chars.as_slice()) {
            return Some(i);
        }
        i += 1;
    }
    if names.len() > 0 {
        Some(0)
    } else {
        None
    }
}

} // verus!
