//! Wires of a schematic that lead nowhere.

use crate::fields::{loose_point, read_point};
use crate::sexpr::{
    cut_runs, ends_word, lemma_proper_cuts_fit, lemma_top_level_blocks, pair, pairs, proper, word_ends, top_level,
    top_level_blocks, without, Span,
};
use crate::text::{find, find_from, lemma_find_is_first, matches_at, to_chars, to_text};
use vstd::prelude::*;
use vstd::slice::slice_subrange;

verus! {

/// The number of the cell, of the given size, that a length falls in. A length
/// halfway between two cells goes to the one farther from zero.
pub open spec fn cell(v: int, size: int) -> int {
    if v >= 0 {
        (v + size / 2) / size
    } else {
        -((-v + size / 2) / size)
    }
}

/// The number of the cell, of the given size, that a length falls in.
pub fn cell_of(v: i64, size: u32) -> (n: i64)
    requires
        size > 1,
    ensures
        n == cell(v as int, size as int),
{
    let wide: i128 = v as i128;
    let unit: i128 = size as i128;
    let half: i128 = unit / 2;
    let n: i128 = if wide >= 0 {
        (wide + half) / unit
    } else {
        -((-wide + half) / unit)
    };
    proof {
        let big: int = if wide >= 0 {
            wide + half
        } else {
            -wide + half
        };
        let u: int = unit as int;
        assert(0 <= big / u <= 0x8000_0000_0000_0000 - 1) by (nonlinear_arith)
            requires
                0 <= big <= 0x8000_0000_0000_0000 + u / 2,
                u >= 2,
        ;
    }
    n as i64
}

/// The cells, a tenth of a micrometre wide, that a point in nanometres falls in.
pub open spec fn point_cell(p: (int, int)) -> (int, int) {
    (cell(p.0, 100), cell(p.1, 100))
}

fn point_cell_of(p: (i64, i64)) -> (k: (i64, i64))
    ensures
        (k.0 as int, k.1 as int) == point_cell((p.0 as int, p.1 as int)),
{
    (cell_of(p.0, 100), cell_of(p.1, 100))
}

/// The two points that a wire runs between: the first two words behind its first
/// and second `(xy `, each up to the next.
pub open spec fn wire_points(block: Seq<char>) -> Option<((int, int), (int, int))> {
    match find(block, "(xy "@, 0) {
        None => None,
        Some(a) => match find(block, "(xy "@, a + 4) {
            None => None,
            Some(b) => {
                let end = match find(block, "(xy "@, b + 4) {
                    Some(c) => c,
                    None => block.len() as int,
                };
                match (
                    loose_point(block.subrange(a + 4, b), 0),
                    loose_point(block.subrange(b + 4, end), 0),
                ) {
                    (Some(p), Some(q)) => Some((p, q)),
                    _ => None,
                }
            },
        },
    }
}

fn read_wire_points(block: &[char]) -> (points: Option<((i64, i64), (i64, i64))>)
    ensures
        points is Some == wire_points(block@) is Some,
        points matches Some((p, q)) ==> wire_points(block@) == Some(
            ((p.0 as int, p.1 as int), (q.0 as int, q.1 as int)),
        ),
{
    let mark = to_chars("(xy ");
    proof {
        reveal_strlit("(xy ");
    }
    match find_from(block, mark.as_slice(), 0) {
        None => None,
        Some(a) => match find_from(block, mark.as_slice(), a + 4) {
            None => None,
            Some(b) => {
                let end: usize = match find_from(block, mark.as_slice(), b + 4) {
                    Some(c) => c,
                    None => block.len(),
                };
                let p = read_point(slice_subrange(block, a + 4, b), 0);
                let q = read_point(slice_subrange(block, b + 4, end), 0);
                match (p, q) {
                    (Some(x), Some(y)) => Some((x, y)),
                    _ => None,
                }
            },
        },
    }
}

/// A wire: where it stands in the text, and the cells of its two ends.
pub struct Wire {
    pub span: Span,
    pub a: (i64, i64),
    pub b: (i64, i64),
}

/// A wire in numbers.
pub struct WireModel {
    pub span: (int, int),
    pub a: (int, int),
    pub b: (int, int),
}

pub open spec fn wire_model(w: Wire) -> WireModel {
    WireModel {
        span: pair(w.span),
        a: (w.a.0 as int, w.a.1 as int),
        b: (w.b.0 as int, w.b.1 as int),
    }
}

pub open spec fn wire_models(wires: Seq<Wire>) -> Seq<WireModel> {
    wires.map_values(|w: Wire| wire_model(w))
}

/// The wires among the given blocks: those that give two points.
pub open spec fn wires_among(text: Seq<char>, blocks: Seq<(int, int)>) -> Seq<WireModel>
    decreases blocks.len(),
{
    if blocks.len() == 0 {
        Seq::empty()
    } else {
        let known = wires_among(text, blocks.drop_last());
        let block = blocks.last();
        match wire_points(text.subrange(block.0, block.1)) {
            Some((p, q)) => known.push(
                WireModel { span: block, a: point_cell(p), b: point_cell(q) },
            ),
            None => known,
        }
    }
}

/// The wires of a schematic.
pub open spec fn wires(text: Seq<char>) -> Seq<WireModel> {
    wires_among(text, top_level(text, "(wire"@, 0))
}

fn read_wires(text: &[char]) -> (out: Vec<Wire>)
    ensures
        wire_models(out@) == wires(text@),
{
    proof {
        reveal_strlit("(wire");
    }
    let blocks = top_level_blocks(text, "(wire");
    let mut out: Vec<Wire> = Vec::new();
    let mut i: usize = 0;
    proof {
        assert(pairs(blocks@).take(0).len() == 0);
        assert(wire_models(out@) =~= Seq::<WireModel>::empty());
    }
    while i < blocks.len()
        invariant
            i <= blocks.len(),
            forall|j: int|
                0 <= j < blocks@.len() ==> (#[trigger] blocks@[j]).start < blocks@[j].end
                    <= text@.len(),
            wire_models(out@) == wires_among(text@, pairs(blocks@).take(i as int)),
        decreases blocks.len() - i,
    {
        let block: Span = blocks[i];
        proof {
            let next = pairs(blocks@).take(i + 1);
            assert(next.drop_last() =~= pairs(blocks@).take(i as int));
            assert(next.last() == pair(block));
        }
        match read_wire_points(slice_subrange(text, block.start, block.end)) {
            Some((p, q)) => {
                let ghost done = out@;
                let wire = Wire { span: block, a: point_cell_of(p), b: point_cell_of(q) };
                out.push(wire);
                proof {
                    assert(wire_models(out@) =~= wire_models(done).push(wire_model(wire)));
                }
            },
            None => {},
        }
        i += 1;
    }
    proof {
        assert(pairs(blocks@).take(blocks@.len() as int) =~= pairs(blocks@));
    }
    out
}

/// What a mark that holds a wire end is introduced by: a label, a global label, a
/// no-connect flag or a junction.
pub open spec fn is_mark_word(word: Seq<char>) -> bool {
    ||| word == "(label"@
    ||| word == "(global_label"@
    ||| word == "(no_connect"@
    ||| word == "(junction"@
}

/// The point that the first `(at ` from `start` on gives; none if the word
/// that stands there goes on.
pub open spec fn mark_point(text: Seq<char>, word: Seq<char>, start: int) -> Option<(int, int)> {
    if !word_ends(text, start + word.len()) {
        None
    } else {
        match find(text, "(at "@, start) {
            None => None,
            Some(at) => loose_point(text, at + 4),
        }
    }
}

/// Whether a mark that opens with `word` before position `upto` stands on cell `k`.
pub open spec fn marked_by(text: Seq<char>, word: Seq<char>, upto: int, k: (int, int)) -> bool {
    exists|start: int|
        0 <= start < upto && #[trigger] matches_at(text, word, start) && mark_point(text, word, start)
            is Some && point_cell(mark_point(text, word, start)->0) == k
}

/// Whether a mark stands on cell `k`.
pub open spec fn marked(text: Seq<char>, k: (int, int)) -> bool {
    exists|word: Seq<char>| #[trigger]
        is_mark_word(word) && marked_by(text, word, text.len() as int, k)
}

/// The cells of a list.
pub open spec fn cells(list: Seq<(i64, i64)>) -> Seq<(int, int)> {
    list.map_values(|k: (i64, i64)| (k.0 as int, k.1 as int))
}

proof fn lemma_cells_push(list: Seq<(i64, i64)>, k: (i64, i64))
    ensures
        forall|c: (int, int)| #[trigger]
            cells(list.push(k)).contains(c) <==> cells(list).contains(c) || c == (
                k.0 as int,
                k.1 as int,
            ),
{
    assert(cells(list.push(k)) =~= cells(list).push((k.0 as int, k.1 as int)));
    assert forall|c: (int, int)| #[trigger]
        cells(list.push(k)).contains(c) <==> cells(list).contains(c) || c == (
            k.0 as int,
            k.1 as int,
        ) by {
        let all = cells(list.push(k));
        if cells(list).contains(c) {
            let i = choose|i: int| 0 <= i < cells(list).len() && cells(list)[i] == c;
            assert(all[i] == c);
        }
        if c == (k.0 as int, k.1 as int) {
            assert(all[list.len() as int] == c);
        }
        if all.contains(c) {
            let i = choose|i: int| 0 <= i < all.len() && all[i] == c;
            if i < list.len() {
                assert(cells(list)[i] == c);
            }
        }
    }
}

/// Adds the cell of every mark that opens with `word`.
fn add_marks(text: &[char], word: &str, out: &mut Vec<(i64, i64)>)
    requires
        word@.len() > 0,
    ensures
        forall|k: (int, int)| #[trigger]
            cells(final(out)@).contains(k) <==> cells(old(out)@).contains(k) || marked_by(
                text@,
                word@,
                text@.len() as int,
                k,
            ),
{
    let wanted = to_chars(word);
    let at_mark = to_chars("(at ");
    proof {
        reveal_strlit("(at ");
    }
    let size: usize = text.len();
    let mut from: usize = 0;
    loop
        invariant_except_break
            from <= text.len(),
            size == text@.len(),
            wanted@ == word@,
            word@.len() > 0,
            at_mark@ == "(at "@,
            at_mark@.len() == 4,
            forall|k: (int, int)| #[trigger]
                cells(out@).contains(k) <==> cells(old(out)@).contains(k) || marked_by(
                    text@,
                    word@,
                    from as int,
                    k,
                ),
        ensures
            forall|k: (int, int)| #[trigger]
                cells(out@).contains(k) <==> cells(old(out)@).contains(k) || marked_by(
                    text@,
                    word@,
                    text@.len() as int,
                    k,
                ),
        decreases text.len() - from,
    {
        proof {
            lemma_find_is_first(text@, word@, from as int);
        }
        match find_from(text, wanted.as_slice(), from) {
            None => {
                proof {
                    assert forall|k: (int, int)| marked_by(
                        text@,
                        word@,
                        text@.len() as int,
                        k,
                    ) implies marked_by(text@, word@, from as int, k) by {
                        let s = choose|s: int|
                            0 <= s < text@.len() && #[trigger] matches_at(text@, word@, s)
                                && mark_point(text@, word@, s) is Some && point_cell(
                                mark_point(text@, word@, s)->0,
                            ) == k;
                        assert(matches_at(text@, word@, s));
                    }
                    assert forall|k: (int, int)| marked_by(
                        text@,
                        word@,
                        from as int,
                        k,
                    ) implies marked_by(text@, word@, text@.len() as int, k) by {
                        let s = choose|s: int|
                            0 <= s < from && #[trigger] matches_at(text@, word@, s) && mark_point(text@, word@, s) is Some && point_cell(mark_point(text@, word@, s)->0) == k;
                        assert(matches_at(text@, word@, s));
                    }
                }
                break;
            },
            Some(start) => {
                let past: usize = start + wanted.len();
                let point: Option<(i64, i64)> = if ends_word(text, past) {
                    match find_from(text, at_mark.as_slice(), start) {
                        None => None,
                        Some(at) => read_point(text, at + 4),
                    }
                } else {
                    None
                };
                let ghost before = out@;
                let ghost seen = marked_by(text@, word@, from as int, (0, 0));
                proof {
                    assert(point is Some == mark_point(text@, word@, start as int) is Some);
                    assert forall|k: (int, int)| #[trigger]
                        marked_by(text@, word@, start + 1, k) <==> marked_by(
                            text@,
                            word@,
                            from as int,
                            k,
                        ) || (mark_point(text@, word@, start as int) is Some && point_cell(
                            mark_point(text@, word@, start as int)->0,
                        ) == k) by {
                        if marked_by(text@, word@, start + 1, k) {
                            let s = choose|s: int|
                                0 <= s < start + 1 && #[trigger] matches_at(text@, word@, s)
                                    && mark_point(text@, word@, s) is Some && point_cell(
                                    mark_point(text@, word@, s)->0,
                                ) == k;
                            if s != start {
                                assert(s < from);
                                assert(matches_at(text@, word@, s));
                            }
                        }
                        if marked_by(text@, word@, from as int, k) {
                            let s = choose|s: int|
                                0 <= s < from && #[trigger] matches_at(text@, word@, s)
                                    && mark_point(text@, word@, s) is Some && point_cell(
                                    mark_point(text@, word@, s)->0,
                                ) == k;
                            assert(matches_at(text@, word@, s));
                        }
                        assert(matches_at(text@, word@, start as int));
                    }
                }
                if let Some(p) = point {
                    let k: (i64, i64) = point_cell_of(p);
                    out.push(k);
                    proof {
                        lemma_cells_push(before, k);
                    }
                }
                from = start + 1;
            },
        }
    }
}

fn has_cell(list: &Vec<(i64, i64)>, k: (i64, i64)) -> (yes: bool)
    ensures
        yes == cells(list@).contains((k.0 as int, k.1 as int)),
{
    let ghost want = (k.0 as int, k.1 as int);
    let mut i: usize = 0;
    while i < list.len()
        invariant
            i <= list.len(),
            want == (k.0 as int, k.1 as int),
            forall|j: int| 0 <= j < i ==> #[trigger] cells(list@)[j] != want,
        decreases list.len() - i,
    {
        if list[i].0 == k.0 && list[i].1 == k.1 {
            proof {
                assert(cells(list@)[i as int] == want);
            }
            return true;
        }
        i += 1;
    }
    false
}

/// How many wire ends stand on cell `k`.
pub open spec fn ends_at(list: Seq<WireModel>, k: (int, int)) -> nat
    decreases list.len(),
{
    if list.len() == 0 {
        0
    } else {
        ends_at(list.drop_last(), k) + (if list.last().a == k {
            1nat
        } else {
            0nat
        }) + (if list.last().b == k {
            1nat
        } else {
            0nat
        })
    }
}

/// Whether more than one wire end stands on cell `k`.
fn is_shared(list: &Vec<Wire>, k: (i64, i64)) -> (yes: bool)
    ensures
        yes == (ends_at(wire_models(list@), (k.0 as int, k.1 as int)) > 1),
{
    let ghost want = (k.0 as int, k.1 as int);
    let ghost all = wire_models(list@);
    let mut n: usize = 0;
    let mut i: usize = 0;
    proof {
        assert(all.take(0).len() == 0);
    }
    while i < list.len()
        invariant
            i <= list.len(),
            want == (k.0 as int, k.1 as int),
            all == wire_models(list@),
            n <= 1,
            n == ends_at(all.take(i as int), want),
        decreases list.len() - i,
    {
        proof {
            assert(all.take(i + 1).drop_last() =~= all.take(i as int));
            assert(all.take(i + 1).last() == wire_model(list@[i as int]));
        }
        if list[i].a.0 == k.0 && list[i].a.1 == k.1 {
            n += 1;
        }
        if list[i].b.0 == k.0 && list[i].b.1 == k.1 {
            n += 1;
        }
        if n > 1 {
            proof {
                lemma_ends_grow(all, want, i + 1, all.len() as int);
                assert(all.take(all.len() as int) =~= all);
            }
            return true;
        }
        i += 1;
    }
    proof {
        assert(all.take(all.len() as int) =~= all);
    }
    false
}

proof fn lemma_ends_grow(list: Seq<WireModel>, k: (int, int), a: int, b: int)
    requires
        0 <= a <= b <= list.len(),
    ensures
        ends_at(list.take(a), k) <= ends_at(list.take(b), k),
    decreases b - a,
{
    if a < b {
        lemma_ends_grow(list, k, a, b - 1);
        assert(list.take(b).drop_last() =~= list.take(b - 1));
    }
}

/// Whether something holds a wire end on cell `k`: a pin, a mark, or the end of
/// another wire.
pub open spec fn is_held(text: Seq<char>, pins: Seq<(int, int)>, k: (int, int)) -> bool {
    pins.contains(k) || marked(text, k) || ends_at(wires(text), k) > 1
}

/// Where the wires among `list` stand that have an end nothing holds.
pub open spec fn dangling_among(
    text: Seq<char>,
    pins: Seq<(int, int)>,
    list: Seq<WireModel>,
) -> Seq<(int, int)>
    decreases list.len(),
{
    if list.len() == 0 {
        Seq::empty()
    } else {
        let rest = dangling_among(text, pins, list.drop_last());
        let w = list.last();
        if is_held(text, pins, w.a) && is_held(text, pins, w.b) {
            rest
        } else {
            rest.push(w.span)
        }
    }
}

/// Where the wires of a schematic stand that have an end nothing holds.
pub open spec fn dangling(text: Seq<char>, pins: Seq<(int, int)>) -> Seq<(int, int)> {
    dangling_among(text, pins, wires(text))
}

/// Which of the blocks the wire in place `i` is.
spec fn wire_place(text: Seq<char>, blocks: Seq<(int, int)>, i: int) -> int
    decreases blocks.len(),
{
    if blocks.len() == 0 {
        0
    } else if i < wires_among(text, blocks.drop_last()).len() {
        wire_place(text, blocks.drop_last(), i)
    } else {
        blocks.len() - 1
    }
}

proof fn lemma_wire_place(text: Seq<char>, blocks: Seq<(int, int)>, i: int)
    requires
        0 <= i < wires_among(text, blocks).len(),
    ensures
        0 <= wire_place(text, blocks, i) < blocks.len(),
        wires_among(text, blocks)[i].span == blocks[wire_place(text, blocks, i)],
    decreases blocks.len(),
{
    let front = blocks.drop_last();
    if i < wires_among(text, front).len() {
        lemma_wire_place(text, front, i);
    }
}

proof fn lemma_wire_places_ascend(text: Seq<char>, blocks: Seq<(int, int)>, i: int, j: int)
    requires
        0 <= i < j < wires_among(text, blocks).len(),
    ensures
        wire_place(text, blocks, i) < wire_place(text, blocks, j),
    decreases blocks.len(),
{
    let front = blocks.drop_last();
    if j < wires_among(text, front).len() {
        lemma_wire_places_ascend(text, front, i, j);
    } else {
        lemma_wire_place(text, front, i);
    }
}

/// Where wires stand: apart from one another, each holding something.
proof fn lemma_wire_spans(text: Seq<char>)
    ensures
        ({
            let list = wires(text);
            &&& forall|i: int|
                0 <= i < list.len() ==> 0 <= (#[trigger] list[i]).span.0 < list[i].span.1
                    <= text.len()
            &&& forall|i: int, j: int|
                0 <= i < j < list.len() ==> (#[trigger] list[i]).span.0 < (
                #[trigger] list[j]).span.0
        }),
{
    reveal_strlit("(wire");
    let blocks = top_level(text, "(wire"@, 0);
    lemma_top_level_blocks(text, "(wire"@, 0);
    let list = wires(text);
    assert forall|i: int| 0 <= i < list.len() implies 0 <= (#[trigger] list[i]).span.0
        < list[i].span.1 <= text.len() by {
        lemma_wire_place(text, blocks, i);
        let j = wire_place(text, blocks, i);
        assert(blocks[j].0 < blocks[j].1);
    }
    assert forall|i: int, j: int| 0 <= i < j < list.len() implies (#[trigger] list[i]).span.0 < (
    #[trigger] list[j]).span.0 by {
        lemma_wire_place(text, blocks, i);
        lemma_wire_place(text, blocks, j);
        lemma_wire_places_ascend(text, blocks, i, j);
        let a = wire_place(text, blocks, i);
        let b = wire_place(text, blocks, j);
        assert(blocks[a].1 <= blocks[b].0);
        assert(blocks[a].0 < blocks[a].1);
    }
}

proof fn lemma_dangling_proper(text: Seq<char>, pins: Seq<(int, int)>, n: int)
    requires
        0 <= n <= wires(text).len(),
    ensures
        proper(dangling_among(text, pins, wires(text).take(n)), text.len() as int),
        dangling_among(text, pins, wires(text).take(n)).len() <= n,
        forall|i: int|
            0 <= i < dangling_among(text, pins, wires(text).take(n)).len() ==> exists|m: int|
                0 <= m < n && (#[trigger] dangling_among(text, pins, wires(text).take(n))[i])
                    == wires(text)[m].span,
    decreases n,
{
    let list = wires(text);
    if n > 0 {
        lemma_dangling_proper(text, pins, n - 1);
        assert(list.take(n).drop_last() =~= list.take(n - 1));
        lemma_wire_spans(text);
        let rest = dangling_among(text, pins, list.take(n - 1));
        let out = dangling_among(text, pins, list.take(n));
        let w = list[n - 1];
        assert(list.take(n).last() == w);
        assert forall|i: int| 0 <= i < out.len() implies exists|m: int|
            0 <= m < n && (#[trigger] out[i]) == list[m].span by {
            if i < rest.len() {
                assert(out[i] == rest[i]);
                let m = choose|m: int| 0 <= m < n - 1 && rest[i] == list[m].span;
                assert(out[i] == list[m].span);
            } else {
                assert(out[i] == list[n - 1].span);
            }
        }
        assert forall|i: int| 0 <= i < rest.len() implies (#[trigger] rest[i]).0 != w.span.0 by {
            let m = choose|m: int| 0 <= m < n - 1 && rest[i] == list[m].span;
            assert(list[m].span.0 < list[n - 1].span.0);
        }
        assert forall|i: int, j: int| 0 <= i < j < out.len() implies (#[trigger] out[i]).0 != (
        #[trigger] out[j]).0 by {
            if j < rest.len() {
                assert(out[i] == rest[i]);
                assert(out[j] == rest[j]);
            } else {
                assert(out[i] == rest[i]);
            }
        }
        assert forall|i: int| 0 <= i < out.len() implies 0 <= (#[trigger] out[i]).0 < out[i].1
            <= text.len() by {
            let m = choose|m: int| 0 <= m < n && out[i] == list[m].span;
            assert(list[m].span.0 < list[m].span.1);
        }
    }
}

/// The cells of points in nanometres.
pub open spec fn point_cells(points: Seq<(i64, i64)>) -> Seq<(int, int)> {
    points.map_values(|p: (i64, i64)| point_cell((p.0 as int, p.1 as int)))
}

/// Removes every wire that has an end which touches no pin, label, junction,
/// no-connect flag or end of another wire. `pins` holds where the pins of the
/// placed symbols are, in nanometres. Gives the schematic that is left and how
/// many wires went.
pub fn remove_dangling_wires(content: &str, pins: &Vec<(i64, i64)>) -> (out: (String, usize))
    ensures
        out.0@ == without(content@, dangling(content@, point_cells(pins@))),
        out.1 == dangling(content@, point_cells(pins@)).len(),
{
    let text = to_chars(content);
    let list = read_wires(text.as_slice());
    let ghost held = point_cells(pins@);
    let mut anchors: Vec<(i64, i64)> = Vec::new();
    let mut p: usize = 0;
    proof {
        assert(cells(anchors@) =~= held.take(0));
    }
    while p < pins.len()
        invariant
            p <= pins.len(),
            held == point_cells(pins@),
            cells(anchors@) == held.take(p as int),
        decreases pins.len() - p,
    {
        let k: (i64, i64) = point_cell_of(pins[p]);
        let ghost done = anchors@;
        anchors.push(k);
        proof {
            assert(cells(anchors@) =~= cells(done).push((k.0 as int, k.1 as int)));
            assert(held.take(p + 1) =~= held.take(p as int).push(held[p as int]));
        }
        p += 1;
    }
    proof {
        assert(held.take(held.len() as int) =~= held);
        reveal_strlit("(label");
        reveal_strlit("(global_label");
        reveal_strlit("(no_connect");
        reveal_strlit("(junction");
    }
    add_marks(text.as_slice(), "(label", &mut anchors);
    add_marks(text.as_slice(), "(global_label", &mut anchors);
    add_marks(text.as_slice(), "(no_connect", &mut anchors);
    add_marks(text.as_slice(), "(junction", &mut anchors);
    proof {
        assert forall|k: (int, int)| #[trigger]
            cells(anchors@).contains(k) <==> held.contains(k) || marked(text@, k) by {
            if marked(text@, k) {
                let word = choose|word: Seq<char>| #[trigger]
                    is_mark_word(word) && marked_by(text@, word, text@.len() as int, k);
                assert(marked_by(text@, word, text@.len() as int, k));
            }
            assert(is_mark_word("(label"@));
            assert(is_mark_word("(global_label"@));
            assert(is_mark_word("(no_connect"@));
            assert(is_mark_word("(junction"@));
        }
    }
    let mut runs: Vec<Span> = Vec::new();
    let mut i: usize = 0;
    let ghost all = wire_models(list@);
    proof {
        assert(all.take(0).len() == 0);
        assert(pairs(runs@) =~= Seq::<(int, int)>::empty());
    }
    while i < list.len()
        invariant
            i <= list.len(),
            all == wire_models(list@),
            all == wires(text@),
            forall|k: (int, int)| #[trigger]
                cells(anchors@).contains(k) <==> held.contains(k) || marked(text@, k),
            pairs(runs@) == dangling_among(text@, held, all.take(i as int)),
        decreases list.len() - i,
    {
        proof {
            assert(all.take(i + 1).drop_last() =~= all.take(i as int));
            assert(all.take(i + 1).last() == wire_model(list@[i as int]));
        }
        let a_held: bool = has_cell(&anchors, list[i].a) || is_shared(&list, list[i].a);
        let b_held: bool = has_cell(&anchors, list[i].b) || is_shared(&list, list[i].b);
        if !(a_held && b_held) {
            let ghost done = runs@;
            let span: Span = list[i].span;
            runs.push(span);
            proof {
                assert(pairs(runs@) =~= pairs(done).push(pair(span)));
            }
        }
        i += 1;
    }
    proof {
        assert(all.take(all.len() as int) =~= all);
        lemma_dangling_proper(text@, held, all.len() as int);
        lemma_proper_cuts_fit(text@, pairs(runs@));
        assert(pairs(runs@).len() == runs@.len());
    }
    let kept = cut_runs(text.as_slice(), &runs);
    (to_text(kept.as_slice()), runs.len())
}

} // verus!
