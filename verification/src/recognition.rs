//! What the items of a board file are read as: the traces, vias, pads and edges that they
//! write down. The file counts down, the model up.

use crate::pcb::{CopperLayer, PadShape, Point2, Trace};
use crate::placing::lemma_quarter_turns;
use crate::readback::{lemma_number_read_back, lemma_plain_characters};
use crate::reading::{
    drill_of, is_on, length_named, lines_of, net_of, pad_of, pads_of_parts, point_of, text_at, trace_of,
    traces_on, via_of, vias_in, FootprintModel, PadModel, ViaModel,
};
use crate::tree::{atom_item, child, field, headed_from, is_headed, Tree};
use crate::units::plain;
use vstd::prelude::*;

verus! {

/// A length as a file writes it, in millimetres.
pub open spec fn length(n: i64) -> Tree {
    Tree::Atom(plain(n as int))
}

/// A list of a name and a length.
pub open spec fn named_length(name: Seq<char>, n: i64) -> Tree {
    Tree::List(seq![Tree::Atom(name), length(n)])
}

/// A list of a name and two lengths.
pub open spec fn named_point(name: Seq<char>, x: i64, y: i64) -> Tree {
    Tree::List(seq![Tree::Atom(name), length(x), length(y)])
}

/// A list of a name and a word.
pub open spec fn named_word(name: Seq<char>, word: Seq<char>) -> Tree {
    Tree::List(seq![Tree::Atom(name), Tree::Atom(word)])
}

proof fn lemma_first_headed(items: Seq<Tree>, name: Seq<char>, from: int, k: int)
    requires
        0 <= from <= k < items.len(),
        is_headed(items[k], name),
        forall|j: int| from <= j < k ==> !is_headed(#[trigger] items[j], name),
    ensures
        headed_from(items, name, from) == Some(items[k]),
    decreases k - from,
{
    if from < k {
        lemma_first_headed(items, name, from + 1, k);
    }
}

/// The words that items open with, which are all different.
proof fn lemma_words()
    ensures
        "start"@ != "end"@,
        "start"@ != "width"@,
        "start"@ != "layer"@,
        "end"@ != "width"@,
        "end"@ != "layer"@,
        "width"@ != "layer"@,
        "at"@ != "size"@,
        "at"@ != "drill"@,
        "at"@ != "net"@,
        "at"@ != "layers"@,
        "size"@ != "drill"@,
        "size"@ != "net"@,
        "size"@ != "layers"@,
        "drill"@ != "net"@,
        "drill"@ != "layers"@,
        "net"@ != "layers"@,
        "F.Cu"@ != "B.Cu"@,
        "mid"@ != "start"@,
        "mid"@ != "end"@,
        "mid"@ != "width"@,
        "mid"@ != "layer"@,
{
    reveal_strlit("start");
    reveal_strlit("end");
    reveal_strlit("mid");
    reveal_strlit("width");
    reveal_strlit("layer");
    reveal_strlit("layers");
    reveal_strlit("at");
    reveal_strlit("size");
    reveal_strlit("drill");
    reveal_strlit("net");
    reveal_strlit("F.Cu");
    reveal_strlit("B.Cu");
    assert("at"@.len() == 2 && "size"@.len() == 4 && "drill"@.len() == 5 && "net"@.len() == 3);
    assert("layers"@.len() == 6 && "start"@.len() == 5 && "end"@.len() == 3 && "mid"@.len() == 3);
    assert("start"@[0] == 's' && "width"@[0] == 'w' && "layer"@[0] == 'l');
    assert("mid"@[0] == 'm' && "end"@[0] == 'e' && "net"@[0] == 'n');
    assert("F.Cu"@[0] == 'F' && "B.Cu"@[0] == 'B');
}

/// A segment is read as the trace that it writes down: on its layer, between its ends and
/// as wide as it says. One on any other layer is no trace of the model.
pub proof fn lemma_segment_is_its_trace(
    x1: i64,
    y1: i64,
    x2: i64,
    y2: i64,
    w: i64,
    layer: Seq<char>,
    rest: Seq<Tree>,
)
    requires
        y1 > i64::MIN,
        y2 > i64::MIN,
    ensures
        ({
            let node = Tree::List(
                seq![
                    Tree::Atom("segment"@),
                    named_point("start"@, x1, y1),
                    named_point("end"@, x2, y2),
                    named_length("width"@, w),
                    named_word("layer"@, layer),
                ] + rest,
            );
            let read = |on: CopperLayer|
                Some(
                    Trace {
                        layer: on,
                        start: Point2 { x: x1, y: (-y1) as i64 },
                        end: Point2 { x: x2, y: (-y2) as i64 },
                        width: w,
                    },
                );
            trace_of(node) == (if layer == "F.Cu"@ {
                read(CopperLayer::FCu)
            } else if layer == "B.Cu"@ {
                read(CopperLayer::BCu)
            } else {
                None
            })
        }),
{
    reveal_with_fuel(headed_from, 7);
    lemma_words();
    lemma_number_read_back(x1 as int);
    lemma_number_read_back(y1 as int);
    lemma_number_read_back(x2 as int);
    lemma_number_read_back(y2 as int);
    lemma_number_read_back(w as int);
    let items = seq![
        Tree::Atom("segment"@),
        named_point("start"@, x1, y1),
        named_point("end"@, x2, y2),
        named_length("width"@, w),
        named_word("layer"@, layer),
    ] + rest;
    assert(items[0] == Tree::Atom("segment"@));
    assert(items[1] == named_point("start"@, x1, y1));
    assert(items[2] == named_point("end"@, x2, y2));
    assert(items[3] == named_length("width"@, w));
    assert(items[4] == named_word("layer"@, layer));
    assert(headed_from(items, "start"@, 0) == Some(items[1]));
    assert(headed_from(items, "end"@, 0) == Some(items[2]));
    assert(headed_from(items, "width"@, 0) == Some(items[3]));
    assert(headed_from(items, "layer"@, 0) == Some(items[4]));
}

/// Every trace of a board is told on the layer that it is on and on no other, and nothing
/// else is told.
pub proof fn lemma_traces_are_told_on_their_layer(list: Seq<Tree>, layer: CopperLayer, t: Trace)
    ensures
        traces_on(list, layer).contains(t) == (t.layer == layer && exists|i: int|
            0 <= i < list.len() && trace_of(#[trigger] list[i]) == Some(t)),
    decreases list.len(),
{
    if list.len() > 0 {
        let front = list.drop_last();
        lemma_traces_are_told_on_their_layer(front, layer, t);
        let before = traces_on(front, layer);
        let now = traces_on(list, layer);
        if now.contains(t) {
            let j = choose|j: int| 0 <= j < now.len() && now[j] == t;
            if j < before.len() {
                assert(before[j] == t);
                let i = choose|i: int| 0 <= i < front.len() && trace_of(#[trigger] front[i]) == Some(t);
                assert(list[i] == front[i]);
            } else {
                assert(trace_of(list[list.len() - 1]) == Some(t));
            }
        }
        if t.layer == layer && exists|i: int|
            0 <= i < list.len() && trace_of(#[trigger] list[i]) == Some(t) {
            let i = choose|i: int| 0 <= i < list.len() && trace_of(#[trigger] list[i]) == Some(t);
            if i < front.len() {
                assert(front[i] == list[i]);
                assert(before.contains(t));
                let j = choose|j: int| 0 <= j < before.len() && before[j] == t;
                assert(now[j] == t);
            } else {
                assert(now[now.len() - 1] == t);
            }
        }
    }
}

/// A via is read as the hole that it writes down: where it is, how large, and on which
/// net.
pub proof fn lemma_via_is_its_hole(
    x: i64,
    y: i64,
    size: i64,
    drill: i64,
    code: Seq<char>,
    net: Seq<char>,
    rest: Seq<Tree>,
)
    requires
        y > i64::MIN,
    ensures
        via_of(
            Tree::List(
                seq![
                    Tree::Atom("via"@),
                    named_point("at"@, x, y),
                    named_length("size"@, size),
                    named_length("drill"@, drill),
                    Tree::List(seq![Tree::Atom("net"@), Tree::Atom(code), Tree::Atom(net)]),
                ] + rest,
            ),
        ) == Some(
            ViaModel {
                center: Point2 { x, y: (-y) as i64 },
                drill: drill as int,
                net_name: Some(net),
            },
        ),
{
    reveal_with_fuel(headed_from, 7);
    lemma_words();
    lemma_number_read_back(x as int);
    lemma_number_read_back(y as int);
    lemma_number_read_back(drill as int);
    let items = seq![
        Tree::Atom("via"@),
        named_point("at"@, x, y),
        named_length("size"@, size),
        named_length("drill"@, drill),
        Tree::List(seq![Tree::Atom("net"@), Tree::Atom(code), Tree::Atom(net)]),
    ] + rest;
    assert(items[0] == Tree::Atom("via"@));
    assert(items[1] == named_point("at"@, x, y));
    assert(items[2] == named_length("size"@, size));
    assert(items[3] == named_length("drill"@, drill));
    assert(items[4] == Tree::List(seq![Tree::Atom("net"@), Tree::Atom(code), Tree::Atom(net)]));
    assert(headed_from(items, "at"@, 0) == Some(items[1]));
    assert(headed_from(items, "drill"@, 0) == Some(items[3]));
    assert(headed_from(items, "net"@, 0) == Some(items[4]));
}

/// Every via of a board is told, and nothing else.
pub proof fn lemma_vias_are_told(list: Seq<Tree>, v: ViaModel)
    ensures
        vias_in(list).contains(v) == exists|i: int|
            0 <= i < list.len() && via_of(#[trigger] list[i]) == Some(v),
    decreases list.len(),
{
    if list.len() > 0 {
        let front = list.drop_last();
        lemma_vias_are_told(front, v);
        let before = vias_in(front);
        let now = vias_in(list);
        if now.contains(v) {
            let j = choose|j: int| 0 <= j < now.len() && now[j] == v;
            if j < before.len() {
                assert(before[j] == v);
                let i = choose|i: int| 0 <= i < front.len() && via_of(#[trigger] front[i]) == Some(v);
                assert(list[i] == front[i]);
            } else {
                assert(via_of(list[list.len() - 1]) == Some(v));
            }
        }
        if exists|i: int| 0 <= i < list.len() && via_of(#[trigger] list[i]) == Some(v) {
            let i = choose|i: int| 0 <= i < list.len() && via_of(#[trigger] list[i]) == Some(v);
            if i < front.len() {
                assert(front[i] == list[i]);
                assert(before.contains(v));
                let j = choose|j: int| 0 <= j < before.len() && before[j] == v;
                assert(now[j] == v);
            } else {
                assert(now[now.len() - 1] == v);
            }
        }
    }
}

/// The shape that a word names; a word that names none is a rectangle.
pub open spec fn shape_of(word: Seq<char>, shape: PadShape) -> bool {
    &&& shape is Circle <==> word == "circle"@
    &&& shape is Oval <==> word == "oval"@
    &&& shape is RoundRect <==> word == "roundrect"@
    &&& shape is Rect <==> word != "circle"@ && word != "oval"@ && word != "roundrect"@
}

/// A pad of a part is read as what it writes down: its number, shape, size and hole, and
/// the layers it is on. It stands by the part as the part is turned: by quarter turns
/// against the clock, its offset `(x, y)` is taken along `(x, y)`, `(y, -x)`, `(-x, -y)`
/// and `(-y, x)`, as the file counts.
pub proof fn lemma_pad_is_what_it_says(
    number: Seq<char>,
    kind: Seq<char>,
    shape: Seq<char>,
    x: i64,
    y: i64,
    w: i64,
    h: i64,
    drill: i64,
    layer: Seq<char>,
    code: Seq<char>,
    net: Seq<char>,
    at: (int, int, int),
    quarter: int,
    rest: Seq<Tree>,
)
    requires
        -0x2000_0000_0000_0000 <= x <= 0x2000_0000_0000_0000,
        -0x2000_0000_0000_0000 <= y <= 0x2000_0000_0000_0000,
        -0x2000_0000_0000_0000 <= at.0 <= 0x2000_0000_0000_0000,
        -0x2000_0000_0000_0000 <= at.1 <= 0x2000_0000_0000_0000,
        0 <= quarter < 4,
    ensures
        ({
            let node = Tree::List(
                seq![
                    Tree::Atom("pad"@),
                    Tree::Atom(number),
                    Tree::Atom(kind),
                    Tree::Atom(shape),
                    named_point("at"@, x, y),
                    named_point("size"@, w, h),
                    named_length("drill"@, drill),
                    named_word("layers"@, layer),
                    Tree::List(seq![Tree::Atom("net"@), Tree::Atom(code), Tree::Atom(net)]),
                ] + rest,
            );
            let turn: (int, int) = if quarter == 0 {
                (1_000_000_000, 0)
            } else if quarter == 1 {
                (0, 1_000_000_000)
            } else if quarter == 2 {
                (-1_000_000_000, 0)
            } else {
                (0, -1_000_000_000)
            };
            let by_: (int, int) = if quarter == 0 {
                (x as int, y as int)
            } else if quarter == 1 {
                (y as int, -x)
            } else if quarter == 2 {
                (-x, -y)
            } else {
                (-y, x as int)
            };
            let both = layer == "*.Cu"@ || layer == "F&B.Cu"@;
            let pad = pad_of(node, at, turn);
            &&& pad is Some
            &&& pad->0.number == number
            &&& shape_of(shape, pad->0.shape)
            &&& pad->0.center.x == at.0 + by_.0
            &&& pad->0.center.y == -(at.1 + by_.1)
            &&& pad->0.width == w
            &&& pad->0.height == h
            &&& pad->0.drill == drill
            &&& pad->0.drill_h == drill
            &&& pad->0.on_fcu == (layer == "F.Cu"@ || both)
            &&& pad->0.on_bcu == (layer == "B.Cu"@ || both)
            &&& pad->0.net_name == Some(net)
        }),
{
    lemma_pad_parts(number, kind, shape, x, y, w, h, drill, layer, code, net, rest);
    let node = Tree::List(
        seq![
            Tree::Atom("pad"@),
            Tree::Atom(number),
            Tree::Atom(kind),
            Tree::Atom(shape),
            named_point("at"@, x, y),
            named_point("size"@, w, h),
            named_length("drill"@, drill),
            named_word("layers"@, layer),
            Tree::List(seq![Tree::Atom("net"@), Tree::Atom(code), Tree::Atom(net)]),
        ] + rest,
    );
    lemma_named_lengths(node, "at"@, x, y);
    lemma_named_lengths(node, "size"@, w, h);
    lemma_named_drill(node, drill);
    lemma_named_layer(node, layer);
    lemma_quarter_turns((x as int, y as int));
    reveal_strlit("circle");
    reveal_strlit("oval");
    reveal_strlit("roundrect");
    assert("circle"@.len() == 6 && "oval"@.len() == 4 && "roundrect"@.len() == 9);
    assert(text_at(node, 1) == number);
    assert(text_at(node, 3) == shape);
    assert(net_of(node) == Some(net));
}

proof fn lemma_named_lengths(node: Tree, name: Seq<char>, x: i64, y: i64)
    requires
        child(node, name) == Some(named_point(name, x, y)),
    ensures
        length_named(node, name, 1) == x,
        length_named(node, name, 2) == y,
{
    lemma_number_read_back(x as int);
    lemma_number_read_back(y as int);
    let c = named_point(name, x, y);
    assert(atom_item(c, 1) == Some(plain(x as int)));
    assert(atom_item(c, 2) == Some(plain(y as int)));
}

proof fn lemma_named_drill(node: Tree, drill: i64)
    requires
        child(node, "drill"@) == Some(named_length("drill"@, drill)),
    ensures
        drill_of(node) == (drill as int, drill as int),
{
    lemma_number_read_back(drill as int);
    lemma_plain_is_no_word(drill);
    let c = named_length("drill"@, drill);
    assert(atom_item(c, 1) == Some(plain(drill as int)));
}

proof fn lemma_named_layer(node: Tree, layer: Seq<char>)
    requires
        child(node, "layers"@) == Some(named_word("layers"@, layer)),
    ensures
        is_on(node, "F.Cu"@) == (layer == "F.Cu"@ || layer == "*.Cu"@ || layer == "F&B.Cu"@),
        is_on(node, "B.Cu"@) == (layer == "B.Cu"@ || layer == "*.Cu"@ || layer == "F&B.Cu"@),
{
    let layers = named_word("layers"@, layer);
    assert(atom_item(layers, 1) == Some(layer));
    assert forall|i: int| 1 < i implies (#[trigger] atom_item(layers, i)) is None by {}
}

/// The parts of a pad, by their names.
proof fn lemma_pad_parts(
    number: Seq<char>,
    kind: Seq<char>,
    shape: Seq<char>,
    x: i64,
    y: i64,
    w: i64,
    h: i64,
    drill: i64,
    layer: Seq<char>,
    code: Seq<char>,
    net: Seq<char>,
    rest: Seq<Tree>,
)
    ensures
        ({
            let node = Tree::List(
                seq![
                    Tree::Atom("pad"@),
                    Tree::Atom(number),
                    Tree::Atom(kind),
                    Tree::Atom(shape),
                    named_point("at"@, x, y),
                    named_point("size"@, w, h),
                    named_length("drill"@, drill),
                    named_word("layers"@, layer),
                    Tree::List(seq![Tree::Atom("net"@), Tree::Atom(code), Tree::Atom(net)]),
                ] + rest,
            );
            &&& is_headed(node, "pad"@)
            &&& atom_item(node, 1) == Some(number)
            &&& atom_item(node, 3) == Some(shape)
            &&& child(node, "at"@) == Some(named_point("at"@, x, y))
            &&& child(node, "size"@) == Some(named_point("size"@, w, h))
            &&& child(node, "drill"@) == Some(named_length("drill"@, drill))
            &&& child(node, "layers"@) == Some(named_word("layers"@, layer))
            &&& child(node, "net"@) == Some(
                Tree::List(seq![Tree::Atom("net"@), Tree::Atom(code), Tree::Atom(net)]),
            )
        }),
{
    lemma_words();
    let items = seq![
        Tree::Atom("pad"@),
        Tree::Atom(number),
        Tree::Atom(kind),
        Tree::Atom(shape),
        named_point("at"@, x, y),
        named_point("size"@, w, h),
        named_length("drill"@, drill),
        named_word("layers"@, layer),
        Tree::List(seq![Tree::Atom("net"@), Tree::Atom(code), Tree::Atom(net)]),
    ] + rest;
    assert(items[0] == Tree::Atom("pad"@));
    assert(items[1] == Tree::Atom(number));
    assert(items[2] == Tree::Atom(kind));
    assert(items[3] == Tree::Atom(shape));
    assert(items[4] == named_point("at"@, x, y));
    assert(items[5] == named_point("size"@, w, h));
    assert(items[6] == named_length("drill"@, drill));
    assert(items[7] == named_word("layers"@, layer));
    assert(items[8] == Tree::List(seq![Tree::Atom("net"@), Tree::Atom(code), Tree::Atom(net)]));
    assert(atom_item(items[4], 0) == Some("at"@));
    assert(atom_item(items[5], 0) == Some("size"@));
    assert(atom_item(items[6], 0) == Some("drill"@));
    assert(atom_item(items[7], 0) == Some("layers"@));
    assert(atom_item(items[8], 0) == Some("net"@));
    lemma_first_headed(items, "at"@, 0, 4);
    lemma_first_headed(items, "size"@, 0, 5);
    lemma_first_headed(items, "drill"@, 0, 6);
    lemma_first_headed(items, "layers"@, 0, 7);
    lemma_first_headed(items, "net"@, 0, 8);
}

proof fn lemma_plain_is_no_word(n: i64)
    ensures
        plain(n as int) != "oval"@,
{
    reveal_strlit("oval");
    if plain(n as int) == "oval"@ {
        lemma_plain_characters(n as int);
        assert(plain(n as int)[0] == 'o');
    }
}

/// An edge line is read as its two ends.
pub proof fn lemma_edge_is_its_line(x1: i64, y1: i64, x2: i64, y2: i64, rest: Seq<Tree>)
    requires
        y1 > i64::MIN,
        y2 > i64::MIN,
    ensures
        lines_of(
            Tree::List(
                seq![
                    Tree::Atom("gr_line"@),
                    named_point("start"@, x1, y1),
                    named_point("end"@, x2, y2),
                    named_word("layer"@, "Edge.Cuts"@),
                ] + rest,
            ),
        ) == seq![
            (Point2 { x: x1, y: (-y1) as i64 }, Point2 { x: x2, y: (-y2) as i64 }),
        ],
{
    lemma_words();
    lemma_number_read_back(x1 as int);
    lemma_number_read_back(y1 as int);
    lemma_number_read_back(x2 as int);
    lemma_number_read_back(y2 as int);
    let line = seq![
        Tree::Atom("gr_line"@),
        named_point("start"@, x1, y1),
        named_point("end"@, x2, y2),
        named_word("layer"@, "Edge.Cuts"@),
    ] + rest;
    assert(line[0] == Tree::Atom("gr_line"@));
    assert(line[1] == named_point("start"@, x1, y1));
    assert(line[2] == named_point("end"@, x2, y2));
    assert(line[3] == named_word("layer"@, "Edge.Cuts"@));
    lemma_first_headed(line, "start"@, 0, 1);
    lemma_first_headed(line, "end"@, 0, 2);
    lemma_first_headed(line, "layer"@, 0, 3);
}

/// An edge arc is read as two lines by its middle.
pub proof fn lemma_edge_arc_is_two_lines(
    x1: i64,
    y1: i64,
    x2: i64,
    y2: i64,
    x3: i64,
    y3: i64,
    rest: Seq<Tree>,
)
    requires
        y1 > i64::MIN,
        y2 > i64::MIN,
        y3 > i64::MIN,
    ensures
        ({
            let a = Point2 { x: x1, y: (-y1) as i64 };
            let m = Point2 { x: x2, y: (-y2) as i64 };
            let b = Point2 { x: x3, y: (-y3) as i64 };
            lines_of(
                Tree::List(
                    seq![
                        Tree::Atom("gr_arc"@),
                        named_point("start"@, x1, y1),
                        named_point("mid"@, x2, y2),
                        named_point("end"@, x3, y3),
                        named_word("layer"@, "Edge.Cuts"@),
                    ] + rest,
                ),
            ) == seq![(a, m), (m, b)]
        }),
{
    lemma_words();
    reveal_strlit("gr_line");
    reveal_strlit("gr_arc");
    let arc = seq![
        Tree::Atom("gr_arc"@),
        named_point("start"@, x1, y1),
        named_point("mid"@, x2, y2),
        named_point("end"@, x3, y3),
        named_word("layer"@, "Edge.Cuts"@),
    ] + rest;
    assert(arc[0] == Tree::Atom("gr_arc"@));
    assert(arc[1] == named_point("start"@, x1, y1));
    assert(arc[2] == named_point("mid"@, x2, y2));
    assert(arc[3] == named_point("end"@, x3, y3));
    assert(arc[4] == named_word("layer"@, "Edge.Cuts"@));
    lemma_first_headed(arc, "start"@, 0, 1);
    lemma_first_headed(arc, "mid"@, 0, 2);
    lemma_first_headed(arc, "end"@, 0, 3);
    lemma_first_headed(arc, "layer"@, 0, 4);
    assert("gr_line"@.len() == 7 && "gr_arc"@.len() == 6);
    let node = Tree::List(arc);
    assert(!is_headed(node, "gr_line"@));
    assert(is_headed(node, "gr_arc"@));
    lemma_named_point(node, "start"@, x1, y1);
    lemma_named_point(node, "mid"@, x2, y2);
    lemma_named_point(node, "end"@, x3, y3);
    assert(field(node, "layer"@) == Some("Edge.Cuts"@));
}

proof fn lemma_named_point(node: Tree, name: Seq<char>, x: i64, y: i64)
    requires
        y > i64::MIN,
        child(node, name) == Some(named_point(name, x, y)),
    ensures
        point_of(node, name) == Some(Point2 { x, y: (-y) as i64 }),
{
    lemma_named_lengths(node, name, x, y);
}

/// The pads of a board are those of its parts, all of them and no others.
pub proof fn lemma_pads_are_those_of_parts(parts: Seq<FootprintModel>, p: PadModel)
    ensures
        pads_of_parts(parts).contains(p) == exists|i: int|
            0 <= i < parts.len() && (#[trigger] parts[i]).pads.contains(p),
    decreases parts.len(),
{
    if parts.len() > 0 {
        let front = parts.drop_last();
        lemma_pads_are_those_of_parts(front, p);
        let before = pads_of_parts(front);
        let now = pads_of_parts(parts);
        let last = parts[parts.len() - 1].pads;
        if now.contains(p) {
            let j = choose|j: int| 0 <= j < now.len() && now[j] == p;
            if j < before.len() {
                assert(before[j] == p);
                let i = choose|i: int| 0 <= i < front.len() && (#[trigger] front[i]).pads.contains(p);
                assert(parts[i] == front[i]);
            } else {
                assert(last[j - before.len()] == p);
                assert(parts[parts.len() - 1].pads.contains(p));
            }
        }
        if exists|i: int| 0 <= i < parts.len() && (#[trigger] parts[i]).pads.contains(p) {
            let i = choose|i: int| 0 <= i < parts.len() && (#[trigger] parts[i]).pads.contains(p);
            if i < front.len() {
                assert(front[i] == parts[i]);
                assert(before.contains(p));
                let j = choose|j: int| 0 <= j < before.len() && before[j] == p;
                assert(now[j] == p);
            } else {
                let j = choose|j: int| 0 <= j < last.len() && last[j] == p;
                assert(now[before.len() + j] == p);
            }
        }
    }
}

} // verus!
