//! Reading what a board file holds for a model: traces, vias, pads, outline and
//! openings.
//!
//! The file counts lengths downwards from its top, a model upwards. Turning takes the
//! cosine and the sine of the angle of each footprint, in billionths.

use crate::anchors::{is_turn, places};
use crate::decimal::parse_nanometres;
use crate::distance::{apart2, distance2, in_reach, reachable, root, square_root, FAR};
use crate::pads::length_of;
use crate::pcb::{
    ArcTrace, CopperLayer, CutoutShape, Footprint, Pad, PadShape, PcbData, Point2, Trace, Via,
};
use crate::placing::{turn_and_move, turned};
use crate::rings::{join_lines, joined_lines, openings_of, outline_of, ring_views, tell_apart};
use crate::text::{same_str, to_chars};
use crate::tree::{
    atom_item, child, field, is_headed, item, lemma_trees, nodes, parse_sexp, tree, trees, Sexp,
    Tree,
};
use vstd::prelude::*;

verus! {

/// The length at a place in a list, in nanometres; zero if there is none.
pub open spec fn length_at(node: Tree, i: int) -> int {
    match atom_item(node, i) {
        Some(t) => length_of(t),
        None => 0,
    }
}

fn read_length(node: &Sexp, i: usize) -> (n: i64)
    ensures
        n == length_at(tree(*node), i as int),
{
    match node.atom_at(i) {
        Some(t) => {
            let chars = to_chars(t.as_str());
            match parse_nanometres(chars.as_slice()) {
                Some(n) => n,
                None => 0,
            }
        },
        None => 0,
    }
}

/// A length down, counted up. The lowest number gives the highest.
pub open spec fn up(n: int) -> int {
    if n == i64::MIN {
        i64::MAX as int
    } else {
        -n
    }
}

fn turn_up(n: i64) -> (m: i64)
    ensures
        m == up(n as int),
{
    if n == i64::MIN {
        i64::MAX
    } else {
        -n
    }
}

/// The point that the first list of a name gives.
pub open spec fn point_of(node: Tree, name: Seq<char>) -> Option<Point2> {
    match child(node, name) {
        Some(c) => Some(Point2 { x: length_at(c, 1) as i64, y: up(length_at(c, 2)) as i64 }),
        None => None,
    }
}

fn read_point(node: &Sexp, name: &str) -> (p: Option<Point2>)
    ensures
        p == point_of(tree(*node), name@),
{
    match node.get_child(name) {
        Some(c) => Some(Point2 { x: read_length(c, 1), y: turn_up(read_length(c, 2)) }),
        None => None,
    }
}

/// The outer copper layer that an item is on.
pub open spec fn layer_of(node: Tree) -> Option<CopperLayer> {
    match field(node, "layer"@) {
        Some(t) => if t == "F.Cu"@ {
            Some(CopperLayer::FCu)
        } else if t == "B.Cu"@ {
            Some(CopperLayer::BCu)
        } else {
            None
        },
        None => None,
    }
}

fn read_layer(node: &Sexp) -> (layer: Option<CopperLayer>)
    ensures
        layer == layer_of(tree(*node)),
{
    match node.get_field("layer") {
        Some(t) => {
            if same_str(t.as_str(), "F.Cu") {
                Some(CopperLayer::FCu)
            } else if same_str(t.as_str(), "B.Cu") {
                Some(CopperLayer::BCu)
            } else {
                None
            }
        },
        None => None,
    }
}

/// The length that follows a name.
pub open spec fn length_named(node: Tree, name: Seq<char>, i: int) -> int {
    match child(node, name) {
        Some(c) => length_at(c, i),
        None => 0,
    }
}

fn read_named(node: &Sexp, name: &str, i: usize) -> (n: i64)
    ensures
        n == length_named(tree(*node), name@, i as int),
{
    match node.get_child(name) {
        Some(c) => read_length(c, i),
        None => 0,
    }
}

/// The name of the net of an item, which may follow its number.
pub open spec fn net_of(node: Tree) -> Option<Seq<char>> {
    match child(node, "net"@) {
        Some(c) => match atom_item(c, 2) {
            Some(t) => Some(t),
            None => atom_item(c, 1),
        },
        None => None,
    }
}

/// A text if there is one.
pub open spec fn name_view(name: Option<String>) -> Option<Seq<char>> {
    match name {
        Some(t) => Some(t@),
        None => None,
    }
}

fn read_net(node: &Sexp) -> (net: Option<String>)
    ensures
        name_view(net) == net_of(tree(*node)),
{
    match node.get_child("net") {
        Some(c) => match c.atom_at(2) {
            Some(t) => Some(t.clone()),
            None => match c.atom_at(1) {
                Some(t) => Some(t.clone()),
                None => None,
            },
        },
        None => None,
    }
}

/// The straight trace that an item is.
pub open spec fn trace_of(node: Tree) -> Option<Trace> {
    if !is_headed(node, "segment"@) {
        None
    } else {
        match (layer_of(node), point_of(node, "start"@), point_of(node, "end"@)) {
            (Some(layer), Some(start), Some(end)) => Some(
                Trace { layer, start, end, width: length_named(node, "width"@, 1) as i64 },
            ),
            _ => None,
        }
    }
}

fn read_trace(node: &Sexp) -> (t: Option<Trace>)
    ensures
        t == trace_of(tree(*node)),
{
    if !node.headed("segment") {
        return None;
    }
    match (read_layer(node), read_point(node, "start"), read_point(node, "end")) {
        (Some(layer), Some(start), Some(end)) => Some(
            Trace { layer, start, end, width: read_named(node, "width", 1) },
        ),
        _ => None,
    }
}

/// The straight traces on a layer.
pub open spec fn traces_on(list: Seq<Tree>, layer: CopperLayer) -> Seq<Trace>
    decreases list.len(),
{
    if list.len() == 0 {
        Seq::empty()
    } else {
        let front = traces_on(list.drop_last(), layer);
        match trace_of(list.last()) {
            Some(t) => if t.layer == layer {
                front.push(t)
            } else {
                front
            },
            None => front,
        }
    }
}

fn read_traces(items: &Vec<Sexp>, layer: CopperLayer) -> (out: Vec<Trace>)
    ensures
        out@ == traces_on(trees(items@), layer),
{
    let ghost all = trees(items@);
    let mut out: Vec<Trace> = Vec::new();
    let mut i: usize = 0;
    proof {
        lemma_trees(items@);
        assert(all.take(0).len() == 0);
    }
    while i < items.len()
        invariant
            i <= items@.len(),
            all.len() == items@.len(),
            forall|j: int| 0 <= j < items@.len() ==> #[trigger] all[j] == tree(items@[j]),
            out@ == traces_on(all.take(i as int), layer),
        decreases items@.len() - i,
    {
        proof {
            assert(all.take(i + 1).drop_last() =~= all.take(i as int));
            assert(all.take(i + 1).last() == tree(items@[i as int]));
        }
        if let Some(t) = read_trace(&items[i]) {
            if t.layer == layer {
                out.push(t);
            }
        }
        i += 1;
    }
    proof {
        assert(all.take(all.len() as int) =~= all);
    }
    out
}

/// The trace along an arc that an item is.
pub open spec fn arc_of(node: Tree) -> Option<ArcTrace> {
    if !is_headed(node, "arc"@) {
        None
    } else {
        match (
            layer_of(node),
            point_of(node, "start"@),
            point_of(node, "mid"@),
            point_of(node, "end"@),
        ) {
            (Some(layer), Some(start), Some(mid), Some(end)) => Some(
                ArcTrace { layer, start, mid, end, width: length_named(node, "width"@, 1) as i64 },
            ),
            _ => None,
        }
    }
}

fn read_arc(node: &Sexp) -> (t: Option<ArcTrace>)
    ensures
        t == arc_of(tree(*node)),
{
    if !node.headed("arc") {
        return None;
    }
    match (
        read_layer(node),
        read_point(node, "start"),
        read_point(node, "mid"),
        read_point(node, "end"),
    ) {
        (Some(layer), Some(start), Some(mid), Some(end)) => Some(
            ArcTrace { layer, start, mid, end, width: read_named(node, "width", 1) },
        ),
        _ => None,
    }
}

/// The traces along arcs.
pub open spec fn arcs_in(list: Seq<Tree>) -> Seq<ArcTrace>
    decreases list.len(),
{
    if list.len() == 0 {
        Seq::empty()
    } else {
        let front = arcs_in(list.drop_last());
        match arc_of(list.last()) {
            Some(t) => front.push(t),
            None => front,
        }
    }
}

fn read_arcs(items: &Vec<Sexp>) -> (out: Vec<ArcTrace>)
    ensures
        out@ == arcs_in(trees(items@)),
{
    let ghost all = trees(items@);
    let mut out: Vec<ArcTrace> = Vec::new();
    let mut i: usize = 0;
    proof {
        lemma_trees(items@);
        assert(all.take(0).len() == 0);
    }
    while i < items.len()
        invariant
            i <= items@.len(),
            all.len() == items@.len(),
            forall|j: int| 0 <= j < items@.len() ==> #[trigger] all[j] == tree(items@[j]),
            out@ == arcs_in(all.take(i as int)),
        decreases items@.len() - i,
    {
        proof {
            assert(all.take(i + 1).drop_last() =~= all.take(i as int));
            assert(all.take(i + 1).last() == tree(items@[i as int]));
        }
        if let Some(t) = read_arc(&items[i]) {
            out.push(t);
        }
        i += 1;
    }
    proof {
        assert(all.take(all.len() as int) =~= all);
    }
    out
}

/// A via, in text and numbers.
#[verifier::ext_equal]
pub struct ViaModel {
    pub center: Point2,
    pub drill: int,
    pub net_name: Option<Seq<char>>,
}

pub open spec fn via_model(v: Via) -> ViaModel {
    ViaModel { center: v.center, drill: v.drill as int, net_name: name_view(v.net_name) }
}

pub open spec fn via_models(list: Seq<Via>) -> Seq<ViaModel> {
    list.map_values(|v: Via| via_model(v))
}

/// The via that an item is.
pub open spec fn via_of(node: Tree) -> Option<ViaModel> {
    if !is_headed(node, "via"@) {
        None
    } else {
        match point_of(node, "at"@) {
            Some(center) => Some(
                ViaModel { center, drill: length_named(node, "drill"@, 1), net_name: net_of(node) },
            ),
            None => None,
        }
    }
}

/// The vias.
pub open spec fn vias_in(list: Seq<Tree>) -> Seq<ViaModel>
    decreases list.len(),
{
    if list.len() == 0 {
        Seq::empty()
    } else {
        let front = vias_in(list.drop_last());
        match via_of(list.last()) {
            Some(v) => front.push(v),
            None => front,
        }
    }
}

fn read_via(node: &Sexp) -> (v: Option<Via>)
    ensures
        v is Some == via_of(tree(*node)) is Some,
        v matches Some(v) ==> via_of(tree(*node)) == Some(via_model(v)),
{
    if !node.headed("via") {
        return None;
    }
    match read_point(node, "at") {
        Some(center) => Some(
            Via { center, drill: read_named(node, "drill", 1), net_name: read_net(node) },
        ),
        None => None,
    }
}

fn read_vias(items: &Vec<Sexp>) -> (out: Vec<Via>)
    ensures
        via_models(out@) == vias_in(trees(items@)),
{
    let ghost all = trees(items@);
    let mut out: Vec<Via> = Vec::new();
    let mut i: usize = 0;
    proof {
        lemma_trees(items@);
        assert(all.take(0).len() == 0);
        assert(via_models(out@) =~= Seq::<ViaModel>::empty());
    }
    while i < items.len()
        invariant
            i <= items@.len(),
            all.len() == items@.len(),
            forall|j: int| 0 <= j < items@.len() ==> #[trigger] all[j] == tree(items@[j]),
            via_models(out@) == vias_in(all.take(i as int)),
        decreases items@.len() - i,
    {
        proof {
            assert(all.take(i + 1).drop_last() =~= all.take(i as int));
            assert(all.take(i + 1).last() == tree(items@[i as int]));
        }
        if let Some(v) = read_via(&items[i]) {
            let ghost done = out@;
            out.push(v);
            proof {
                assert(via_models(out@) =~= via_models(done).push(via_model(v)));
            }
        }
        i += 1;
    }
    proof {
        assert(all.take(all.len() as int) =~= all);
    }
    out
}

/// The point that the first list of a name gives, as the file counts.
pub open spec fn place_of(node: Tree, name: Seq<char>) -> Option<(int, int)> {
    match child(node, name) {
        Some(c) => Some((length_at(c, 1), length_at(c, 2))),
        None => None,
    }
}

fn read_place(node: &Sexp, name: &str) -> (p: Option<(i64, i64)>)
    ensures
        (match p {
            Some(p) => Some((p.0 as int, p.1 as int)),
            None => None,
        }) == place_of(tree(*node), name@),
{
    match node.get_child(name) {
        Some(c) => Some((read_length(c, 1), read_length(c, 2))),
        None => None,
    }
}

/// Where a footprint stands, as the file counts: across, down and angle.
pub open spec fn stand_of(node: Tree) -> (int, int, int) {
    (length_named(node, "at"@, 1), length_named(node, "at"@, 2), length_named(node, "at"@, 3))
}

fn read_stand(node: &Sexp) -> (at: (i64, i64, i64))
    ensures
        (at.0 as int, at.1 as int, at.2 as int) == stand_of(tree(*node)),
{
    (read_named(node, "at", 1), read_named(node, "at", 2), read_named(node, "at", 3))
}

/// A point of a footprint on the board, if it is in range. A turn is against the clock
/// as one looks at the board.
pub open spec fn set_down(p: (int, int), at: (int, int, int), turn: (int, int)) -> Option<Point2> {
    let t = turned(p, turn.0, -turn.1);
    let x = at.0 + t.0;
    let y = at.1 + t.1;
    if i64::MIN <= x <= i64::MAX && i64::MIN <= y <= i64::MAX {
        Some(Point2 { x: x as i64, y: up(y) as i64 })
    } else {
        None
    }
}

fn put_down(p: (i64, i64), at: (i64, i64, i64), turn: (i64, i64)) -> (out: Option<Point2>)
    requires
        is_turn(turn),
    ensures
        out == set_down(
            (p.0 as int, p.1 as int),
            (at.0 as int, at.1 as int, at.2 as int),
            (turn.0 as int, turn.1 as int),
        ),
{
    match turn_and_move(p, turn.0, -turn.1, (at.0, at.1)) {
        Some(q) => Some(Point2 { x: q.0, y: turn_up(q.1) }),
        None => None,
    }
}

/// A pad, in texts and numbers.
#[verifier::ext_equal]
pub struct PadModel {
    pub number: Seq<char>,
    pub shape: PadShape,
    pub center: Point2,
    pub width: int,
    pub height: int,
    pub rotation: int,
    pub drill: int,
    pub drill_h: int,
    pub on_fcu: bool,
    pub on_bcu: bool,
    pub net_name: Option<Seq<char>>,
}

pub open spec fn pad_model(p: Pad) -> PadModel {
    PadModel {
        number: p.number@,
        shape: p.shape,
        center: p.center,
        width: p.width as int,
        height: p.height as int,
        rotation: p.rotation as int,
        drill: p.drill as int,
        drill_h: p.drill_h as int,
        on_fcu: p.on_fcu,
        on_bcu: p.on_bcu,
        net_name: name_view(p.net_name),
    }
}

pub open spec fn pad_models(list: Seq<Pad>) -> Seq<PadModel> {
    list.map_values(|p: Pad| pad_model(p))
}

/// The text at a place in a list, or nothing.
pub open spec fn text_at(node: Tree, i: int) -> Seq<char> {
    match atom_item(node, i) {
        Some(t) => t,
        None => Seq::empty(),
    }
}

fn read_text(node: &Sexp, i: usize) -> (t: String)
    ensures
        t@ == text_at(tree(*node), i as int),
{
    match node.atom_at(i) {
        Some(t) => t.clone(),
        None => {
            let none = String::new();
            proof {
                assert(none@ =~= Seq::<char>::empty());
            }
            none
        },
    }
}

/// The shape that a word stands for.
pub open spec fn shape_named(word: Seq<char>) -> PadShape {
    if word == "circle"@ {
        PadShape::Circle
    } else if word == "oval"@ {
        PadShape::Oval
    } else if word == "roundrect"@ {
        PadShape::RoundRect
    } else {
        PadShape::Rect
    }
}

fn find_shape(word: &str) -> (shape: PadShape)
    ensures
        shape == shape_named(word@),
{
    if same_str(word, "circle") {
        PadShape::Circle
    } else if same_str(word, "oval") {
        PadShape::Oval
    } else if same_str(word, "roundrect") {
        PadShape::RoundRect
    } else {
        PadShape::Rect
    }
}

/// How wide and high the hole of a pad is.
pub open spec fn drill_of(node: Tree) -> (int, int) {
    match child(node, "drill"@) {
        None => (0, 0),
        Some(d) => if atom_item(d, 1) == Some("oval"@) {
            (length_at(d, 2), length_at(d, 3))
        } else {
            (length_at(d, 1), length_at(d, 1))
        },
    }
}

fn read_drill(node: &Sexp) -> (d: (i64, i64))
    ensures
        (d.0 as int, d.1 as int) == drill_of(tree(*node)),
{
    match node.get_child("drill") {
        None => (0, 0),
        Some(d) => {
            let oval = match d.atom_at(1) {
                Some(t) => same_str(t.as_str(), "oval"),
                None => false,
            };
            if oval {
                (read_length(d, 2), read_length(d, 3))
            } else {
                (read_length(d, 1), read_length(d, 1))
            }
        },
    }
}

/// Whether a name of layers takes in a copper layer.
pub open spec fn takes_in(name: Seq<char>, layer: Seq<char>) -> bool {
    name == layer || name == "*.Cu"@ || name == "F&B.Cu"@
}

/// Whether a pad is on a copper layer: one of the names after the first item of its
/// list of layers takes it in.
pub open spec fn is_on(node: Tree, layer: Seq<char>) -> bool {
    match child(node, "layers"@) {
        None => false,
        Some(c) => exists|i: int|
            1 <= i && (#[trigger] atom_item(c, i)) is Some && takes_in(atom_item(c, i)->0, layer),
    }
}

fn test_on(node: &Sexp, layer: &str) -> (yes: bool)
    ensures
        yes == is_on(tree(*node), layer@),
{
    match node.get_child("layers") {
        None => false,
        Some(c) => {
            let ghost list = tree(*c);
            match c.as_list() {
                None => {
                    proof {
                        assert forall|i: int| 1 <= i implies (#[trigger] atom_item(list, i)) is None by {}
                    }
                    false
                },
                Some(items) => {
                    proof {
                        lemma_trees(items@);
                    }
                    let mut i: usize = 1;
                    while i < items.len()
                        invariant
                            1 <= i,
                            list == tree(*c),
                            child(tree(*node), "layers"@) == Some(list),
                            list == Tree::List(trees(items@)),
                            trees(items@).len() == items@.len(),
                            i <= items@.len() || items@.len() == 0,
                            forall|j: int|
                                1 <= j < i && (#[trigger] atom_item(list, j)) is Some ==> !takes_in(
                                    atom_item(list, j)->0,
                                    layer@,
                                ),
                        decreases items@.len() - i,
                    {
                        if let Some(t) = c.atom_at(i) {
                            let name = t.as_str();
                            if same_str(name, layer) || same_str(name, "*.Cu") || same_str(
                                name,
                                "F&B.Cu",
                            ) {
                                proof {
                                    assert(takes_in(atom_item(list, i as int)->0, layer@));
                                }
                                return true;
                            }
                        }
                        i += 1;
                    }
                    proof {
                        assert forall|j: int|
                            1 <= j && (#[trigger] atom_item(list, j)) is Some implies !takes_in(
                            atom_item(list, j)->0,
                            layer@,
                        ) by {
                            assert(item(list, j) is Some);
                        }
                    }
                    false
                },
            }
        },
    }
}

/// The pad that an item of a footprint is.
pub open spec fn pad_of(node: Tree, at: (int, int, int), turn: (int, int)) -> Option<PadModel> {
    let local = (length_named(node, "at"@, 1), length_named(node, "at"@, 2));
    if !is_headed(node, "pad"@) {
        None
    } else {
        match set_down(local, at, turn) {
            None => None,
            Some(center) => Some(
                PadModel {
                    number: text_at(node, 1),
                    shape: shape_named(text_at(node, 3)),
                    center,
                    width: length_named(node, "size"@, 1),
                    height: length_named(node, "size"@, 2),
                    rotation: length_named(node, "at"@, 3),
                    drill: drill_of(node).0,
                    drill_h: drill_of(node).1,
                    on_fcu: is_on(node, "F.Cu"@),
                    on_bcu: is_on(node, "B.Cu"@),
                    net_name: net_of(node),
                },
            ),
        }
    }
}

fn read_pad(node: &Sexp, at: (i64, i64, i64), turn: (i64, i64)) -> (pad: Option<Pad>)
    requires
        is_turn(turn),
    ensures
        ({
            let wanted = pad_of(
                tree(*node),
                (at.0 as int, at.1 as int, at.2 as int),
                (turn.0 as int, turn.1 as int),
            );
            &&& pad is Some == wanted is Some
            &&& pad matches Some(p) ==> wanted == Some(pad_model(p))
        }),
{
    if !node.headed("pad") {
        return None;
    }
    let local = (read_named(node, "at", 1), read_named(node, "at", 2));
    match put_down(local, at, turn) {
        None => None,
        Some(center) => {
            let drill = read_drill(node);
            let shape = read_text(node, 3);
            Some(
                Pad {
                    number: read_text(node, 1),
                    shape: find_shape(shape.as_str()),
                    center,
                    width: read_named(node, "size", 1),
                    height: read_named(node, "size", 2),
                    rotation: read_named(node, "at", 3),
                    drill: drill.0,
                    drill_h: drill.1,
                    on_fcu: test_on(node, "F.Cu"),
                    on_bcu: test_on(node, "B.Cu"),
                    net_name: read_net(node),
                },
            )
        },
    }
}

/// The pads among the items of a footprint.
pub open spec fn pads_in(list: Seq<Tree>, at: (int, int, int), turn: (int, int)) -> Seq<PadModel>
    decreases list.len(),
{
    if list.len() == 0 {
        Seq::empty()
    } else {
        let front = pads_in(list.drop_last(), at, turn);
        match pad_of(list.last(), at, turn) {
            Some(p) => front.push(p),
            None => front,
        }
    }
}

fn read_pads(items: &Vec<Sexp>, at: (i64, i64, i64), turn: (i64, i64)) -> (out: Vec<Pad>)
    requires
        is_turn(turn),
    ensures
        pad_models(out@) == pads_in(
            trees(items@),
            (at.0 as int, at.1 as int, at.2 as int),
            (turn.0 as int, turn.1 as int),
        ),
{
    let ghost all = trees(items@);
    let ghost stand = (at.0 as int, at.1 as int, at.2 as int);
    let ghost angle = (turn.0 as int, turn.1 as int);
    let mut out: Vec<Pad> = Vec::new();
    let mut i: usize = 0;
    proof {
        lemma_trees(items@);
        assert(all.take(0).len() == 0);
        assert(pad_models(out@) =~= Seq::<PadModel>::empty());
    }
    while i < items.len()
        invariant
            i <= items@.len(),
            is_turn(turn),
            stand == (at.0 as int, at.1 as int, at.2 as int),
            angle == (turn.0 as int, turn.1 as int),
            all.len() == items@.len(),
            forall|j: int| 0 <= j < items@.len() ==> #[trigger] all[j] == tree(items@[j]),
            pad_models(out@) == pads_in(all.take(i as int), stand, angle),
        decreases items@.len() - i,
    {
        proof {
            assert(all.take(i + 1).drop_last() =~= all.take(i as int));
            assert(all.take(i + 1).last() == tree(items@[i as int]));
        }
        if let Some(p) = read_pad(&items[i], at, turn) {
            let ghost done = out@;
            out.push(p);
            proof {
                assert(pad_models(out@) =~= pad_models(done).push(pad_model(p)));
            }
        }
        i += 1;
    }
    proof {
        assert(all.take(all.len() as int) =~= all);
    }
    out
}

/// Whether an item of a footprint is a property, or a text of a kind.
pub open spec fn is_label(node: Tree, key: Seq<char>, kind: Seq<char>) -> bool {
    ||| is_headed(node, "property"@) && atom_item(node, 1) == Some(key)
    ||| is_headed(node, "fp_text"@) && atom_item(node, 1) == Some(kind)
}

/// What the first label from `from` on says; nothing if there is none.
pub open spec fn label_from(list: Seq<Tree>, key: Seq<char>, kind: Seq<char>, from: int) -> Seq<char>
    decreases list.len() - from,
{
    if from < 0 || from >= list.len() {
        Seq::empty()
    } else if is_label(list[from], key, kind) {
        text_at(list[from], 2)
    } else {
        label_from(list, key, kind, from + 1)
    }
}

fn test_label(node: &Sexp, key: &str, kind: &str) -> (yes: bool)
    ensures
        yes == is_label(tree(*node), key@, kind@),
{
    match node.atom_at(1) {
        Some(t) => (node.headed("property") && same_str(t.as_str(), key)) || (node.headed("fp_text")
            && same_str(t.as_str(), kind)),
        None => false,
    }
}

fn read_label(items: &Vec<Sexp>, key: &str, kind: &str) -> (t: String)
    ensures
        t@ == label_from(trees(items@), key@, kind@, 0),
{
    let ghost all = trees(items@);
    let mut i: usize = 0;
    proof {
        lemma_trees(items@);
    }
    while i < items.len()
        invariant
            i <= items@.len(),
            all == trees(items@),
            all.len() == items@.len(),
            forall|j: int| 0 <= j < items@.len() ==> #[trigger] all[j] == tree(items@[j]),
            label_from(all, key@, kind@, 0) == label_from(all, key@, kind@, i as int),
        decreases items@.len() - i,
    {
        proof {
            assert(all[i as int] == tree(items@[i as int]));
        }
        if test_label(&items[i], key, kind) {
            return read_text(&items[i], 2);
        }
        i += 1;
    }
    let none = String::new();
    proof {
        assert(none@ =~= Seq::<char>::empty());
    }
    none
}

/// A part, in texts and numbers.
#[verifier::ext_equal]
pub struct FootprintModel {
    pub reference: Seq<char>,
    pub value: Seq<char>,
    pub position: Point2,
    pub pads: Seq<PadModel>,
}

pub open spec fn footprint_model(f: Footprint) -> FootprintModel {
    FootprintModel {
        reference: f.reference@,
        value: f.value@,
        position: f.position,
        pads: pad_models(f.pads@),
    }
}

pub open spec fn footprint_models(list: Seq<Footprint>) -> Seq<FootprintModel> {
    list.map_values(|f: Footprint| footprint_model(f))
}

/// The items of a list; an atom has none.
pub open spec fn items_of(node: Tree) -> Seq<Tree> {
    match node {
        Tree::List(items) => items,
        Tree::Atom(_) => Seq::empty(),
    }
}

/// The part that a list is.
pub open spec fn footprint_of(node: Tree, turn: (int, int)) -> FootprintModel {
    let at = stand_of(node);
    FootprintModel {
        reference: label_from(items_of(node), "Reference"@, "reference"@, 0),
        value: label_from(items_of(node), "Value"@, "value"@, 0),
        position: Point2 { x: at.0 as i64, y: up(at.1) as i64 },
        pads: pads_in(items_of(node), at, turn),
    }
}

fn read_footprint(node: &Sexp, turn: (i64, i64)) -> (f: Footprint)
    requires
        is_turn(turn),
    ensures
        footprint_model(f) == footprint_of(tree(*node), (turn.0 as int, turn.1 as int)),
{
    let at = read_stand(node);
    let position = Point2 { x: at.0, y: turn_up(at.1) };
    let none: Vec<Sexp> = Vec::new();
    let items: &Vec<Sexp> = match node.as_list() {
        Some(items) => items,
        None => &none,
    };
    proof {
        assert(trees(items@) =~= items_of(tree(*node)));
    }
    Footprint {
        reference: read_label(items, "Reference", "reference"),
        value: read_label(items, "Value", "value"),
        position,
        pads: read_pads(items, at, turn),
    }
}

/// The parts among the items of a board; `turns` holds the turn of each.
pub open spec fn footprints_in(list: Seq<Tree>, turns: Seq<(int, int)>) -> Seq<FootprintModel>
    decreases list.len(),
{
    if list.len() == 0 {
        Seq::empty()
    } else {
        let front = footprints_in(list.drop_last(), turns);
        if is_headed(list.last(), "footprint"@) {
            front.push(footprint_of(list.last(), turns[front.len() as int]))
        } else {
            front
        }
    }
}

/// The angles of the parts among the items of a board, in millionths of a degree.
pub open spec fn angles_in(list: Seq<Tree>) -> Seq<int>
    decreases list.len(),
{
    if list.len() == 0 {
        Seq::empty()
    } else {
        let front = angles_in(list.drop_last());
        if is_headed(list.last(), "footprint"@) {
            front.push(stand_of(list.last()).2)
        } else {
            front
        }
    }
}

proof fn lemma_as_many_angles(list: Seq<Tree>, turns: Seq<(int, int)>)
    ensures
        footprints_in(list, turns).len() == angles_in(list).len(),
    decreases list.len(),
{
    if list.len() > 0 {
        lemma_as_many_angles(list.drop_last(), turns);
    }
}

proof fn lemma_angles_grow(list: Seq<Tree>, i: int)
    requires
        0 <= i <= list.len(),
    ensures
        angles_in(list.take(i)).len() <= angles_in(list).len(),
        i < list.len() && is_headed(list[i], "footprint"@) ==> angles_in(list.take(i)).len()
            < angles_in(list).len(),
    decreases list.len(),
{
    if i < list.len() {
        let front = list.drop_last();
        if i < front.len() {
            lemma_angles_grow(front, i);
            assert(front.take(i) =~= list.take(i));
            assert(front[i] == list[i]);
        } else {
            assert(list.take(i) =~= front);
        }
    } else {
        assert(list.take(i) =~= list);
    }
}

/// The angles of the parts of a board, in the order of the parts; in millionths of a
/// degree.
pub fn part_angles(items: &Vec<Sexp>) -> (out: Vec<i64>)
    ensures
        out@.map_values(|n: i64| n as int) == angles_in(trees(items@)),
{
    let ghost all = trees(items@);
    let mut out: Vec<i64> = Vec::new();
    let mut i: usize = 0;
    proof {
        lemma_trees(items@);
        assert(all.take(0).len() == 0);
        assert(out@.map_values(|n: i64| n as int) =~= Seq::<int>::empty());
    }
    while i < items.len()
        invariant
            i <= items@.len(),
            all.len() == items@.len(),
            forall|j: int| 0 <= j < items@.len() ==> #[trigger] all[j] == tree(items@[j]),
            out@.map_values(|n: i64| n as int) == angles_in(all.take(i as int)),
        decreases items@.len() - i,
    {
        proof {
            assert(all.take(i + 1).drop_last() =~= all.take(i as int));
            assert(all.take(i + 1).last() == tree(items@[i as int]));
        }
        if items[i].headed("footprint") {
            let ghost done = out@;
            let n: i64 = read_stand(&items[i]).2;
            out.push(n);
            proof {
                assert(out@.map_values(|n: i64| n as int) =~= done.map_values(
                    |n: i64| n as int,
                ).push(n as int));
            }
        }
        i += 1;
    }
    proof {
        assert(all.take(all.len() as int) =~= all);
    }
    out
}

fn read_footprints(items: &Vec<Sexp>, turns: &Vec<(i64, i64)>) -> (out: Vec<Footprint>)
    requires
        turns@.len() == angles_in(trees(items@)).len(),
        forall|j: int| 0 <= j < turns@.len() ==> is_turn(#[trigger] turns@[j]),
    ensures
        footprint_models(out@) == footprints_in(trees(items@), places(turns@)),
{
    let ghost all = trees(items@);
    let ghost angles = places(turns@);
    let mut out: Vec<Footprint> = Vec::new();
    let mut i: usize = 0;
    proof {
        lemma_trees(items@);
        assert(all.take(0).len() == 0);
        assert(footprint_models(out@) =~= Seq::<FootprintModel>::empty());
    }
    while i < items.len()
        invariant
            i <= items@.len(),
            turns@.len() == angles_in(all).len(),
            angles == places(turns@),
            forall|j: int| 0 <= j < turns@.len() ==> is_turn(#[trigger] turns@[j]),
            all.len() == items@.len(),
            forall|j: int| 0 <= j < items@.len() ==> #[trigger] all[j] == tree(items@[j]),
            footprint_models(out@) == footprints_in(all.take(i as int), angles),
        decreases items@.len() - i,
    {
        proof {
            assert(all.take(i + 1).drop_last() =~= all.take(i as int));
            assert(all.take(i + 1).last() == tree(items@[i as int]));
            lemma_as_many_angles(all.take(i as int), angles);
            lemma_angles_grow(all, i as int);
            assert(all[i as int] == tree(items@[i as int]));
            assert(out@.len() == footprint_models(out@).len());
        }
        if items[i].headed("footprint") {
            let ghost done = out@;
            let f = read_footprint(&items[i], turns[out.len()]);
            out.push(f);
            proof {
                assert(footprint_models(out@) =~= footprint_models(done).push(footprint_model(f)));
            }
        }
        i += 1;
    }
    proof {
        assert(all.take(all.len() as int) =~= all);
    }
    out
}

/// The pads of parts, part by part.
pub open spec fn pads_of_parts(list: Seq<FootprintModel>) -> Seq<PadModel>
    decreases list.len(),
{
    if list.len() == 0 {
        Seq::empty()
    } else {
        pads_of_parts(list.drop_last()) + list.last().pads
    }
}

fn copy_pad(p: &Pad) -> (q: Pad)
    ensures
        pad_model(q) == pad_model(*p),
{
    let net_name = match &p.net_name {
        Some(t) => Some(t.clone()),
        None => None,
    };
    Pad {
        number: p.number.clone(),
        shape: p.shape,
        center: p.center,
        width: p.width,
        height: p.height,
        rotation: p.rotation,
        drill: p.drill,
        drill_h: p.drill_h,
        on_fcu: p.on_fcu,
        on_bcu: p.on_bcu,
        net_name,
    }
}

fn gather_pads(parts: &Vec<Footprint>) -> (out: Vec<Pad>)
    ensures
        pad_models(out@) == pads_of_parts(footprint_models(parts@)),
{
    let ghost all = footprint_models(parts@);
    let mut out: Vec<Pad> = Vec::new();
    let mut i: usize = 0;
    proof {
        assert(all.take(0).len() == 0);
        assert(pad_models(out@) =~= Seq::<PadModel>::empty());
    }
    while i < parts.len()
        invariant
            i <= parts@.len(),
            all == footprint_models(parts@),
            pad_models(out@) == pads_of_parts(all.take(i as int)),
        decreases parts@.len() - i,
    {
        let pads = &parts[i].pads;
        let ghost here = pad_models(pads@);
        let ghost done = pad_models(out@);
        proof {
            assert(all.take(i + 1).drop_last() =~= all.take(i as int));
            assert(all.take(i + 1).last() == footprint_model(parts@[i as int]));
            assert(done + here.take(0) =~= done);
        }
        let mut k: usize = 0;
        while k < pads.len()
            invariant
                k <= pads@.len(),
                here == pad_models(pads@),
                pad_models(out@) == done + here.take(k as int),
            decreases pads@.len() - k,
        {
            let ghost before = out@;
            let p = copy_pad(&pads[k]);
            out.push(p);
            proof {
                assert(pad_models(out@) =~= pad_models(before).push(pad_model(p)));
                assert(here[k as int] == pad_model(p));
                assert(pad_models(before).push(here[k as int]) =~= done + here.take(k + 1));
            }
            k += 1;
        }
        proof {
            assert(here.take(here.len() as int) =~= here);
        }
        i += 1;
    }
    proof {
        assert(all.take(all.len() as int) =~= all);
    }
    out
}

/// Whether an item is on the layer of the edge.
pub open spec fn on_edge(node: Tree) -> bool {
    field(node, "layer"@) == Some("Edge.Cuts"@)
}

fn test_on_edge(node: &Sexp) -> (yes: bool)
    ensures
        yes == on_edge(tree(*node)),
{
    match node.get_field("layer") {
        Some(t) => same_str(t.as_str(), "Edge.Cuts"),
        None => false,
    }
}

/// The lines of the edge that an item is: a line, or an arc as two lines by its
/// middle.
pub open spec fn lines_of(node: Tree) -> Seq<(Point2, Point2)> {
    if !on_edge(node) {
        Seq::empty()
    } else if is_headed(node, "gr_line"@) {
        match (point_of(node, "start"@), point_of(node, "end"@)) {
            (Some(a), Some(b)) => seq![(a, b)],
            _ => Seq::empty(),
        }
    } else if is_headed(node, "gr_arc"@) {
        match (point_of(node, "start"@), point_of(node, "mid"@), point_of(node, "end"@)) {
            (Some(a), Some(m), Some(b)) => seq![(a, m), (m, b)],
            _ => Seq::empty(),
        }
    } else {
        Seq::empty()
    }
}

/// The lines of the edge of a board.
pub open spec fn lines_in(list: Seq<Tree>) -> Seq<(Point2, Point2)>
    decreases list.len(),
{
    if list.len() == 0 {
        Seq::empty()
    } else {
        lines_in(list.drop_last()) + lines_of(list.last())
    }
}

fn read_node_lines(node: &Sexp, out: &mut Vec<(Point2, Point2)>)
    ensures
        final(out)@ == old(out)@ + lines_of(tree(*node)),
{
    let ghost done = out@;
    if test_on_edge(node) {
        if node.headed("gr_line") {
            if let (Some(a), Some(b)) = (read_point(node, "start"), read_point(node, "end")) {
                out.push((a, b));
            }
        } else if node.headed("gr_arc") {
            if let (Some(a), Some(m), Some(b)) = (
                read_point(node, "start"),
                read_point(node, "mid"),
                read_point(node, "end"),
            ) {
                out.push((a, m));
                out.push((m, b));
            }
        }
    }
    proof {
        assert(out@ =~= done + lines_of(tree(*node)));
    }
}

fn read_lines(items: &Vec<Sexp>) -> (out: Vec<(Point2, Point2)>)
    ensures
        out@ == lines_in(trees(items@)),
{
    let ghost all = trees(items@);
    let mut out: Vec<(Point2, Point2)> = Vec::new();
    let mut i: usize = 0;
    proof {
        lemma_trees(items@);
        assert(all.take(0).len() == 0);
    }
    while i < items.len()
        invariant
            i <= items@.len(),
            all.len() == items@.len(),
            forall|j: int| 0 <= j < items@.len() ==> #[trigger] all[j] == tree(items@[j]),
            out@ == lines_in(all.take(i as int)),
        decreases items@.len() - i,
    {
        let node = &items[i];
        proof {
            assert(all.take(i + 1).drop_last() =~= all.take(i as int));
            assert(all.take(i + 1).last() == tree(*node));
        }
        read_node_lines(node, &mut out);
        i += 1;
    }
    proof {
        assert(all.take(all.len() as int) =~= all);
    }
    out
}

/// The corners of a rectangle along the axes.
pub open spec fn corners(a: Point2, b: Point2) -> Seq<Point2> {
    seq![a, Point2 { x: b.x, y: a.y }, b, Point2 { x: a.x, y: b.y }]
}

/// The rectangles of the edge of a board.
pub open spec fn rectangles_in(list: Seq<Tree>) -> Seq<Seq<Point2>>
    decreases list.len(),
{
    if list.len() == 0 {
        Seq::empty()
    } else {
        let front = rectangles_in(list.drop_last());
        let node = list.last();
        if on_edge(node) && is_headed(node, "gr_rect"@) {
            match (point_of(node, "start"@), point_of(node, "end"@)) {
                (Some(a), Some(b)) => front.push(corners(a, b)),
                _ => front,
            }
        } else {
            front
        }
    }
}

fn read_rectangles(items: &Vec<Sexp>) -> (out: Vec<Vec<Point2>>)
    ensures
        ring_views(out@) == rectangles_in(trees(items@)),
{
    let ghost all = trees(items@);
    let mut out: Vec<Vec<Point2>> = Vec::new();
    let mut i: usize = 0;
    proof {
        lemma_trees(items@);
        assert(all.take(0).len() == 0);
        assert(ring_views(out@) =~= Seq::<Seq<Point2>>::empty());
    }
    while i < items.len()
        invariant
            i <= items@.len(),
            all.len() == items@.len(),
            forall|j: int| 0 <= j < items@.len() ==> #[trigger] all[j] == tree(items@[j]),
            ring_views(out@) == rectangles_in(all.take(i as int)),
        decreases items@.len() - i,
    {
        let node = &items[i];
        let ghost done = out@;
        proof {
            assert(all.take(i + 1).drop_last() =~= all.take(i as int));
            assert(all.take(i + 1).last() == tree(*node));
        }
        if test_on_edge(node) && node.headed("gr_rect") {
            if let (Some(a), Some(b)) = (read_point(node, "start"), read_point(node, "end")) {
                let ring: Vec<Point2> = vec![
                    a,
                    Point2 { x: b.x, y: a.y },
                    b,
                    Point2 { x: a.x, y: b.y },
                ];
                proof {
                    assert(ring@ =~= corners(a, b));
                }
                out.push(ring);
                proof {
                    assert(ring_views(out@) =~= ring_views(done).push(corners(a, b)));
                }
            }
        }
        i += 1;
    }
    proof {
        assert(all.take(all.len() as int) =~= all);
    }
    out
}

/// The circle of the edge that an item of a board is. One out of reach does not count.
pub open spec fn circle_of(node: Tree) -> Option<CutoutShape> {
    if !(on_edge(node) && is_headed(node, "gr_circle"@)) {
        None
    } else {
        match (point_of(node, "center"@), point_of(node, "end"@)) {
            (Some(center), Some(end)) => {
                let c = (center.x as int, center.y as int);
                let e = (end.x as int, end.y as int);
                if in_reach(c) && in_reach(e) {
                    Some(CutoutShape::Circle { center, radius: root(apart2(c, e)) as i64 })
                } else {
                    None
                }
            },
            _ => None,
        }
    }
}

fn measure_radius(c: (i64, i64), e: (i64, i64)) -> (r: i64)
    requires
        in_reach((c.0 as int, c.1 as int)),
        in_reach((e.0 as int, e.1 as int)),
    ensures
        r == root(apart2((c.0 as int, c.1 as int), (e.0 as int, e.1 as int))),
{
    let d: i128 = distance2(c, e);
    let r: u128 = square_root(d as u128);
    proof {
        assert(r <= 9_000_000_000) by (nonlinear_arith)
            requires
                0 <= r,
                r * r <= d,
                d <= 72_000_000_000_000_000_000,
        ;
    }
    r as i64
}

fn read_circle(node: &Sexp) -> (c: Option<CutoutShape>)
    ensures
        c == circle_of(tree(*node)),
{
    if !(test_on_edge(node) && node.headed("gr_circle")) {
        return None;
    }
    match (read_point(node, "center"), read_point(node, "end")) {
        (Some(center), Some(end)) => {
            let c = (center.x, center.y);
            let e = (end.x, end.y);
            if reachable(c) && reachable(e) {
                Some(CutoutShape::Circle { center, radius: measure_radius(c, e) })
            } else {
                None
            }
        },
        _ => None,
    }
}

/// The middle of two numbers, rounded down.
pub open spec fn middle(a: int, b: int) -> int {
    (a + b) / 2
}

/// Half of how far two numbers are apart, rounded down.
pub open spec fn half_apart(a: int, b: int) -> int {
    if a < b {
        (b - a) / 2
    } else {
        (a - b) / 2
    }
}

fn find_middle(a: i64, b: i64) -> (m: i64)
    requires
        -FAR <= a <= FAR,
        -FAR <= b <= FAR,
    ensures
        m == middle(a as int, b as int),
{
    (a + b + 2 * FAR) / 2 - FAR
}

fn find_half(a: i64, b: i64) -> (h: i64)
    requires
        -FAR <= a <= FAR,
        -FAR <= b <= FAR,
    ensures
        h == half_apart(a as int, b as int),
{
    if a < b {
        (b - a) / 2
    } else {
        (a - b) / 2
    }
}

/// The opening that an item of a part is: a rectangle turned with the part, or a
/// circle. One out of reach does not count.
pub open spec fn part_opening(node: Tree, at: (int, int, int), turn: (int, int)) -> Option<
    CutoutShape,
> {
    if !on_edge(node) {
        None
    } else if is_headed(node, "fp_rect"@) {
        match (place_of(node, "start"@), place_of(node, "end"@)) {
            (Some(a), Some(b)) => if in_reach(a) && in_reach(b) {
                match set_down((middle(a.0, b.0), middle(a.1, b.1)), at, turn) {
                    Some(center) => Some(
                        CutoutShape::Rect {
                            center,
                            half_width: half_apart(a.0, b.0) as i64,
                            half_height: half_apart(a.1, b.1) as i64,
                            rotation: at.2 as i64,
                        },
                    ),
                    None => None,
                }
            } else {
                None
            },
            _ => None,
        }
    } else if is_headed(node, "fp_circle"@) {
        match (place_of(node, "center"@), place_of(node, "end"@)) {
            (Some(c), Some(e)) => if in_reach(c) && in_reach(e) {
                match set_down(c, at, turn) {
                    Some(center) => Some(
                        CutoutShape::Circle { center, radius: root(apart2(c, e)) as i64 },
                    ),
                    None => None,
                }
            } else {
                None
            },
            _ => None,
        }
    } else {
        None
    }
}

fn read_part_opening(node: &Sexp, at: (i64, i64, i64), turn: (i64, i64)) -> (c: Option<
    CutoutShape,
>)
    requires
        is_turn(turn),
    ensures
        c == part_opening(
            tree(*node),
            (at.0 as int, at.1 as int, at.2 as int),
            (turn.0 as int, turn.1 as int),
        ),
{
    if !test_on_edge(node) {
        None
    } else if node.headed("fp_rect") {
        match (read_place(node, "start"), read_place(node, "end")) {
            (Some(a), Some(b)) => {
                if reachable(a) && reachable(b) {
                    let local = (find_middle(a.0, b.0), find_middle(a.1, b.1));
                    match put_down(local, at, turn) {
                        Some(center) => Some(
                            CutoutShape::Rect {
                                center,
                                half_width: find_half(a.0, b.0),
                                half_height: find_half(a.1, b.1),
                                rotation: at.2,
                            },
                        ),
                        None => None,
                    }
                } else {
                    None
                }
            },
            _ => None,
        }
    } else if node.headed("fp_circle") {
        match (read_place(node, "center"), read_place(node, "end")) {
            (Some(c), Some(e)) => {
                if reachable(c) && reachable(e) {
                    match put_down(c, at, turn) {
                        Some(center) => Some(
                            CutoutShape::Circle { center, radius: measure_radius(c, e) },
                        ),
                        None => None,
                    }
                } else {
                    None
                }
            },
            _ => None,
        }
    } else {
        None
    }
}

/// The openings among the items of a part.
pub open spec fn part_openings(list: Seq<Tree>, at: (int, int, int), turn: (int, int)) -> Seq<
    CutoutShape,
>
    decreases list.len(),
{
    if list.len() == 0 {
        Seq::empty()
    } else {
        let front = part_openings(list.drop_last(), at, turn);
        match part_opening(list.last(), at, turn) {
            Some(c) => front.push(c),
            None => front,
        }
    }
}

fn read_part_openings(items: &Vec<Sexp>, at: (i64, i64, i64), turn: (i64, i64), out: &mut Vec<
    CutoutShape,
>)
    requires
        is_turn(turn),
    ensures
        final(out)@ == old(out)@ + part_openings(
            trees(items@),
            (at.0 as int, at.1 as int, at.2 as int),
            (turn.0 as int, turn.1 as int),
        ),
{
    let ghost all = trees(items@);
    let ghost stand = (at.0 as int, at.1 as int, at.2 as int);
    let ghost angle = (turn.0 as int, turn.1 as int);
    let ghost first = out@;
    let mut i: usize = 0;
    proof {
        lemma_trees(items@);
        assert(all.take(0).len() == 0);
        assert(first + part_openings(all.take(0), stand, angle) =~= first);
    }
    while i < items.len()
        invariant
            i <= items@.len(),
            is_turn(turn),
            stand == (at.0 as int, at.1 as int, at.2 as int),
            angle == (turn.0 as int, turn.1 as int),
            all.len() == items@.len(),
            forall|j: int| 0 <= j < items@.len() ==> #[trigger] all[j] == tree(items@[j]),
            out@ == first + part_openings(all.take(i as int), stand, angle),
        decreases items@.len() - i,
    {
        let ghost front = part_openings(all.take(i as int), stand, angle);
        proof {
            assert(all.take(i + 1).drop_last() =~= all.take(i as int));
            assert(all.take(i + 1).last() == tree(items@[i as int]));
        }
        if let Some(c) = read_part_opening(&items[i], at, turn) {
            out.push(c);
            proof {
                assert((first + front).push(c) =~= first + front.push(c));
            }
        }
        i += 1;
    }
    proof {
        assert(all.take(all.len() as int) =~= all);
    }
}

/// The openings that stand by themselves among the items of a board, or in its parts.
pub open spec fn cutouts_in(list: Seq<Tree>, turns: Seq<(int, int)>) -> Seq<CutoutShape>
    decreases list.len(),
{
    if list.len() == 0 {
        Seq::empty()
    } else {
        let front = cutouts_in(list.drop_last(), turns);
        let node = list.last();
        if is_headed(node, "footprint"@) {
            let turn = turns[angles_in(list.drop_last()).len() as int];
            front + part_openings(items_of(node), stand_of(node), turn)
        } else {
            match circle_of(node) {
                Some(c) => front.push(c),
                None => front,
            }
        }
    }
}

fn read_cutouts(items: &Vec<Sexp>, turns: &Vec<(i64, i64)>) -> (out: Vec<CutoutShape>)
    requires
        turns@.len() == angles_in(trees(items@)).len(),
        forall|j: int| 0 <= j < turns@.len() ==> is_turn(#[trigger] turns@[j]),
    ensures
        out@ == cutouts_in(trees(items@), places(turns@)),
{
    let ghost all = trees(items@);
    let ghost angles = places(turns@);
    let mut out: Vec<CutoutShape> = Vec::new();
    let none: Vec<Sexp> = Vec::new();
    let mut part: usize = 0;
    let mut i: usize = 0;
    proof {
        lemma_trees(items@);
        assert(all.take(0).len() == 0);
    }
    while i < items.len()
        invariant
            i <= items@.len(),
            none@.len() == 0,
            turns@.len() == angles_in(all).len(),
            angles == places(turns@),
            part == angles_in(all.take(i as int)).len(),
            forall|j: int| 0 <= j < turns@.len() ==> is_turn(#[trigger] turns@[j]),
            all.len() == items@.len(),
            forall|j: int| 0 <= j < items@.len() ==> #[trigger] all[j] == tree(items@[j]),
            out@ == cutouts_in(all.take(i as int), angles),
        decreases items@.len() - i,
    {
        let node = &items[i];
        proof {
            assert(all.take(i + 1).drop_last() =~= all.take(i as int));
            assert(all.take(i + 1).last() == tree(*node));
            lemma_angles_grow(all, i as int);
            assert(all[i as int] == tree(*node));
        }
        if node.headed("footprint") {
            let at = read_stand(node);
            let inner: &Vec<Sexp> = match node.as_list() {
                Some(inner) => inner,
                None => &none,
            };
            proof {
                assert(trees(inner@) =~= items_of(tree(*node)));
            }
            read_part_openings(inner, at, turns[part], &mut out);
            let count: usize = turns.len();
            assert(part < count);
            part += 1;
        } else if let Some(c) = read_circle(node) {
            out.push(c);
        }
        i += 1;
    }
    proof {
        assert(all.take(all.len() as int) =~= all);
    }
    out
}

/// The rings of the edge of a board.
pub open spec fn rings_in(list: Seq<Tree>) -> Seq<Seq<Point2>> {
    rectangles_in(list) + joined_lines(lines_in(list))
}

fn read_rings(items: &Vec<Sexp>) -> (rings: Vec<Vec<Point2>>)
    ensures
        ring_views(rings@) == rings_in(trees(items@)),
{
    let mut rings = read_rectangles(items);
    let mut joined = join_lines(read_lines(items));
    let ghost a = rings@;
    let ghost b = joined@;
    rings.append(&mut joined);
    proof {
        assert(rings@ =~= a + b);
        assert(ring_views(a + b) =~= ring_views(a) + ring_views(b));
    }
    rings
}

/// Why a board could not be read.
#[derive(Clone, Copy, Debug, PartialEq, Eq, Structural)]
pub enum BoardError {
    /// The brackets do not pair, or a quoted text does not end.
    Brackets,
    /// No list of the file is a board.
    NoBoard,
}

/// The items of the first board in a list of nodes.
pub open spec fn board_from(list: Seq<Tree>, from: int) -> Option<Seq<Tree>>
    decreases list.len() - from,
{
    if from < 0 || from >= list.len() {
        None
    } else if is_headed(list[from], "kicad_pcb"@) {
        Some(items_of(list[from]))
    } else {
        board_from(list, from + 1)
    }
}

/// The items of the board that a file holds.
pub fn board_items(content: &str) -> (found: Result<Vec<Sexp>, BoardError>)
    ensures
        match nodes(content@) {
            None => found is Err && found->Err_0 == BoardError::Brackets,
            Some(list) => match board_from(list, 0) {
                None => found is Err && found->Err_0 == BoardError::NoBoard,
                Some(items) => found is Ok && trees(found->Ok_0@) == items,
            },
        },
{
    let mut list: Vec<Sexp> = match parse_sexp(content) {
        Some(list) => list,
        None => {
            return Err(BoardError::Brackets);
        },
    };
    let ghost all = trees(list@);
    proof {
        lemma_trees(list@);
    }
    let mut i: usize = 0;
    while i < list.len()
        invariant
            i <= list@.len(),
            nodes(content@) == Some(all),
            all.len() == list@.len(),
            forall|j: int| 0 <= j < list@.len() ==> #[trigger] all[j] == tree(list@[j]),
            board_from(all, 0) == board_from(all, i as int),
        decreases list@.len() - i,
    {
        proof {
            assert(all[i as int] == tree(list@[i as int]));
        }
        if list[i].headed("kicad_pcb") {
            let node = list.remove(i);
            return match node {
                Sexp::List(items) => Ok(items),
                Sexp::Atom(_) => Ok(Vec::new()),
            };
        }
        i += 1;
    }
    Err(BoardError::NoBoard)
}

/// Reads what a board holds for a model. `turns` holds the cosine and the sine of the
/// angle of each part, in the order of the parts.
pub fn read_board(items: &Vec<Sexp>, turns: &Vec<(i64, i64)>) -> (pcb: PcbData)
    requires
        turns@.len() == angles_in(trees(items@)).len(),
        forall|j: int| 0 <= j < turns@.len() ==> is_turn(#[trigger] turns@[j]),
    ensures
        ({
            let list = trees(items@);
            let parts = footprints_in(list, places(turns@));
            &&& pcb.traces_fcu@ == traces_on(list, CopperLayer::FCu)
            &&& pcb.traces_bcu@ == traces_on(list, CopperLayer::BCu)
            &&& pcb.arc_traces@ == arcs_in(list)
            &&& via_models(pcb.vias@) == vias_in(list)
            &&& footprint_models(pcb.footprints@) == parts
            &&& pad_models(pcb.pads@) == pads_of_parts(parts)
            &&& (match pcb.outline {
                Some(ring) => Some(ring@),
                None => None,
            }) == outline_of(rings_in(list))
            &&& pcb.cutouts@ == cutouts_in(list, places(turns@)) + openings_of(rings_in(list))
        }),
{
    let footprints = read_footprints(items, turns);
    let pads = gather_pads(&footprints);
    let mut cutouts = read_cutouts(items, turns);
    let (outline, mut rest) = tell_apart(read_rings(items));
    cutouts.append(&mut rest);
    PcbData {
        outline,
        traces_fcu: read_traces(items, CopperLayer::FCu),
        traces_bcu: read_traces(items, CopperLayer::BCu),
        arc_traces: read_arcs(items),
        vias: read_vias(items),
        pads,
        footprints,
        cutouts,
    }
}

} // verus!
