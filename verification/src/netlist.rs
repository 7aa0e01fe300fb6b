//! Netlists: the parts of a schematic and the nets of their pins.

use crate::sexpr::{block_end, end_of_block, lemma_close_bounds, quoted_after};
use crate::tables::{changed, lemma_put_changed, listed, put, TextMap};
use crate::text::{find, find_from, lemma_find_is_first, same_str, to_chars, to_text};
use crate::tree::{
    child, field, is_headed, lemma_trees, nodes, parse_sexp, text_of, tree, trees, Sexp, Tree,
};
use vstd::prelude::*;
use vstd::slice::slice_subrange;

verus! {

/// The text, or no text where there is none.
pub open spec fn or_empty(text: Option<Seq<char>>) -> Seq<char> {
    match text {
        Some(t) => t,
        None => Seq::empty(),
    }
}

fn owned(text: Option<&String>) -> (out: String)
    ensures
        out@ == or_empty(text_of(text)),
{
    match text {
        Some(t) => t.clone(),
        None => String::new(),
    }
}

/// The footprint and the value of a part.
pub open spec fn both(part: (String, String)) -> (Seq<char>, Seq<char>) {
    (part.0@, part.1@)
}

/// The entries of a table of parts, as texts.
pub open spec fn part_list(entries: Seq<(String, (String, String))>) -> Seq<
    (Seq<char>, (Seq<char>, Seq<char>)),
> {
    changed(listed(entries), |p: (String, String)| both(p))
}

/// The parts among the nodes: the `comp` lists that give a reference, with the
/// footprint and the value they give. A later part takes the place of an earlier
/// one of the same reference.
pub open spec fn parts_among(items: Seq<Tree>) -> Seq<(Seq<char>, (Seq<char>, Seq<char>))>
    decreases items.len(),
{
    if items.len() == 0 {
        Seq::empty()
    } else {
        let known = parts_among(items.drop_last());
        let node = items.last();
        match field(node, "ref"@) {
            Some(reference) => if is_headed(node, "comp"@) {
                put(
                    known,
                    reference,
                    (or_empty(field(node, "footprint"@)), or_empty(field(node, "value"@))),
                )
            } else {
                known
            },
            None => known,
        }
    }
}

/// The parts that a netlist lists: those in the `components` list of the first node
/// that has one.
pub open spec fn parts_from(list: Seq<Tree>, from: int) -> Seq<
    (Seq<char>, (Seq<char>, Seq<char>)),
>
    decreases list.len() - from,
{
    if from < 0 || from >= list.len() {
        Seq::empty()
    } else {
        match child(list[from], "components"@) {
            Some(Tree::List(items)) => parts_among(items),
            _ => parts_from(list, from + 1),
        }
    }
}

/// Why no parts were read from a netlist.
#[derive(Clone, Copy, Debug, PartialEq, Eq)]
pub enum NetlistError {
    /// Brackets do not pair, or a quoted atom does not end.
    Malformed,
    /// No part is listed.
    NoParts,
}

fn read_parts_among(items: &Vec<Sexp>) -> (table: TextMap<(String, String)>)
    ensures
        table.well_formed(),
        part_list(table.entries@) == parts_among(trees(items@)),
{
    let ghost all = trees(items@);
    let mut table: TextMap<(String, String)> = TextMap::new();
    let mut i: usize = 0;
    proof {
        lemma_trees(items@);
        assert(part_list(table.entries@) =~= Seq::<(Seq<char>, (Seq<char>, Seq<char>))>::empty());
        assert(all.take(0).len() == 0);
    }
    while i < items.len()
        invariant
            i <= items.len(),
            all == trees(items@),
            all.len() == items@.len(),
            forall|j: int| 0 <= j < items@.len() ==> #[trigger] all[j] == tree(items@[j]),
            table.well_formed(),
            part_list(table.entries@) == parts_among(all.take(i as int)),
        decreases items.len() - i,
    {
        let node = &items[i];
        proof {
            assert(all[i as int] == tree(items@[i as int]));
            assert(all.take(i + 1).drop_last() =~= all.take(i as int));
            assert(all.take(i + 1).last() == tree(*node));
        }
        if node.headed("comp") {
            match node.get_field("ref") {
                Some(reference) => {
                    let footprint = owned(node.get_field("footprint"));
                    let value = owned(node.get_field("value"));
                    let ghost before = listed(table.entries@);
                    let ghost part = (footprint, value);
                    table.insert(reference.clone(), (footprint, value));
                    proof {
                        lemma_put_changed(
                            before,
                            |p: (String, String)| both(p),
                            reference@,
                            part,
                        );
                    }
                },
                None => {},
            }
        }
        i += 1;
    }
    proof {
        assert(all.take(all.len() as int) =~= all);
    }
    table
}

/// The parts of a schematic, as its netlist lists them: footprint and value of each,
/// by reference.
pub fn read_parts(netlist: &str) -> (found: Result<TextMap<(String, String)>, NetlistError>)
    ensures
        match nodes(netlist@) {
            None => found == Err::<TextMap<(String, String)>, NetlistError>(
                NetlistError::Malformed,
            ),
            Some(list) => {
                let parts = parts_from(list, 0);
                &&& found is Ok <==> parts.len() > 0
                &&& found is Err ==> found->Err_0 == NetlistError::NoParts
                &&& found matches Ok(table) ==> {
                    &&& table.well_formed()
                    &&& part_list(table.entries@) == parts
                }
            },
        },
{
    let list = match parse_sexp(netlist) {
        None => {
            return Err(NetlistError::Malformed);
        },
        Some(list) => list,
    };
    let ghost all = trees(list@);
    proof {
        lemma_trees(list@);
    }
    let mut i: usize = 0;
    while i < list.len()
        invariant
            i <= list.len(),
            all == trees(list@),
            all.len() == list@.len(),
            nodes(netlist@) == Some(all),
            forall|j: int| 0 <= j < list@.len() ==> #[trigger] all[j] == tree(list@[j]),
            parts_from(all, 0) == parts_from(all, i as int),
        decreases list.len() - i,
    {
        proof {
            assert(all[i as int] == tree(list@[i as int]));
        }
        match list[i].get_child("components") {
            Some(components) => match components.as_list() {
                Some(items) => {
                    let table = read_parts_among(items);
                    proof {
                        assert(part_list(table.entries@).len() == table.entries@.len());
                    }
                    if table.len() == 0 {
                        return Err(NetlistError::NoParts);
                    }
                    return Ok(table);
                },
                None => {},
            },
            None => {},
        }
        i += 1;
    }
    Err(NetlistError::NoParts)
}

/// What stands quoted after a keyword: nothing if the keyword is not there, and no
/// text if no quotation mark ends it.
pub open spec fn quoted_if_any(block: Seq<char>, marker: Seq<char>) -> Option<Seq<char>> {
    match find(block, marker, 0) {
        None => None,
        Some(at) => Some(or_empty(quoted_after(block, marker))),
    }
}

fn read_quoted_if_any(block: &[char], marker: &str) -> (value: Option<String>)
    ensures
        value is Some == quoted_if_any(block@, marker@) is Some,
        value matches Some(v) ==> quoted_if_any(block@, marker@) == Some(v@),
{
    let mark = to_chars(marker);
    match find_from(block, mark.as_slice(), 0) {
        None => None,
        Some(_) => match crate::sexpr::quoted(block, mark.as_slice()) {
            Some(v) => Some(to_text(v.as_slice())),
            None => Some(String::new()),
        },
    }
}

/// The net of a pin: reference, pin and net.
#[derive(Debug)]
pub struct PinNet {
    pub reference: String,
    pub pin: String,
    pub net: String,
}

/// A pin's net, as texts: reference, pin and net.
pub open spec fn pin_net(p: PinNet) -> (Seq<char>, Seq<char>, Seq<char>) {
    (p.reference@, p.pin@, p.net@)
}

pub open spec fn pin_net_list(list: Seq<PinNet>) -> Seq<(Seq<char>, Seq<char>, Seq<char>)> {
    list.map_values(|p: PinNet| pin_net(p))
}

/// The first place from `from` on that speaks of a pin.
pub open spec fn pin_place(
    list: Seq<(Seq<char>, Seq<char>, Seq<char>)>,
    reference: Seq<char>,
    pin: Seq<char>,
    from: int,
) -> Option<int>
    decreases list.len() - from,
{
    if from < 0 || from >= list.len() {
        None
    } else if list[from].0 == reference && list[from].1 == pin {
        Some(from)
    } else {
        pin_place(list, reference, pin, from + 1)
    }
}

/// The list with a pin on a net; a pin is on one net only, the last it was put on.
pub open spec fn on_net(
    list: Seq<(Seq<char>, Seq<char>, Seq<char>)>,
    reference: Seq<char>,
    pin: Seq<char>,
    net: Seq<char>,
) -> Seq<(Seq<char>, Seq<char>, Seq<char>)> {
    match pin_place(list, reference, pin, 0) {
        Some(i) => list.update(i, (reference, pin, net)),
        None => list.push((reference, pin, net)),
    }
}

fn put_on_net(list: &mut Vec<PinNet>, reference: String, pin: String, net: &String)
    ensures
        pin_net_list(final(list)@) == on_net(
            pin_net_list(old(list)@),
            reference@,
            pin@,
            net@,
        ),
{
    let ghost start = pin_net_list(list@);
    let mut i: usize = 0;
    while i < list.len()
        invariant
            i <= list.len(),
            list@ == old(list)@,
            start == pin_net_list(list@),
            pin_place(start, reference@, pin@, 0) == pin_place(start, reference@, pin@, i as int),
        decreases list.len() - i,
    {
        proof {
            assert(start[i as int] == pin_net(list@[i as int]));
        }
        if same_str(list[i].reference.as_str(), reference.as_str()) && same_str(
            list[i].pin.as_str(),
            pin.as_str(),
        ) {
            let entry = PinNet { reference, pin, net: net.clone() };
            list[i] = entry;
            proof {
                assert(pin_net_list(list@) =~= start.update(i as int, pin_net(entry)));
            }
            return;
        }
        i += 1;
    }
    let entry = PinNet { reference, pin, net: net.clone() };
    list.push(entry);
    proof {
        assert(pin_net_list(list@) =~= start.push(pin_net(entry)));
    }
}

/// The pins of a net's block from `from` on, put on the net.
pub open spec fn net_pins(
    block: Seq<char>,
    from: int,
    net: Seq<char>,
    known: Seq<(Seq<char>, Seq<char>, Seq<char>)>,
) -> Seq<(Seq<char>, Seq<char>, Seq<char>)>
    decreases block.len() - from,
    when 0 <= from
    via net_pins_decreases
{
    match find(block, "(node"@, from) {
        None => known,
        Some(at) => {
            let end = end_of_block(block, at);
            let node = block.subrange(at, end);
            let next = match (quoted_if_any(node, "(ref \""@), quoted_if_any(node, "(pin \""@)) {
                (Some(reference), Some(pin)) => on_net(known, reference, pin, net),
                _ => known,
            };
            net_pins(block, end, net, next)
        },
    }
}

proof fn lemma_block_ahead(text: Seq<char>, pattern: Seq<char>, from: int)
    requires
        0 <= from,
        pattern.len() > 0,
    ensures
        find(text, pattern, from) matches Some(at) ==> from <= at < end_of_block(text, at)
            <= text.len(),
{
    if from <= text.len() {
        lemma_find_is_first(text, pattern, from);
    }
    if let Some(at) = find(text, pattern, from) {
        lemma_close_bounds(text, at, 0, false);
    }
}

#[via_fn]
proof fn net_pins_decreases(
    block: Seq<char>,
    from: int,
    net: Seq<char>,
    known: Seq<(Seq<char>, Seq<char>, Seq<char>)>,
) {
    reveal_strlit("(node");
    lemma_block_ahead(block, "(node"@, from);
}

/// Where the next net opens, from `from` on: a line that ends behind `(net` if there is
/// one, else where a space follows.
pub open spec fn next_net(text: Seq<char>, from: int) -> Option<int> {
    match find(text, "(net\n"@, from) {
        Some(at) => Some(at),
        None => match find(text, "(net\r"@, from) {
            Some(at) => Some(at),
            None => find(text, "(net "@, from),
        },
    }
}

/// The pins of the nets from `from` on.
pub open spec fn nets_from(
    text: Seq<char>,
    from: int,
    known: Seq<(Seq<char>, Seq<char>, Seq<char>)>,
) -> Seq<(Seq<char>, Seq<char>, Seq<char>)>
    decreases text.len() - from,
    when 0 <= from
    via nets_from_decreases
{
    match next_net(text, from) {
        None => known,
        Some(at) => {
            let end = end_of_block(text, at);
            let block = text.subrange(at, end);
            let next = match quoted_if_any(block, "(name \""@) {
                Some(net) => net_pins(block, 0, net, known),
                None => known,
            };
            nets_from(text, end, next)
        },
    }
}

#[via_fn]
proof fn nets_from_decreases(
    text: Seq<char>,
    from: int,
    known: Seq<(Seq<char>, Seq<char>, Seq<char>)>,
) {
    lemma_net_ahead(text, from);
}

proof fn lemma_net_ahead(text: Seq<char>, from: int)
    requires
        0 <= from,
    ensures
        next_net(text, from) matches Some(at) ==> from <= at < end_of_block(text, at) <= text.len(),
{
    reveal_strlit("(net\n");
    reveal_strlit("(net\r");
    reveal_strlit("(net ");
    lemma_block_ahead(text, "(net\n"@, from);
    lemma_block_ahead(text, "(net\r"@, from);
    lemma_block_ahead(text, "(net "@, from);
}

/// The net of each pin that a netlist connects.
pub open spec fn pin_nets(netlist: Seq<char>) -> Seq<(Seq<char>, Seq<char>, Seq<char>)> {
    match find(netlist, "(nets"@, 0) {
        None => Seq::empty(),
        Some(at) => nets_from(netlist.skip(at), 0, Seq::empty()),
    }
}

fn read_net_pins(block: &[char], net: &String, list: &mut Vec<PinNet>)
    ensures
        pin_net_list(final(list)@) == net_pins(block@, 0, net@, pin_net_list(old(list)@)),
{
    let mark = to_chars("(node");
    proof {
        reveal_strlit("(node");
    }
    let mut at: usize = 0;
    while at < block.len()
        invariant
            mark@ == "(node"@,
            "(node"@.len() > 0,
            at <= block@.len(),
            net_pins(block@, 0, net@, pin_net_list(old(list)@)) == net_pins(
                block@,
                at as int,
                net@,
                pin_net_list(list@),
            ),
        decreases block@.len() - at,
    {
        proof {
            lemma_block_ahead(block@, "(node"@, at as int);
        }
        match find_from(block, mark.as_slice(), at) {
            None => {
                return;
            },
            Some(start) => {
                let end: usize = block_end(block, start);
                let node = slice_subrange(block, start, end);
                match (read_quoted_if_any(node, "(ref \""), read_quoted_if_any(node, "(pin \"")) {
                    (Some(reference), Some(pin)) => {
                        put_on_net(list, reference, pin, net);
                    },
                    _ => {},
                }
                at = end;
            },
        }
    }
    proof {
        lemma_block_ahead(block@, "(node"@, at as int);
    }
}

fn find_next_net(text: &[char], from: usize) -> (at: Option<usize>)
    requires
        from <= text@.len(),
    ensures
        at is Some == next_net(text@, from as int) is Some,
        at matches Some(p) ==> next_net(text@, from as int) == Some(p as int) && p < text@.len(),
{
    let line = to_chars("(net\n");
    let other = to_chars("(net\r");
    let short = to_chars("(net ");
    proof {
        reveal_strlit("(net\n");
        reveal_strlit("(net\r");
        reveal_strlit("(net ");
        lemma_block_ahead(text@, "(net\n"@, from as int);
        lemma_block_ahead(text@, "(net\r"@, from as int);
        lemma_block_ahead(text@, "(net "@, from as int);
    }
    match find_from(text, line.as_slice(), from) {
        Some(at) => Some(at),
        None => match find_from(text, other.as_slice(), from) {
            Some(at) => Some(at),
            None => find_from(text, short.as_slice(), from),
        },
    }
}

/// The net of each pin that a netlist connects, in the order in which the pins
/// first come.
pub fn read_pin_nets(netlist: &str) -> (list: Vec<PinNet>)
    ensures
        pin_net_list(list@) == pin_nets(netlist@),
{
    let whole = to_chars(netlist);
    let mark = to_chars("(nets");
    let mut list: Vec<PinNet> = Vec::new();
    proof {
        assert(pin_net_list(list@) =~= Seq::empty());
    }
    let start: usize = match find_from(whole.as_slice(), mark.as_slice(), 0) {
        None => {
            return list;
        },
        Some(at) => at,
    };
    let text = slice_subrange(whole.as_slice(), start, whole.len());
    proof {
        assert(text@ =~= whole@.skip(start as int));
    }
    let mut at: usize = 0;
    while at < text.len()
        invariant
            at <= text@.len(),
            pin_nets(netlist@) == nets_from(text@, at as int, pin_net_list(list@)),
        decreases text@.len() - at,
    {
        proof {
            lemma_net_ahead(text@, at as int);
        }
        match find_next_net(text, at) {
            None => {
                return list;
            },
            Some(open) => {
                let end: usize = block_end(text, open);
                let block = slice_subrange(text, open, end);
                match read_quoted_if_any(block, "(name \"") {
                    Some(net) => {
                        read_net_pins(block, &net, &mut list);
                    },
                    None => {},
                }
                at = end;
            },
        }
    }
    proof {
        lemma_net_ahead(text@, at as int);
    }
    list
}

/// A pin that was put on a net is on that net, and on no other.
pub proof fn lemma_on_net(
    list: Seq<(Seq<char>, Seq<char>, Seq<char>)>,
    reference: Seq<char>,
    pin: Seq<char>,
    net: Seq<char>,
)
    requires
        forall|i: int, j: int|
            0 <= i < j < list.len() ==> (#[trigger] list[i]).0 != (#[trigger] list[j]).0
                || list[i].1 != list[j].1,
    ensures
        ({
            let out = on_net(list, reference, pin, net);
            &&& forall|i: int, j: int|
                0 <= i < j < out.len() ==> (#[trigger] out[i]).0 != (#[trigger] out[j]).0
                    || out[i].1 != out[j].1
            &&& exists|i: int| 0 <= i < out.len() && #[trigger] out[i] == (reference, pin, net)
            &&& forall|i: int|
                0 <= i < list.len() && !((#[trigger] list[i]).0 == reference && list[i].1 == pin)
                    ==> out[i] == list[i]
        }),
{
    lemma_pin_place(list, reference, pin, 0);
    let out = on_net(list, reference, pin, net);
    match pin_place(list, reference, pin, 0) {
        Some(i) => {
            assert(out[i] == (reference, pin, net));
        },
        None => {
            assert(out[list.len() as int] == (reference, pin, net));
        },
    }
}

proof fn lemma_pin_place(
    list: Seq<(Seq<char>, Seq<char>, Seq<char>)>,
    reference: Seq<char>,
    pin: Seq<char>,
    from: int,
)
    requires
        0 <= from,
    ensures
        match pin_place(list, reference, pin, from) {
            Some(i) => from <= i < list.len() && list[i].0 == reference && list[i].1 == pin,
            None => forall|i: int|
                from <= i < list.len() ==> (#[trigger] list[i]).0 != reference || list[i].1 != pin,
        },
    decreases list.len() - from,
{
    if from < list.len() && !(list[from].0 == reference && list[from].1 == pin) {
        lemma_pin_place(list, reference, pin, from + 1);
    }
}

} // verus!
