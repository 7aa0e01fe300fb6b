//! Pads of a board: reading them, and what they say of their nets.

use crate::decimal::{nanometres, parse_nanometres};
use crate::fields::{field_numerals, parse_quoted_field, parse_xy_field, read_field_numerals, views, xy_numerals};
use crate::footprints::{
    footprint_table, footprints, lemma_footprints, placement, read_placement, span_list,
};
use crate::netlist::or_empty;
use crate::placing::{turn_and_move, turned};
use crate::sexpr::{block_end, end_of_block, lemma_close_bounds, pair, quoted_after};
use crate::strings::{
    decimal, extend_left, extend_repeat, extend_right, join, joined, left, number, right, sort, sorted,
    strings,
};
use crate::tables::place;
use crate::text::{
    contains, extend, extend_str, find, find_from, has_at, has_str, lemma_find_is_first, matches_at,
    same_str, to_chars, to_text,
};
use vstd::prelude::*;
use vstd::slice::slice_subrange;

verus! {

/// The number of a pad, from its block.
pub open spec fn pad_number(block: Seq<char>) -> Option<Seq<char>> {
    let marker = "(pad \""@;
    if !matches_at(block, marker, 0) {
        None
    } else {
        match find(block, seq!['"'], marker.len() as int) {
            None => None,
            Some(end) => Some(block.subrange(marker.len() as int, end)),
        }
    }
}

fn read_pad_number(block: &[char]) -> (number: Option<String>)
    ensures
        number is Some == pad_number(block@) is Some,
        number matches Some(n) ==> pad_number(block@) == Some(n@),
{
    let marker = to_chars("(pad \"");
    if !has_at(block, marker.as_slice(), 0) {
        return None;
    }
    let mark: Vec<char> = vec!['"'];
    proof {
        assert(mark@ =~= seq!['"']);
    }
    match find_from(block, mark.as_slice(), marker.len()) {
        None => None,
        Some(end) => Some(to_text(slice_subrange(block, marker.len(), end))),
    }
}

/// The number of a pad, from its block: `(pad "NUM" ...`.
pub fn extract_pad_number(block: &str) -> (number: Option<String>)
    ensures
        number is Some == pad_number(block@) is Some,
        number matches Some(n) ==> pad_number(block@) == Some(n@),
{
    let text = to_chars(block);
    read_pad_number(text.as_slice())
}

/// Where a pad stands in its footprint, as it is written.
pub fn extract_pad_at(block: &str) -> (place: Option<(String, String)>)
    ensures
        place is Some == xy_numerals(block@, "(at "@) is Some,
        place matches Some((x, y)) ==> xy_numerals(block@, "(at "@) == Some((x@, y@)),
{
    parse_xy_field(block, "(at ")
}

/// How large a pad is, as it is written: exactly two numerals.
pub open spec fn pad_size(block: Seq<char>) -> Option<(Seq<char>, Seq<char>)> {
    match field_numerals(block, "(size "@) {
        Some(n) => if n.len() == 2 {
            Some((n[0], n[1]))
        } else {
            None
        },
        None => None,
    }
}

/// How large a pad is, as it is written.
pub fn extract_pad_size(block: &str) -> (size: Option<(String, String)>)
    ensures
        size is Some == pad_size(block@) is Some,
        size matches Some((w, h)) ==> pad_size(block@) == Some((w@, h@)),
{
    let text = to_chars(block);
    let marker = to_chars("(size ");
    match read_field_numerals(text.as_slice(), marker.as_slice()) {
        None => None,
        Some(n) => {
            proof {
                assert(views(n@).len() == n@.len());
            }
            if n.len() == 2 {
                proof {
                    assert(views(n@)[0] == n@[0]@);
                    assert(views(n@)[1] == n@[1]@);
                }
                Some((to_text(n[0].as_slice()), to_text(n[1].as_slice())))
            } else {
                None
            }
        },
    }
}

/// The net of a pad, from its block.
pub fn extract_pcb_pad_net(block: &str) -> (net: Option<String>)
    ensures
        net is Some == quoted_after(block@, "(net \""@) is Some,
        net matches Some(n) ==> quoted_after(block@, "(net \""@) == Some(n@),
{
    parse_quoted_field(block, "(net \"")
}

/// The quoted texts from `from` on.
pub open spec fn quoted_texts(text: Seq<char>, from: int) -> Seq<Seq<char>>
    decreases text.len() - from,
    when 0 <= from
    via quoted_texts_decreases
{
    match find(text, seq!['"'], from) {
        None => Seq::empty(),
        Some(open) => match find(text, seq!['"'], open + 1) {
            None => Seq::empty(),
            Some(close) => seq![text.subrange(open + 1, close)] + quoted_texts(text, close + 1),
        },
    }
}

proof fn lemma_quotes_ahead(text: Seq<char>, from: int)
    requires
        0 <= from,
    ensures
        find(text, seq!['"'], from) matches Some(open) ==> {
            &&& from <= open < text.len()
            &&& find(text, seq!['"'], open + 1) matches Some(close) ==> open < close < text.len()
        },
{
    lemma_find_is_first(text, seq!['"'], from);
    if let Some(open) = find(text, seq!['"'], from) {
        lemma_find_is_first(text, seq!['"'], open + 1);
    }
}

#[via_fn]
proof fn quoted_texts_decreases(text: Seq<char>, from: int) {
    lemma_quotes_ahead(text, from);
}

/// The layers that a block lists.
pub open spec fn layers_of(block: Seq<char>) -> Seq<Seq<char>> {
    let marker = "(layers "@;
    match find(block, marker, 0) {
        None => Seq::empty(),
        Some(at) => match find(block, seq![')'], at + marker.len()) {
            None => Seq::empty(),
            Some(close) => quoted_texts(block.subrange(at + marker.len(), close), 0),
        },
    }
}

fn read_quoted_texts(text: &[char]) -> (out: Vec<String>)
    ensures
        strings(out@) == quoted_texts(text@, 0),
{
    let mark: Vec<char> = vec!['"'];
    let mut out: Vec<String> = Vec::new();
    let mut at: usize = 0;
    proof {
        assert(mark@ =~= seq!['"']);
        assert(strings(out@) + quoted_texts(text@, 0) =~= quoted_texts(text@, 0));
    }
    loop
        invariant
            at <= text.len(),
            mark@ == seq!['"'],
            quoted_texts(text@, 0) == strings(out@) + quoted_texts(text@, at as int),
        decreases text.len() - at,
    {
        proof {
            lemma_quotes_ahead(text@, at as int);
            assert(strings(out@) + Seq::<Seq<char>>::empty() =~= strings(out@));
        }
        match find_from(text, mark.as_slice(), at) {
            None => {
                return out;
            },
            Some(open) => match find_from(text, mark.as_slice(), open + 1) {
                None => {
                    return out;
                },
                Some(close) => {
                    let ghost done = out@;
                    let inner = slice_subrange(text, open + 1, close);
                    out.push(to_text(inner));
                    proof {
                        assert(strings(out@) =~= strings(done).push(inner@));
                        assert(strings(done) + (seq![inner@] + quoted_texts(text@, close + 1))
                            =~= strings(out@) + quoted_texts(text@, close + 1));
                    }
                    at = close + 1;
                },
            },
        }
    }
}

fn read_layers(block: &[char]) -> (out: Vec<String>)
    ensures
        strings(out@) == layers_of(block@),
{
    let marker = to_chars("(layers ");
    let mark: Vec<char> = vec![')'];
    let none: Vec<String> = Vec::new();
    proof {
        assert(mark@ =~= seq![')']);
        assert(strings(none@) =~= Seq::<Seq<char>>::empty());
    }
    match find_from(block, marker.as_slice(), 0) {
        None => none,
        Some(at) => {
            let start: usize = at + marker.len();
            match find_from(block, mark.as_slice(), start) {
                None => none,
                Some(close) => read_quoted_texts(slice_subrange(block, start, close)),
            }
        },
    }
}

/// The layers that a block lists: `(layers "L1" "L2" ...)`.
pub fn parse_layers_field(block: &str) -> (out: Vec<String>)
    ensures
        strings(out@) == layers_of(block@),
{
    let text = to_chars(block);
    read_layers(text.as_slice())
}

/// A pad as a board gives it: numbers are as they are written.
#[derive(Debug)]
pub struct RawPad {
    /// The reference of the footprint.
    pub reference: String,
    pub pad_num: String,
    pub net: String,
    /// Where the footprint is placed: across, down and turn.
    pub place: (String, String, String),
    /// Where the pad stands in the footprint.
    pub offset: (String, String),
    pub size: (String, String),
    pub is_thru_hole: bool,
    pub layers: Vec<String>,
}

/// A pad as a board gives it, in texts.
#[verifier::ext_equal]
pub struct RawPadModel {
    pub reference: Seq<char>,
    pub pad_num: Seq<char>,
    pub net: Seq<char>,
    pub place: (Seq<char>, Seq<char>, Seq<char>),
    pub offset: (Seq<char>, Seq<char>),
    pub size: (Seq<char>, Seq<char>),
    pub is_thru_hole: bool,
    pub layers: Seq<Seq<char>>,
}

pub open spec fn raw_model(p: RawPad) -> RawPadModel {
    RawPadModel {
        reference: p.reference@,
        pad_num: p.pad_num@,
        net: p.net@,
        place: (p.place.0@, p.place.1@, p.place.2@),
        offset: (p.offset.0@, p.offset.1@),
        size: (p.size.0@, p.size.1@),
        is_thru_hole: p.is_thru_hole,
        layers: strings(p.layers@),
    }
}

pub open spec fn raw_models(list: Seq<RawPad>) -> Seq<RawPadModel> {
    list.map_values(|p: RawPad| raw_model(p))
}

/// The two texts, or zeros.
pub open spec fn or_zeros(texts: Option<(Seq<char>, Seq<char>)>) -> (Seq<char>, Seq<char>) {
    match texts {
        Some(t) => t,
        None => ("0"@, "0"@),
    }
}

/// Where a footprint is placed, or the origin.
pub open spec fn place_or_origin(block: Seq<char>) -> (Seq<char>, Seq<char>, Seq<char>) {
    match placement(block) {
        Some(p) => p,
        None => ("0"@, "0"@, "0"@),
    }
}

/// The pad that a block describes, in a footprint with the given reference and
/// place.
pub open spec fn pad_of(
    block: Seq<char>,
    reference: Seq<char>,
    place: (Seq<char>, Seq<char>, Seq<char>),
) -> Option<RawPadModel> {
    match pad_number(block) {
        None => None,
        Some(pad_num) => Some(
            RawPadModel {
                reference,
                pad_num,
                net: or_empty(quoted_after(block, "(net \""@)),
                place,
                offset: or_zeros(xy_numerals(block, "(at "@)),
                size: or_zeros(pad_size(block)),
                is_thru_hole: contains(block, "thru_hole"@) || contains(block, "\"*.Cu\""@),
                layers: layers_of(block),
            },
        ),
    }
}

/// The pads of a footprint's block from `from` on.
pub open spec fn pads_from(
    block: Seq<char>,
    from: int,
    reference: Seq<char>,
    place: (Seq<char>, Seq<char>, Seq<char>),
) -> Seq<RawPadModel>
    decreases block.len() - from,
    when 0 <= from
    via pads_from_decreases
{
    match find(block, "(pad \""@, from) {
        None => Seq::empty(),
        Some(at) => {
            let end = end_of_block(block, at);
            let rest = pads_from(block, end, reference, place);
            match pad_of(block.subrange(at, end), reference, place) {
                Some(pad) => seq![pad] + rest,
                None => rest,
            }
        },
    }
}

proof fn lemma_pad_ahead(block: Seq<char>, from: int)
    requires
        0 <= from,
    ensures
        find(block, "(pad \""@, from) matches Some(at) ==> from <= at < end_of_block(block, at)
            <= block.len(),
{
    reveal_strlit("(pad \"");
    lemma_find_is_first(block, "(pad \""@, from);
    if let Some(at) = find(block, "(pad \""@, from) {
        lemma_close_bounds(block, at, 0, false);
    }
}

#[via_fn]
proof fn pads_from_decreases(
    block: Seq<char>,
    from: int,
    reference: Seq<char>,
    place: (Seq<char>, Seq<char>, Seq<char>),
) {
    lemma_pad_ahead(block, from);
}

/// The pads of a footprint.
pub open spec fn footprint_pads(block: Seq<char>, reference: Seq<char>) -> Seq<RawPadModel> {
    pads_from(block, 0, reference, place_or_origin(block))
}

/// The pads of the listed footprints.
pub open spec fn pads_among(text: Seq<char>, list: Seq<(Seq<char>, (int, int))>) -> Seq<
    RawPadModel,
>
    decreases list.len(),
{
    if list.len() == 0 {
        Seq::empty()
    } else {
        let (reference, span) = list.last();
        pads_among(text, list.drop_last()) + footprint_pads(
            text.subrange(span.0, span.1),
            reference,
        )
    }
}

/// The pads of a board, footprint by footprint.
pub open spec fn board_pads(text: Seq<char>) -> Seq<RawPadModel> {
    pads_among(text, footprints(text))
}

pub open spec fn texts3(t: (String, String, String)) -> (Seq<char>, Seq<char>, Seq<char>) {
    (t.0@, t.1@, t.2@)
}

fn zeros_unless(texts: Option<(String, String)>) -> (out: (String, String))
    ensures
        (out.0@, out.1@) == or_zeros(crate::sync::two_texts(texts)),
{
    match texts {
        Some(t) => t,
        None => ("0".to_string(), "0".to_string()),
    }
}

fn read_pad(block: &[char], reference: &str, place: &(String, String, String)) -> (pad: Option<
    RawPad,
>)
    ensures
        pad is Some == pad_of(block@, reference@, texts3(*place)) is Some,
        pad matches Some(p) ==> pad_of(block@, reference@, texts3(*place)) == Some(raw_model(p)),
{
    let pad_num = match read_pad_number(block) {
        None => {
            return None;
        },
        Some(n) => n,
    };
    let text = to_text(block);
    let net: String = match extract_pcb_pad_net(text.as_str()) {
        Some(n) => n,
        None => String::new(),
    };
    let offset = zeros_unless(extract_pad_at(text.as_str()));
    let size = zeros_unless(extract_pad_size(text.as_str()));
    let is_thru_hole: bool = has_str(block, "thru_hole") || has_str(block, "\"*.Cu\"");
    let pad = RawPad {
        reference: reference.to_string(),
        pad_num,
        net,
        place: (place.0.clone(), place.1.clone(), place.2.clone()),
        offset,
        size,
        is_thru_hole,
        layers: read_layers(block),
    };
    proof {
        assert(pad.net@ =~= or_empty(quoted_after(block@, "(net \""@)));
        assert(raw_model(pad) =~= pad_of(block@, reference@, texts3(*place))->0);
    }
    Some(pad)
}

fn read_footprint_pads(block: &[char], reference: &str, out: &mut Vec<RawPad>)
    ensures
        raw_models(final(out)@) == raw_models(old(out)@) + footprint_pads(block@, reference@),
{
    let place = match read_placement(block) {
        Some(p) => p,
        None => ("0".to_string(), "0".to_string(), "0".to_string()),
    };
    let marker = to_chars("(pad \"");
    let mut at: usize = 0;
    let ghost start = raw_models(out@);
    let ghost where_ = texts3(place);
    let ghost all = footprint_pads(block@, reference@);
    proof {
        assert(where_ == place_or_origin(block@));
        assert(raw_models(out@) + all =~= start + all);
    }
    loop
        invariant
            at <= block.len(),
            marker@ == "(pad \""@,
            where_ == texts3(place),
            start + all == raw_models(out@) + pads_from(block@, at as int, reference@, where_),
        ensures
            raw_models(out@) == start + all,
        decreases block.len() - at,
    {
        proof {
            lemma_pad_ahead(block@, at as int);
            assert(raw_models(out@) + Seq::<RawPadModel>::empty() =~= raw_models(out@));
        }
        match find_from(block, marker.as_slice(), at) {
            None => {
                break;
            },
            Some(open) => {
                let end: usize = block_end(block, open);
                let ghost rest = pads_from(block@, end as int, reference@, where_);
                let ghost done = out@;
                match read_pad(slice_subrange(block, open, end), reference, &place) {
                    Some(pad) => {
                        out.push(pad);
                        proof {
                            assert(raw_models(out@) =~= raw_models(done).push(raw_model(pad)));
                            assert(raw_models(done) + (seq![raw_model(pad)] + rest) =~= raw_models(
                                out@,
                            ) + rest);
                        }
                    },
                    None => {},
                }
                at = end;
            },
        }
    }
}

/// The pads of a board, footprint by footprint, as the board gives them.
pub fn parse_pcb_pads(content: &str) -> (out: Vec<RawPad>)
    ensures
        raw_models(out@) == board_pads(content@),
{
    let text = to_chars(content);
    let table = footprint_table(text.as_slice());
    let ghost all = span_list(table.entries@);
    let mut out: Vec<RawPad> = Vec::new();
    let mut i: usize = 0;
    proof {
        lemma_footprints(text@);
        assert(all.take(0).len() == 0);
        assert(raw_models(out@) =~= Seq::<RawPadModel>::empty());
    }
    while i < table.entries.len()
        invariant
            i <= table.entries@.len(),
            all == span_list(table.entries@),
            all == footprints(text@),
            forall|j: int|
                0 <= j < all.len() ==> 0 <= (#[trigger] all[j]).1.0 < all[j].1.1 <= text@.len(),
            raw_models(out@) == pads_among(text@, all.take(i as int)),
        decreases table.entries@.len() - i,
    {
        let entry = &table.entries[i];
        proof {
            assert(all[i as int] == (entry.0@, pair(entry.1)));
            assert(all.take(i + 1).drop_last() =~= all.take(i as int));
            assert(all.take(i + 1).last() == all[i as int]);
        }
        let block = slice_subrange(text.as_slice(), entry.1.start, entry.1.end);
        read_footprint_pads(block, entry.0.as_str(), &mut out);
        i += 1;
    }
    proof {
        assert(all.take(all.len() as int) =~= all);
    }
    out
}

/// A pad at its place on the board; lengths are in nanometres.
#[derive(Debug)]
pub struct PcbPad {
    pub reference: String,
    pub pad_num: String,
    pub net: String,
    pub x: i64,
    pub y: i64,
    pub width: i64,
    pub height: i64,
    pub is_thru_hole: bool,
    pub layers: Vec<String>,
}

/// The length that a numeral gives, in nanometres; none counts as zero.
pub open spec fn length_of(text: Seq<char>) -> int {
    match nanometres(text) {
        Some(n) => n,
        None => 0,
    }
}

fn read_length(text: &String) -> (n: i64)
    ensures
        n == length_of(text@),
{
    let chars = to_chars(text.as_str());
    match parse_nanometres(chars.as_slice()) {
        Some(n) => n,
        None => 0,
    }
}

/// Puts a pad at its place on the board; `cos` and `sin` are those of the angle of
/// its footprint, in billionths. None if the place is out of range.
pub fn place_pad(raw: RawPad, cos: i64, sin: i64) -> (placed: Option<PcbPad>)
    requires
        -1_000_000_000 <= cos <= 1_000_000_000,
        -1_000_000_000 <= sin <= 1_000_000_000,
    ensures
        ({
            let offset = (length_of(raw.offset.0@), length_of(raw.offset.1@));
            let t = turned(offset, cos as int, sin as int);
            let x = length_of(raw.place.0@) + t.0;
            let y = length_of(raw.place.1@) + t.1;
            &&& placed is Some == (i64::MIN <= x <= i64::MAX && i64::MIN <= y <= i64::MAX)
            &&& placed matches Some(pad) ==> {
                &&& pad.reference@ == raw.reference@
                &&& pad.pad_num@ == raw.pad_num@
                &&& pad.net@ == raw.net@
                &&& pad.x == x
                &&& pad.y == y
                &&& pad.width == length_of(raw.size.0@)
                &&& pad.height == length_of(raw.size.1@)
                &&& pad.is_thru_hole == raw.is_thru_hole
                &&& pad.layers == raw.layers
            }
        }),
{
    let width: i64 = read_length(&raw.size.0);
    let height: i64 = read_length(&raw.size.1);
    let offset = (read_length(&raw.offset.0), read_length(&raw.offset.1));
    let stand = (read_length(&raw.place.0), read_length(&raw.place.1));
    match turn_and_move(offset, cos, sin, stand) {
        None => None,
        Some(p) => Some(
            PcbPad {
                reference: raw.reference,
                pad_num: raw.pad_num,
                net: raw.net,
                x: p.0,
                y: p.1,
                width,
                height,
                is_thru_hole: raw.is_thru_hole,
                layers: raw.layers,
            },
        ),
    }
}

/// The nets that pads are on, each once, in the order in which they first come.
pub open spec fn net_names(pads: Seq<RawPadModel>) -> Seq<Seq<char>>
    decreases pads.len(),
{
    if pads.len() == 0 {
        Seq::empty()
    } else {
        let known = net_names(pads.drop_last());
        if known.contains(pads.last().net) {
            known
        } else {
            known.push(pads.last().net)
        }
    }
}

/// The pads on a net, each as its reference and number.
pub open spec fn pads_on(pads: Seq<RawPadModel>, net: Seq<char>) -> Seq<Seq<char>>
    decreases pads.len(),
{
    if pads.len() == 0 {
        Seq::empty()
    } else {
        let known = pads_on(pads.drop_last(), net);
        let pad = pads.last();
        if pad.net == net {
            known.push(pad.reference + "/"@ + pad.pad_num)
        } else {
            known
        }
    }
}

/// The line of a net: its name in quotation marks, how many pads are on it, and
/// which.
pub open spec fn net_line(pads: Seq<RawPadModel>, net: Seq<char>) -> Seq<char> {
    let on = pads_on(pads, net);
    left("\""@ + net + "\""@, 45) + " "@ + right(decimal(on.len()), 5) + "  "@ + joined(on, ", "@)
        + "\n"@
}

pub open spec fn net_lines(pads: Seq<RawPadModel>, nets: Seq<Seq<char>>) -> Seq<char>
    decreases nets.len(),
{
    if nets.len() == 0 {
        Seq::empty()
    } else {
        net_lines(pads, nets.drop_last()) + net_line(pads, nets.last())
    }
}

/// As many dashes.
pub open spec fn dashes(n: nat) -> Seq<char> {
    Seq::new(n, |i: int| '-')
}

/// What is said of the nets of a board.
pub open spec fn net_list(path: Seq<char>, pads: Seq<RawPadModel>) -> Seq<char> {
    let nets = sorted(net_names(pads));
    "Nets in "@ + path + ":\n\n"@ + left("Net name"@, 45) + " "@ + right("Pads"@, 5)
        + "  Connected pads\n"@ + dashes(90) + "\n"@ + net_lines(pads, nets) + "\nTotal: "@
        + decimal(nets.len()) + " nets across "@ + decimal(pads.len()) + " pads\n"@
}

pub(crate) fn has_text(list: &Vec<String>, text: &String) -> (yes: bool)
    ensures
        yes == strings(list@).contains(text@),
{
    let mut i: usize = 0;
    while i < list.len()
        invariant
            i <= list.len(),
            forall|j: int| 0 <= j < i ==> #[trigger] strings(list@)[j] != text@,
        decreases list.len() - i,
    {
        if same_str(list[i].as_str(), text.as_str()) {
            proof {
                assert(strings(list@)[i as int] == text@);
                assert(strings(list@).contains(text@));
            }
            return true;
        }
        i += 1;
    }
    false
}

fn read_net_names(pads: &Vec<RawPad>) -> (out: Vec<String>)
    ensures
        strings(out@) == net_names(raw_models(pads@)),
{
    let ghost all = raw_models(pads@);
    let mut out: Vec<String> = Vec::new();
    let mut i: usize = 0;
    proof {
        assert(all.take(0).len() == 0);
        assert(strings(out@) =~= Seq::<Seq<char>>::empty());
    }
    while i < pads.len()
        invariant
            i <= pads@.len(),
            all == raw_models(pads@),
            strings(out@) == net_names(all.take(i as int)),
        decreases pads@.len() - i,
    {
        proof {
            assert(all.take(i + 1).drop_last() =~= all.take(i as int));
            assert(all.take(i + 1).last() == raw_model(pads@[i as int]));
        }
        if !has_text(&out, &pads[i].net) {
            let ghost done = out@;
            out.push(pads[i].net.clone());
            proof {
                assert(strings(out@) =~= strings(done).push(pads@[i as int].net@));
            }
        }
        i += 1;
    }
    proof {
        assert(all.take(all.len() as int) =~= all);
    }
    out
}

fn read_pads_on(pads: &Vec<RawPad>, net: &String) -> (out: Vec<String>)
    ensures
        strings(out@) == pads_on(raw_models(pads@), net@),
{
    let ghost all = raw_models(pads@);
    let mut out: Vec<String> = Vec::new();
    let mut i: usize = 0;
    proof {
        assert(all.take(0).len() == 0);
        assert(strings(out@) =~= Seq::<Seq<char>>::empty());
    }
    while i < pads.len()
        invariant
            i <= pads@.len(),
            all == raw_models(pads@),
            strings(out@) == pads_on(all.take(i as int), net@),
        decreases pads@.len() - i,
    {
        proof {
            assert(all.take(i + 1).drop_last() =~= all.take(i as int));
            assert(all.take(i + 1).last() == raw_model(pads@[i as int]));
        }
        if same_str(pads[i].net.as_str(), net.as_str()) {
            let mut name = to_chars(pads[i].reference.as_str());
            extend_str(&mut name, "/");
            extend_str(&mut name, pads[i].pad_num.as_str());
            let ghost done = out@;
            let ghost shown = name@;
            out.push(to_text(name.as_slice()));
            proof {
                assert(strings(out@) =~= strings(done).push(shown));
            }
        }
        i += 1;
    }
    proof {
        assert(all.take(all.len() as int) =~= all);
    }
    out
}

fn extend_net_line(out: &mut Vec<char>, pads: &Vec<RawPad>, net: &String)
    ensures
        final(out)@ == old(out)@ + net_line(raw_models(pads@), net@),
{
    let on = read_pads_on(pads, net);
    let mut name = to_chars("\"");
    extend_str(&mut name, net.as_str());
    extend_str(&mut name, "\"");
    proof {
        assert(strings(on@).len() == on@.len());
    }
    extend_left(out, name.as_slice(), 45);
    extend_str(out, " ");
    extend_right(out, number(on.len()).as_slice(), 5);
    extend_str(out, "  ");
    extend_str(out, join(&on, ", ").as_str());
    extend_str(out, "\n");
    proof {
        assert(out@ =~= old(out)@ + net_line(raw_models(pads@), net@));
    }
}

/// Lists the nets of a board, in order, with the pads that are on each.
pub fn list_nets(path: &str, content: &str) -> (out: String)
    ensures
        out@ == net_list(path@, board_pads(content@)),
{
    let pads = parse_pcb_pads(content);
    let ghost all = raw_models(pads@);
    let found = read_net_names(&pads);
    let nets = sort(&found);
    let ghost names = strings(nets@);
    let mut out = to_chars("Nets in ");
    extend_str(&mut out, path);
    extend_str(&mut out, ":\n\n");
    let heading = to_chars("Net name");
    let count = to_chars("Pads");
    extend_left(&mut out, heading.as_slice(), 45);
    extend_str(&mut out, " ");
    extend_right(&mut out, count.as_slice(), 5);
    extend_str(&mut out, "  Connected pads\n");
    extend_repeat(&mut out, '-', 90);
    proof {
        assert(Seq::new(90nat, |i: int| '-') =~= dashes(90));
    }
    extend_str(&mut out, "\n");
    let ghost head = out@;
    let mut i: usize = 0;
    proof {
        assert(names.take(0).len() == 0);
        assert(head + net_lines(all, names.take(0)) =~= head);
    }
    while i < nets.len()
        invariant
            i <= nets@.len(),
            all == raw_models(pads@),
            names == strings(nets@),
            out@ == head + net_lines(all, names.take(i as int)),
        decreases nets@.len() - i,
    {
        proof {
            assert(names.take(i + 1).drop_last() =~= names.take(i as int));
            assert(names.take(i + 1).last() == nets@[i as int]@);
        }
        extend_net_line(&mut out, &pads, &nets[i]);
        proof {
            assert(out@ =~= head + net_lines(all, names.take(i + 1)));
        }
        i += 1;
    }
    proof {
        assert(names.take(names.len() as int) =~= names);
        assert(names.len() == nets@.len());
        assert(all.len() == pads@.len());
    }
    extend_str(&mut out, "\nTotal: ");
    extend(&mut out, number(nets.len()).as_slice());
    extend_str(&mut out, " nets across ");
    extend(&mut out, number(pads.len()).as_slice());
    extend_str(&mut out, " pads\n");
    to_text(out.as_slice())
}

/// Every pad is listed under its net, and under no other.
pub proof fn lemma_pads_listed_once(pads: Seq<RawPadModel>, i: int)
    requires
        0 <= i < pads.len(),
    ensures
        net_names(pads).contains(pads[i].net),
        pads_on(pads, pads[i].net).contains(pads[i].reference + "/"@ + pads[i].pad_num),
        net_names(pads).no_duplicates(),
    decreases pads.len(),
{
    let front = pads.drop_last();
    let known = net_names(front);
    if front.len() > 0 {
        lemma_pads_listed_once(front, if i < front.len() {
            i
        } else {
            0
        });
    }
    let net = pads[i].net;
    let name = pads[i].reference + "/"@ + pads[i].pad_num;
    if i < front.len() {
        assert(known.contains(net));
        let k = choose|k: int| 0 <= k < known.len() && known[k] == net;
        assert(net_names(pads)[k] == net);
        let on = pads_on(front, net);
        assert(on.contains(name));
        let m = choose|m: int| 0 <= m < on.len() && on[m] == name;
        assert(pads_on(pads, net)[m] == name);
    } else {
        assert(net_names(pads).contains(net)) by {
            if !known.contains(net) {
                assert(net_names(pads)[known.len() as int] == net);
            }
        }
        assert(pads_on(pads, net)[pads_on(front, net).len() as int] == name);
    }
}

} // verus!
