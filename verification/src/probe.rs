//! The continuity test of the guide: which pads are probed together.

use crate::drawing::{in_order, widen_over};
use crate::pads::has_text;
use crate::pcb::{box_over, BoundingBox, Footprint, Pad, PcbData, Point2};
use crate::strings::{decimal, number, sort, sorted, strings};
use crate::sync::{debug_text, quoted_text};
use crate::text::{extend, extend_str, has_at, matches_at, same_str, to_chars, to_text};
use crate::units::{extend_fixed, extend_length, extend_wide_length, fixed, thousandths};
use vstd::prelude::*;

verus! {

/// A pad that is probed.
#[derive(Debug)]
pub struct PadEntry {
    pub reference: String,
    pub number: String,
    pub net: String,
    pub x: i128,
    pub y: i128,
    pub radius: i64,
}

/// A pad that is probed, in texts and numbers.
#[verifier::ext_equal]
pub struct EntryModel {
    pub reference: Seq<char>,
    pub number: Seq<char>,
    pub net: Seq<char>,
    pub x: int,
    pub y: int,
    pub radius: int,
}

pub open spec fn entry_model(e: PadEntry) -> EntryModel {
    EntryModel {
        reference: e.reference@,
        number: e.number@,
        net: e.net@,
        x: e.x as int,
        y: e.y as int,
        radius: e.radius as int,
    }
}

pub open spec fn entry_models(list: Seq<PadEntry>) -> Seq<EntryModel> {
    list.map_values(|e: PadEntry| entry_model(e))
}

/// Whether a pad is on a net.
pub open spec fn on_net(p: Pad, net: Seq<char>) -> bool {
    p.net_name matches Some(n) && n@ == net
}

/// How many pads are on a net.
pub open spec fn pad_uses(pads: Seq<Pad>, net: Seq<char>) -> nat
    decreases pads.len(),
{
    if pads.len() == 0 {
        0
    } else {
        pad_uses(pads.drop_last(), net) + if on_net(pads.last(), net) {
            1nat
        } else {
            0nat
        }
    }
}

/// How many pads of parts are on a net.
pub open spec fn net_uses(parts: Seq<Footprint>, net: Seq<char>) -> nat
    decreases parts.len(),
{
    if parts.len() == 0 {
        0
    } else {
        net_uses(parts.drop_last(), net) + pad_uses(parts.last().pads@, net)
    }
}

/// Whether a pad is probed: it is on a net with a name, and not alone on one that is
/// called unconnected.
pub open spec fn is_probed(p: Pad, parts: Seq<Footprint>) -> bool {
    match p.net_name {
        None => false,
        Some(n) => n@.len() > 0 && (matches_at(n@, "unconnected"@, 0) ==> net_uses(parts, n@) >= 2),
    }
}

/// A pad as it is probed, on a board that takes up a rectangle.
pub open spec fn entry_of(p: Pad, reference: Seq<char>, b: BoundingBox) -> EntryModel {
    EntryModel {
        reference,
        number: p.number@,
        net: p.net_name->0@,
        x: p.center.x - b.min_x,
        y: b.max_y - p.center.y,
        radius: if p.drill > 1_600_000 {
            p.drill as int / 2
        } else {
            800_000
        },
    }
}

/// The pads of a part that are probed.
pub open spec fn part_entries(
    pads: Seq<Pad>,
    reference: Seq<char>,
    all: Seq<Footprint>,
    b: BoundingBox,
) -> Seq<EntryModel>
    decreases pads.len(),
{
    if pads.len() == 0 {
        Seq::empty()
    } else {
        let front = part_entries(pads.drop_last(), reference, all, b);
        if is_probed(pads.last(), all) {
            front.push(entry_of(pads.last(), reference, b))
        } else {
            front
        }
    }
}

/// The pads that are probed.
pub open spec fn board_entries(
    parts: Seq<Footprint>,
    all: Seq<Footprint>,
    b: BoundingBox,
) -> Seq<EntryModel>
    decreases parts.len(),
{
    if parts.len() == 0 {
        Seq::empty()
    } else {
        board_entries(parts.drop_last(), all, b) + part_entries(
            parts.last().pads@,
            parts.last().reference@,
            all,
            b,
        )
    }
}

/// The middles of the pads of parts.
pub open spec fn pad_centers(parts: Seq<Footprint>) -> Seq<Point2>
    decreases parts.len(),
{
    if parts.len() == 0 {
        Seq::empty()
    } else {
        pad_centers(parts.drop_last()) + parts.last().pads@.map_values(|p: Pad| p.center)
    }
}

/// What the board takes up: its outline, else the pads of its parts.
pub open spec fn probe_box(pcb: PcbData) -> Option<BoundingBox> {
    match pcb.outline {
        Some(o) => box_over(None, o@),
        None => box_over(None, pad_centers(pcb.footprints@)),
    }
}

/// A number of at most two.
pub open spec fn up_to_two(n: nat) -> nat {
    if n > 2 {
        2
    } else {
        n
    }
}

fn is_shared(parts: &Vec<Footprint>, net: &str) -> (yes: bool)
    ensures
        yes == (net_uses(parts@, net@) >= 2),
{
    let mut n: usize = 0;
    let mut i: usize = 0;
    proof {
        assert(parts@.take(0).len() == 0);
    }
    while i < parts.len()
        invariant
            i <= parts@.len(),
            n == up_to_two(net_uses(parts@.take(i as int), net@)),
        decreases parts@.len() - i,
    {
        proof {
            assert(parts@.take(i + 1).drop_last() =~= parts@.take(i as int));
        }
        let ghost before = net_uses(parts@.take(i as int), net@);
        let pads = &parts[i].pads;
        let mut k: usize = 0;
        proof {
            assert(pads@.take(0).len() == 0);
        }
        while k < pads.len()
            invariant
                k <= pads@.len(),
                n == up_to_two(before + pad_uses(pads@.take(k as int), net@)),
            decreases pads@.len() - k,
        {
            proof {
                assert(pads@.take(k + 1).drop_last() =~= pads@.take(k as int));
            }
            let here: bool = match &pads[k].net_name {
                Some(t) => same_str(t.as_str(), net),
                None => false,
            };
            if here && n < 2 {
                n += 1;
            }
            k += 1;
        }
        proof {
            assert(pads@.take(pads@.len() as int) =~= pads@);
        }
        i += 1;
    }
    proof {
        assert(parts@.take(parts@.len() as int) =~= parts@);
    }
    n >= 2
}

fn extend_entries(
    out: &mut Vec<PadEntry>,
    part: &Footprint,
    parts: &Vec<Footprint>,
    b: &BoundingBox,
)
    ensures
        entry_models(final(out)@) == entry_models(old(out)@) + part_entries(
            part.pads@,
            part.reference@,
            parts@,
            *b,
        ),
{
    let ghost start = entry_models(out@);
    let pads = &part.pads;
    let mut k: usize = 0;
    proof {
        assert(pads@.take(0).len() == 0);
        assert(entry_models(out@) =~= start + part_entries(
            pads@.take(0),
            part.reference@,
            parts@,
            *b,
        ));
    }
    while k < pads.len()
        invariant
            k <= pads@.len(),
            pads@ == part.pads@,
            entry_models(out@) == start + part_entries(
                pads@.take(k as int),
                part.reference@,
                parts@,
                *b,
            ),
        decreases pads@.len() - k,
    {
        proof {
            assert(pads@.take(k + 1).drop_last() =~= pads@.take(k as int));
        }
        let p = &pads[k];
        match &p.net_name {
            None => {},
            Some(net) => {
                let chars = to_chars(net.as_str());
                let mark = to_chars("unconnected");
                let probed: bool = chars.len() > 0 && (!has_at(
                    chars.as_slice(),
                    mark.as_slice(),
                    0,
                ) || is_shared(parts, net.as_str()));
                if probed {
                    let entry = PadEntry {
                        reference: part.reference.clone(),
                        number: p.number.clone(),
                        net: net.clone(),
                        x: p.center.x as i128 - b.min_x as i128,
                        y: b.max_y as i128 - p.center.y as i128,
                        radius: if p.drill > 1_600_000 {
                            p.drill / 2
                        } else {
                            800_000
                        },
                    };
                    let ghost done = out@;
                    out.push(entry);
                    proof {
                        assert(entry_models(out@) =~= entry_models(done).push(entry_model(entry)));
                        assert(entry_model(entry) == entry_of(*p, part.reference@, *b));
                        assert(entry_models(out@) =~= start + part_entries(
                            pads@.take(k + 1),
                            part.reference@,
                            parts@,
                            *b,
                        ));
                    }
                }
            },
        }
        k += 1;
    }
    proof {
        assert(pads@.take(pads@.len() as int) =~= pads@);
    }
}

fn read_entries(parts: &Vec<Footprint>, b: &BoundingBox) -> (out: Vec<PadEntry>)
    ensures
        entry_models(out@) == board_entries(parts@, parts@, *b),
        forall|i: int|
            0 <= i < out@.len() ==> -0x1_0000_0000_0000_0000 <= (#[trigger] out@[i]).x
                <= 0x1_0000_0000_0000_0000 && -0x1_0000_0000_0000_0000 <= out@[i].y
                <= 0x1_0000_0000_0000_0000,
{
    let mut out: Vec<PadEntry> = Vec::new();
    let mut i: usize = 0;
    proof {
        assert(parts@.take(0).len() == 0);
        assert(entry_models(out@) =~= Seq::empty());
    }
    while i < parts.len()
        invariant
            i <= parts@.len(),
            entry_models(out@) == board_entries(parts@.take(i as int), parts@, *b),
        decreases parts@.len() - i,
    {
        proof {
            assert(parts@.take(i + 1).drop_last() =~= parts@.take(i as int));
        }
        extend_entries(&mut out, &parts[i], parts, b);
        i += 1;
    }
    proof {
        assert(parts@.take(parts@.len() as int) =~= parts@);
        lemma_entry_bounds(parts@, parts@, *b);
        assert forall|i: int| 0 <= i < out@.len() implies -0x1_0000_0000_0000_0000 <= (
        #[trigger] out@[i]).x <= 0x1_0000_0000_0000_0000 && -0x1_0000_0000_0000_0000 <= out@[i].y
            <= 0x1_0000_0000_0000_0000 by {
            assert(entry_models(out@)[i] == entry_model(out@[i]));
        }
    }
    out
}

pub open spec fn entry_fits(e: EntryModel) -> bool {
    -0x1_0000_0000_0000_0000 <= e.x <= 0x1_0000_0000_0000_0000 && -0x1_0000_0000_0000_0000 <= e.y
        <= 0x1_0000_0000_0000_0000
}

proof fn lemma_part_entry_bounds(
    pads: Seq<Pad>,
    reference: Seq<char>,
    all: Seq<Footprint>,
    b: BoundingBox,
)
    ensures
        forall|i: int|
            0 <= i < part_entries(pads, reference, all, b).len() ==> entry_fits(
                #[trigger] part_entries(pads, reference, all, b)[i],
            ),
    decreases pads.len(),
{
    if pads.len() > 0 {
        lemma_part_entry_bounds(pads.drop_last(), reference, all, b);
        let front = part_entries(pads.drop_last(), reference, all, b);
        let list = part_entries(pads, reference, all, b);
        assert forall|i: int| 0 <= i < list.len() implies entry_fits(#[trigger] list[i]) by {
            if i < front.len() {
                assert(list[i] == front[i]);
            }
        }
    }
}

proof fn lemma_entry_bounds(parts: Seq<Footprint>, all: Seq<Footprint>, b: BoundingBox)
    ensures
        forall|i: int|
            0 <= i < board_entries(parts, all, b).len() ==> entry_fits(
                #[trigger] board_entries(parts, all, b)[i],
            ),
    decreases parts.len(),
{
    if parts.len() > 0 {
        lemma_entry_bounds(parts.drop_last(), all, b);
        lemma_part_entry_bounds(parts.last().pads@, parts.last().reference@, all, b);
        let front = board_entries(parts.drop_last(), all, b);
        let more = part_entries(parts.last().pads@, parts.last().reference@, all, b);
        let list = board_entries(parts, all, b);
        assert forall|i: int| 0 <= i < list.len() implies entry_fits(#[trigger] list[i]) by {
            if i < front.len() {
                assert(list[i] == front[i]);
            } else {
                assert(list[i] == more[i - front.len()]);
            }
        }
    }
}

/// The nets that are probed, each once, in the order in which they first come.
pub open spec fn entry_nets(list: Seq<EntryModel>) -> Seq<Seq<char>>
    decreases list.len(),
{
    if list.len() == 0 {
        Seq::empty()
    } else {
        let known = entry_nets(list.drop_last());
        if known.contains(list.last().net) {
            known
        } else {
            known.push(list.last().net)
        }
    }
}

fn read_nets(list: &Vec<PadEntry>) -> (out: Vec<String>)
    ensures
        strings(out@) == entry_nets(entry_models(list@)),
{
    let ghost all = entry_models(list@);
    let mut out: Vec<String> = Vec::new();
    let mut i: usize = 0;
    proof {
        assert(all.take(0).len() == 0);
        assert(strings(out@) =~= Seq::<Seq<char>>::empty());
    }
    while i < list.len()
        invariant
            i <= list@.len(),
            all == entry_models(list@),
            strings(out@) == entry_nets(all.take(i as int)),
        decreases list@.len() - i,
    {
        proof {
            assert(all.take(i + 1).drop_last() =~= all.take(i as int));
            assert(all.take(i + 1).last() == entry_model(list@[i as int]));
        }
        if !has_text(&out, &list[i].net) {
            let ghost done = out@;
            out.push(list[i].net.clone());
            proof {
                assert(strings(out@) =~= strings(done).push(list@[i as int].net@));
            }
        }
        i += 1;
    }
    proof {
        assert(all.take(all.len() as int) =~= all);
    }
    out
}

/// The pads as data of the page.
pub open spec fn pad_data(list: Seq<EntryModel>) -> Seq<char>
    decreases list.len(),
{
    if list.len() == 0 {
        Seq::empty()
    } else {
        let e = list.last();
        let front = if list.len() == 1 {
            Seq::empty()
        } else {
            pad_data(list.drop_last()) + ","@
        };
        front + "{id:"@ + debug_text(e.reference + "-"@ + e.number) + ",ref:"@ + debug_text(
            e.reference,
        ) + ",num:"@ + debug_text(e.number) + ",net:"@ + debug_text(e.net) + ",x:"@ + thousandths(
            e.x,
        ) + ",y:"@ + thousandths(e.y) + ",r:"@ + thousandths(e.radius) + "}"@
    }
}

fn extend_entry(out: &mut Vec<char>, e: &PadEntry)
    ensures
        final(out)@ == old(out)@ + ({
            let m = entry_model(*e);
            "{id:"@ + debug_text(m.reference + "-"@ + m.number) + ",ref:"@ + debug_text(m.reference)
                + ",num:"@ + debug_text(m.number) + ",net:"@ + debug_text(m.net) + ",x:"@
                + thousandths(m.x) + ",y:"@ + thousandths(m.y) + ",r:"@ + thousandths(m.radius)
                + "}"@
        }),
{
    let mut id = to_chars(e.reference.as_str());
    extend_str(&mut id, "-");
    extend_str(&mut id, e.number.as_str());
    let id_text = to_text(id.as_slice());
    extend_str(out, "{id:");
    extend_str(out, quoted_text(id_text.as_str()).as_str());
    extend_str(out, ",ref:");
    extend_str(out, quoted_text(e.reference.as_str()).as_str());
    extend_str(out, ",num:");
    extend_str(out, quoted_text(e.number.as_str()).as_str());
    extend_str(out, ",net:");
    extend_str(out, quoted_text(e.net.as_str()).as_str());
    extend_str(out, ",x:");
    extend_wide_length(out, e.x);
    extend_str(out, ",y:");
    extend_wide_length(out, e.y);
    extend_str(out, ",r:");
    extend_length(out, e.radius);
    extend_str(out, "}");
    proof {
        let m = entry_model(*e);
        assert(out@ =~= old(out)@ + ("{id:"@ + debug_text(m.reference + "-"@ + m.number) + ",ref:"@
            + debug_text(m.reference) + ",num:"@ + debug_text(m.number) + ",net:"@ + debug_text(
            m.net,
        ) + ",x:"@ + thousandths(m.x) + ",y:"@ + thousandths(m.y) + ",r:"@ + thousandths(m.radius)
            + "}"@));
    }
}

fn write_pads(list: &Vec<PadEntry>) -> (out: String)
    ensures
        out@ == pad_data(entry_models(list@)),
{
    let ghost all = entry_models(list@);
    let mut out: Vec<char> = Vec::new();
    let mut i: usize = 0;
    proof {
        assert(all.take(0).len() == 0);
        assert(out@ =~= pad_data(all.take(0)));
    }
    while i < list.len()
        invariant
            i <= list@.len(),
            all == entry_models(list@),
            out@ == pad_data(all.take(i as int)),
        decreases list@.len() - i,
    {
        proof {
            assert(all.take(i + 1).drop_last() =~= all.take(i as int));
            assert(all.take(i + 1).last() == entry_model(list@[i as int]));
        }
        if i > 0 {
            extend_str(&mut out, ",");
        }
        extend_entry(&mut out, &list[i]);
        proof {
            assert(out@ =~= pad_data(all.take(i + 1)));
        }
        i += 1;
    }
    proof {
        assert(all.take(all.len() as int) =~= all);
    }
    to_text(out.as_slice())
}

/// The numbers of the pads on a net, with commas between.
pub open spec fn pad_numbers(list: Seq<EntryModel>, net: Seq<char>) -> Seq<char>
    decreases list.len(),
{
    if list.len() == 0 {
        Seq::empty()
    } else {
        let front = pad_numbers(list.drop_last(), net);
        if list.last().net != net {
            front
        } else if front.len() == 0 {
            decimal((list.len() - 1) as nat)
        } else {
            front + ","@ + decimal((list.len() - 1) as nat)
        }
    }
}

fn extend_numbers(out: &mut Vec<char>, list: &Vec<PadEntry>, net: &str)
    ensures
        final(out)@ == old(out)@ + pad_numbers(entry_models(list@), net@),
{
    let ghost all = entry_models(list@);
    let mut text: Vec<char> = Vec::new();
    let mut i: usize = 0;
    proof {
        assert(all.take(0).len() == 0);
        assert(text@ =~= pad_numbers(all.take(0), net@));
    }
    while i < list.len()
        invariant
            i <= list@.len(),
            all == entry_models(list@),
            text@ == pad_numbers(all.take(i as int), net@),
        decreases list@.len() - i,
    {
        proof {
            assert(all.take(i + 1).drop_last() =~= all.take(i as int));
            assert(all.take(i + 1).last() == entry_model(list@[i as int]));
        }
        if same_str(list[i].net.as_str(), net) {
            let ghost front = text@;
            if text.len() > 0 {
                extend_str(&mut text, ",");
            }
            let digits = number(i);
            extend(&mut text, digits.as_slice());
            proof {
                assert(text@ =~= pad_numbers(all.take(i + 1), net@));
            }
        }
        i += 1;
    }
    proof {
        assert(all.take(all.len() as int) =~= all);
    }
    extend(out, text.as_slice());
}

/// The nets and their pads as data of the page.
pub open spec fn net_data(list: Seq<EntryModel>, nets: Seq<Seq<char>>) -> Seq<char>
    decreases nets.len(),
{
    if nets.len() == 0 {
        Seq::empty()
    } else {
        let front = if nets.len() == 1 {
            Seq::empty()
        } else {
            net_data(list, nets.drop_last()) + ","@
        };
        front + "{net:"@ + debug_text(nets.last()) + ",pads:["@ + pad_numbers(list, nets.last())
            + "]}"@
    }
}

fn write_nets(list: &Vec<PadEntry>, nets: &Vec<String>) -> (out: String)
    ensures
        out@ == net_data(entry_models(list@), strings(nets@)),
{
    let ghost all = entry_models(list@);
    let ghost names = strings(nets@);
    let mut out: Vec<char> = Vec::new();
    let mut i: usize = 0;
    proof {
        assert(names.take(0).len() == 0);
        assert(out@ =~= net_data(all, names.take(0)));
    }
    while i < nets.len()
        invariant
            i <= nets@.len(),
            all == entry_models(list@),
            names == strings(nets@),
            out@ == net_data(all, names.take(i as int)),
        decreases nets@.len() - i,
    {
        proof {
            assert(names.take(i + 1).drop_last() =~= names.take(i as int));
            assert(names.take(i + 1).last() == nets@[i as int]@);
        }
        if i > 0 {
            extend_str(&mut out, ",");
        }
        extend_str(&mut out, "{net:");
        extend_str(&mut out, quoted_text(nets[i].as_str()).as_str());
        extend_str(&mut out, ",pads:[");
        extend_numbers(&mut out, list, nets[i].as_str());
        extend_str(&mut out, "]}");
        proof {
            assert(out@ =~= net_data(all, names.take(i + 1)));
        }
        i += 1;
    }
    proof {
        assert(names.take(names.len() as int) =~= names);
    }
    to_text(out.as_slice())
}

/// What is shown of the plane: from the origin, or the least pad, to the far corner of
/// the board, or the furthest pad.
pub open spec fn shown_box(list: Seq<EntryModel>, width: int, height: int) -> (int, int, int, int)
    decreases list.len(),
{
    if list.len() == 0 {
        (0, 0, width, height)
    } else {
        let r = shown_box(list.drop_last(), width, height);
        let e = list.last();
        (
            if e.x < r.0 {
                e.x
            } else {
                r.0
            },
            if e.y < r.1 {
                e.y
            } else {
                r.1
            },
            if e.x > r.2 {
                e.x
            } else {
                r.2
            },
            if e.y > r.3 {
                e.y
            } else {
                r.3
            },
        )
    }
}

fn find_shown(list: &Vec<PadEntry>, width: i128, height: i128) -> (r: (i128, i128, i128, i128))
    requires
        0 <= width <= 0x1_0000_0000_0000_0000,
        0 <= height <= 0x1_0000_0000_0000_0000,
        forall|i: int| 0 <= i < list@.len() ==> entry_fits(entry_model(#[trigger] list@[i])),
    ensures
        (r.0 as int, r.1 as int, r.2 as int, r.3 as int) == shown_box(
            entry_models(list@),
            width as int,
            height as int,
        ),
        -0x1_0000_0000_0000_0000 <= r.0 <= 0 <= r.2 <= 0x1_0000_0000_0000_0000,
        -0x1_0000_0000_0000_0000 <= r.1 <= 0 <= r.3 <= 0x1_0000_0000_0000_0000,
{
    let ghost all = entry_models(list@);
    let mut x0: i128 = 0;
    let mut y0: i128 = 0;
    let mut x1: i128 = width;
    let mut y1: i128 = height;
    let mut i: usize = 0;
    proof {
        assert(all.take(0).len() == 0);
    }
    while i < list.len()
        invariant
            i <= list@.len(),
            all == entry_models(list@),
            forall|j: int| 0 <= j < list@.len() ==> entry_fits(entry_model(#[trigger] list@[j])),
            (x0 as int, y0 as int, x1 as int, y1 as int) == shown_box(
                all.take(i as int),
                width as int,
                height as int,
            ),
            -0x1_0000_0000_0000_0000 <= x0 <= 0 <= x1 <= 0x1_0000_0000_0000_0000,
            -0x1_0000_0000_0000_0000 <= y0 <= 0 <= y1 <= 0x1_0000_0000_0000_0000,
        decreases list@.len() - i,
    {
        proof {
            assert(all.take(i + 1).drop_last() =~= all.take(i as int));
            assert(all.take(i + 1).last() == entry_model(list@[i as int]));
            assert(entry_fits(entry_model(list@[i as int])));
        }
        let e = &list[i];
        if e.x < x0 {
            x0 = e.x;
        }
        if e.y < y0 {
            y0 = e.y;
        }
        if e.x > x1 {
            x1 = e.x;
        }
        if e.y > y1 {
            y1 = e.y;
        }
        i += 1;
    }
    proof {
        assert(all.take(all.len() as int) =~= all);
    }
    (x0, y0, x1, y1)
}

/// What the page shows of the continuity test.
#[derive(Debug)]
pub struct ContinuityData {
    pub pads_js: String,
    pub steps_js: String,
    pub total_nets: usize,
    pub viewbox: String,
    pub bg_rect: String,
    pub board_outline_svg: String,
    pub board_img: String,
}

/// What the page shows of the continuity test, in texts.
#[verifier::ext_equal]
pub struct ContinuityModel {
    pub pads_js: Seq<char>,
    pub steps_js: Seq<char>,
    pub total_nets: nat,
    pub viewbox: Seq<char>,
    pub bg_rect: Seq<char>,
    pub board_outline_svg: Seq<char>,
    pub board_img: Seq<char>,
}

pub open spec fn continuity_model(d: ContinuityData) -> ContinuityModel {
    ContinuityModel {
        pads_js: d.pads_js@,
        steps_js: d.steps_js@,
        total_nets: d.total_nets as nat,
        viewbox: d.viewbox@,
        bg_rect: d.bg_rect@,
        board_outline_svg: d.board_outline_svg@,
        board_img: d.board_img@,
    }
}

/// The picture of the board under the pads, if there is one.
pub open spec fn picture(image: Option<String>, width: int, height: int) -> Seq<char> {
    match image {
        Some(data) => "<image href=\"data:image/svg+xml;base64,"@ + data@
            + "\" x=\"0\" y=\"0\" width=\""@ + fixed(width, 10_000) + "\" height=\""@ + fixed(
            height,
            10_000,
        ) + "\"/>"@,
        None => Seq::empty(),
    }
}

/// What the page shows of the continuity test; nothing if no pad is probed.
pub open spec fn continuity(pcb: PcbData, image: Option<String>) -> Option<ContinuityModel> {
    match probe_box(pcb) {
        None => None,
        Some(b) => {
            let list = board_entries(pcb.footprints@, pcb.footprints@, b);
            if list.len() == 0 {
                None
            } else {
                let width = b.max_x - b.min_x;
                let height = b.max_y - b.min_y;
                let r = shown_box(list, width, height);
                let x = fixed(r.0 - 5_000_000, 100);
                let y = fixed(r.1 - 5_000_000, 100);
                let w = fixed(r.2 - r.0 + 10_000_000, 100);
                let h = fixed(r.3 - r.1 + 10_000_000, 100);
                let nets = sorted(entry_nets(list));
                Some(
                    ContinuityModel {
                        pads_js: pad_data(list),
                        steps_js: net_data(list, nets),
                        total_nets: nets.len(),
                        viewbox: x + " "@ + y + " "@ + w + " "@ + h,
                        bg_rect: "<rect x=\""@ + x + "\" y=\""@ + y + "\" width=\""@ + w
                            + "\" height=\""@ + h + "\" fill=\"#111820\"/>"@,
                        board_outline_svg: "<rect x=\"0\" y=\"0\" width=\""@ + fixed(width, 10_000)
                            + "\" height=\""@ + fixed(height, 10_000)
                            + "\" fill=\"none\" stroke=\"#f0c040\" stroke-width=\"0.25\" stroke-dasharray=\"1.5 0.8\"/>"@,
                        board_img: picture(image, width, height),
                    },
                )
            }
        },
    }
}

fn read_centers(parts: &Vec<Footprint>) -> (out: Vec<Point2>)
    ensures
        out@ == pad_centers(parts@),
{
    let mut out: Vec<Point2> = Vec::new();
    let mut i: usize = 0;
    proof {
        assert(parts@.take(0).len() == 0);
    }
    while i < parts.len()
        invariant
            i <= parts@.len(),
            out@ == pad_centers(parts@.take(i as int)),
        decreases parts@.len() - i,
    {
        proof {
            assert(parts@.take(i + 1).drop_last() =~= parts@.take(i as int));
        }
        let ghost front = out@;
        let pads = &parts[i].pads;
        let ghost more = pads@.map_values(|p: Pad| p.center);
        let mut k: usize = 0;
        proof {
            assert(front + more.take(0) =~= front);
        }
        while k < pads.len()
            invariant
                k <= pads@.len(),
                more == pads@.map_values(|p: Pad| p.center),
                out@ == front + more.take(k as int),
            decreases pads@.len() - k,
        {
            out.push(pads[k].center);
            proof {
                assert(more.take(k + 1) =~= more.take(k as int).push(more[k as int]));
                assert(out@ =~= front + more.take(k + 1));
            }
            k += 1;
        }
        proof {
            assert(more.take(more.len() as int) =~= more);
        }
        i += 1;
    }
    proof {
        assert(parts@.take(parts@.len() as int) =~= parts@);
    }
    out
}

fn find_box(pcb: &PcbData) -> (b: Option<BoundingBox>)
    ensures
        b == probe_box(*pcb),
        in_order(b),
{
    let mut b: Option<BoundingBox> = None;
    match &pcb.outline {
        Some(o) => widen_over(&mut b, o),
        None => {
            let places = read_centers(&pcb.footprints);
            widen_over(&mut b, &places);
        },
    }
    b
}

fn show_fixed(n: i128, scale: u128) -> (out: String)
    requires
        1 <= scale <= 1_000_000,
        -0x4_0000_0000_0000_0000 <= n <= 0x4_0000_0000_0000_0000,
    ensures
        out@ == fixed(n as int, scale as nat),
{
    let mut out: Vec<char> = Vec::new();
    extend_fixed(&mut out, n, scale);
    proof {
        assert(out@ =~= fixed(n as int, scale as nat));
    }
    to_text(out.as_slice())
}

fn show_picture(image: &Option<String>, width: &str, height: &str, Ghost(w): Ghost<int>, Ghost(h): Ghost<int>) -> (out:
    String)
    requires
        width@ == fixed(w, 10_000),
        height@ == fixed(h, 10_000),
    ensures
        out@ == picture(*image, w, h),
{
    match image {
        Some(data) => {
            let mut out = to_chars("<image href=\"data:image/svg+xml;base64,");
            extend_str(&mut out, data.as_str());
            extend_str(&mut out, "\" x=\"0\" y=\"0\" width=\"");
            extend_str(&mut out, width);
            extend_str(&mut out, "\" height=\"");
            extend_str(&mut out, height);
            extend_str(&mut out, "\"/>");
            to_text(out.as_slice())
        },
        None => {
            let out = String::new();
            proof {
                assert(out@ =~= Seq::empty());
            }
            out
        },
    }
}

fn texts4(a: &str, x: &str, b: &str, y: &str) -> (out: Vec<char>)
    ensures
        out@ == a@ + x@ + b@ + y@,
{
    let mut out = to_chars(a);
    extend_str(&mut out, x);
    extend_str(&mut out, b);
    extend_str(&mut out, y);
    out
}

/// What the page shows of the continuity test, over a picture of the board if there is
/// one.
pub fn collect_continuity(pcb: &PcbData, image: &Option<String>) -> (out: Option<ContinuityData>)
    ensures
        (match out {
            Some(d) => Some(continuity_model(d)),
            None => None,
        }) == continuity(*pcb, *image),
{
    let b: BoundingBox = match find_box(pcb) {
        Some(b) => b,
        None => {
            return None;
        },
    };
    let list = read_entries(&pcb.footprints, &b);
    let ghost all = entry_models(list@);
    proof {
        assert(all.len() == list@.len());
    }
    if list.len() == 0 {
        return None;
    }
    let width: i128 = b.max_x as i128 - b.min_x as i128;
    let height: i128 = b.max_y as i128 - b.min_y as i128;
    proof {
        assert forall|i: int| 0 <= i < list@.len() implies entry_fits(
            entry_model(#[trigger] list@[i]),
        ) by {
            assert(-0x1_0000_0000_0000_0000 <= list@[i].x);
        }
    }
    let r = find_shown(&list, width, height);
    let x = show_fixed(r.0 - 5_000_000, 100);
    let y = show_fixed(r.1 - 5_000_000, 100);
    let w = show_fixed(r.2 - r.0 + 10_000_000, 100);
    let h = show_fixed(r.3 - r.1 + 10_000_000, 100);
    let names = read_nets(&list);
    let nets = sort(&names);
    proof {
        assert(strings(nets@).len() == nets@.len());
    }
    let mut viewbox = texts4(x.as_str(), " ", y.as_str(), " ");
    extend_str(&mut viewbox, w.as_str());
    extend_str(&mut viewbox, " ");
    extend_str(&mut viewbox, h.as_str());
    let mut ground = texts4("<rect x=\"", x.as_str(), "\" y=\"", y.as_str());
    extend_str(&mut ground, "\" width=\"");
    extend_str(&mut ground, w.as_str());
    extend_str(&mut ground, "\" height=\"");
    extend_str(&mut ground, h.as_str());
    extend_str(&mut ground, "\" fill=\"#111820\"/>");
    let wide = show_fixed(width, 10_000);
    let high = show_fixed(height, 10_000);
    let mut outline = texts4(
        "<rect x=\"0\" y=\"0\" width=\"",
        wide.as_str(),
        "\" height=\"",
        high.as_str(),
    );
    extend_str(
        &mut outline,
        "\" fill=\"none\" stroke=\"#f0c040\" stroke-width=\"0.25\" stroke-dasharray=\"1.5 0.8\"/>",
    );
    let board_img = show_picture(
        image,
        wide.as_str(),
        high.as_str(),
        Ghost(width as int),
        Ghost(height as int),
    );
    let pads_js = write_pads(&list);
    let steps_js = write_nets(&list, &nets);
    let total_nets: usize = nets.len();
    let data = ContinuityData {
        pads_js,
        steps_js,
        total_nets,
        viewbox: to_text(viewbox.as_slice()),
        bg_rect: to_text(ground.as_slice()),
        board_outline_svg: to_text(outline.as_slice()),
        board_img,
    };
    proof {
        assert(continuity_model(data) =~= continuity(*pcb, *image)->0);
    }
    Some(data)
}

} // verus!
