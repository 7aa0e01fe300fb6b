//! How near a proposed trace comes to what is on the board, and what lies in a region.

use crate::distance::{in_reach, point, reachable, twice_apart, twice_between_segments, twice_from_segment, twice_gap};
use crate::pads::{dashes, has_text, PcbPad};
use crate::strings::{decimal, extend_left, extend_repeat, extend_right, left, number, right, strings};
use crate::text::{extend, extend_str, same_str, to_chars, to_text};
use crate::traces::{
    least, most, parse_pcb_segments, segment_bbox_overlaps_region, segment_model, segment_models,
    segments, spans_meet, PcbSegment, Region, SegmentModel,
};
use crate::units::{extend_length, extend_plain, extend_wide_length, plain, thousandths};
use vstd::prelude::*;

verus! {

/// A trace that is proposed. Lengths are in nanometres.
#[derive(Clone, Copy, Debug)]
pub struct Proposal<'a> {
    pub from: (i64, i64),
    pub to: (i64, i64),
    pub layer: &'a str,
    pub width: i64,
    pub clearance: i64,
    pub net: &'a str,
}

/// How near something is.
pub enum Nearness {
    /// It is touched.
    Collision,
    /// The gap is less than is asked for.
    Close,
    Clear,
}

/// How near something is, from twice its distance and twice the distance at which it
/// is touched.
pub open spec fn nearness(twice: int, touch: int, clearance: int) -> Nearness {
    if twice < touch {
        Nearness::Collision
    } else if twice < touch + 2 * clearance {
        Nearness::Close
    } else {
        Nearness::Clear
    }
}

/// Twice the distance at which a pad is touched. A pad counts as round, as wide as its
/// longer side.
pub open spec fn pad_touch(pad: PcbPad, p: Proposal) -> int {
    p.width + most(pad.width as int, pad.height as int)
}

/// Twice the distance of a pad from a proposed trace.
pub open spec fn pad_twice(pad: PcbPad, p: Proposal) -> int {
    twice_gap((pad.x as int, pad.y as int), point(p.from), point(p.to))
}

/// What is said of a pad after its distance.
pub open spec fn pad_tail(pad: PcbPad, twice: int) -> Seq<char> {
    left(pad.reference@, 10) + " pad "@ + right(pad.pad_num@, 4) + "  net="@ + left(pad.net@, 30)
        + "  pos=("@ + thousandths(pad.x as int) + ","@ + thousandths(pad.y as int) + ")  size="@
        + thousandths(pad.width as int) + "×"@ + thousandths(pad.height as int) + "  dist="@
        + thousandths(twice / 2) + "mm"@
}

/// The least distance, where it is not kept.
pub open spec fn least_gap(touch: int, clearance: int) -> Seq<char> {
    "  (min="@ + thousandths((touch + 2 * clearance) / 2) + "mm)"@
}

/// What is said of a pad that is touched or too near.
pub open spec fn pad_remark(pad: PcbPad, p: Proposal) -> (Seq<Seq<char>>, Seq<Seq<char>>) {
    let twice = pad_twice(pad, p);
    let touch = pad_touch(pad, p);
    match nearness(twice, touch, p.clearance as int) {
        Nearness::Collision => (seq!["  COLLISION  "@ + pad_tail(pad, twice)], Seq::empty()),
        Nearness::Close => (
            Seq::empty(),
            seq!["  CLOSE      "@ + pad_tail(pad, twice) + least_gap(touch, p.clearance as int)],
        ),
        Nearness::Clear => (Seq::empty(), Seq::empty()),
    }
}

/// What is said of pads.
pub open spec fn pad_remarks(pads: Seq<PcbPad>, p: Proposal) -> (Seq<Seq<char>>, Seq<Seq<char>>)
    decreases pads.len(),
{
    if pads.len() == 0 {
        (Seq::empty(), Seq::empty())
    } else {
        let front = pad_remarks(pads.drop_last(), p);
        let more = pad_remark(pads.last(), p);
        (front.0 + more.0, front.1 + more.1)
    }
}

/// Whether a trace is checked: one on the same layer, unless it is known to be on the
/// same net. Without a net nothing is known.
pub open spec fn is_checked(s: SegmentModel, p: Proposal) -> bool {
    s.layer == p.layer@ && !(p.net@.len() > 0 && s.net == p.net@)
}

/// Twice the distance of a trace from a proposed one.
pub open spec fn trace_twice(s: SegmentModel, p: Proposal) -> int {
    twice_apart(point(p.from), point(p.to), s.from, s.to)
}

/// A net, or that there is none.
pub open spec fn net_or_unrouted(net: Seq<char>) -> Seq<char> {
    if net.len() == 0 {
        "<unrouted>"@
    } else {
        net
    }
}

/// What is said of a trace after its distance.
pub open spec fn trace_tail(s: SegmentModel, twice: int) -> Seq<char> {
    "trace      net="@ + left(net_or_unrouted(s.net), 30) + "  layer="@ + left(s.layer, 6) + "  ("@
        + thousandths(s.from.0) + ","@ + thousandths(s.from.1) + ")→("@ + thousandths(s.to.0) + ","@
        + thousandths(s.to.1) + ")  width="@ + thousandths(s.width) + "mm  dist="@ + thousandths(
        twice / 2,
    ) + "mm"@
}

/// What is said of a trace that is touched or too near.
pub open spec fn trace_remark(s: SegmentModel, p: Proposal) -> (Seq<Seq<char>>, Seq<Seq<char>>) {
    let twice = trace_twice(s, p);
    let touch = p.width + s.width;
    if !is_checked(s, p) {
        (Seq::empty(), Seq::empty())
    } else {
        match nearness(twice, touch, p.clearance as int) {
            Nearness::Collision => (seq!["  COLLISION  "@ + trace_tail(s, twice)], Seq::empty()),
            Nearness::Close => (
                Seq::empty(),
                seq![
                    "  CLOSE      "@ + trace_tail(s, twice) + least_gap(touch, p.clearance as int),
                ],
            ),
            Nearness::Clear => (Seq::empty(), Seq::empty()),
        }
    }
}

/// What is said of traces.
pub open spec fn trace_remarks(list: Seq<SegmentModel>, p: Proposal) -> (
    Seq<Seq<char>>,
    Seq<Seq<char>>,
)
    decreases list.len(),
{
    if list.len() == 0 {
        (Seq::empty(), Seq::empty())
    } else {
        let front = trace_remarks(list.drop_last(), p);
        let more = trace_remark(list.last(), p);
        (front.0 + more.0, front.1 + more.1)
    }
}

/// Collisions, and gaps that are too small: those with pads, then those with traces.
pub open spec fn remarks(pads: Seq<PcbPad>, list: Seq<SegmentModel>, p: Proposal) -> (
    Seq<Seq<char>>,
    Seq<Seq<char>>,
) {
    let a = pad_remarks(pads, p);
    let b = trace_remarks(list, p);
    (a.0 + b.0, a.1 + b.1)
}

/// Whether distances can be measured: everything is within reach.
pub open spec fn fits_check(pads: Seq<PcbPad>, list: Seq<SegmentModel>, p: Proposal) -> bool {
    &&& in_reach(point(p.from))
    &&& in_reach(point(p.to))
    &&& forall|i: int|
        0 <= i < pads.len() ==> in_reach(((#[trigger] pads[i]).x as int, pads[i].y as int))
    &&& forall|i: int|
        0 <= i < list.len() ==> in_reach((#[trigger] list[i]).from) && in_reach(list[i].to)
}

fn extend_least_gap(out: &mut Vec<char>, touch: i128, clearance: i64)
    requires
        -0x4_0000_0000_0000_0000 <= touch <= 0x4_0000_0000_0000_0000,
        touch + 2 * clearance > 0,
    ensures
        final(out)@ == old(out)@ + least_gap(touch as int, clearance as int),
{
    extend_str(out, "  (min=");
    extend_wide_length(out, (touch + 2 * clearance as i128) / 2);
    extend_str(out, "mm)");
    proof {
        assert(out@ =~= old(out)@ + least_gap(touch as int, clearance as int));
    }
}

fn extend_pad_tail(out: &mut Vec<char>, pad: &PcbPad, twice: i64)
    requires
        0 <= twice,
    ensures
        final(out)@ == old(out)@ + pad_tail(*pad, twice as int),
{
    let reference = to_chars(pad.reference.as_str());
    let num = to_chars(pad.pad_num.as_str());
    let net = to_chars(pad.net.as_str());
    extend_left(out, reference.as_slice(), 10);
    extend_str(out, " pad ");
    extend_right(out, num.as_slice(), 4);
    extend_str(out, "  net=");
    extend_left(out, net.as_slice(), 30);
    extend_str(out, "  pos=(");
    extend_length(out, pad.x);
    extend_str(out, ",");
    extend_length(out, pad.y);
    extend_str(out, ")  size=");
    extend_length(out, pad.width);
    extend_str(out, "×");
    extend_length(out, pad.height);
    extend_str(out, "  dist=");
    extend_length(out, twice / 2);
    extend_str(out, "mm");
    proof {
        assert(out@ =~= old(out)@ + pad_tail(*pad, twice as int));
    }
}

fn extend_trace_tail(out: &mut Vec<char>, s: &PcbSegment, twice: i64)
    requires
        0 <= twice,
    ensures
        final(out)@ == old(out)@ + trace_tail(segment_model(*s), twice as int),
{
    let given = to_chars(s.net.as_str());
    let net: Vec<char> = if given.len() == 0 {
        to_chars("<unrouted>")
    } else {
        given
    };
    let layer = to_chars(s.layer.as_str());
    extend_str(out, "trace      net=");
    extend_left(out, net.as_slice(), 30);
    extend_str(out, "  layer=");
    extend_left(out, layer.as_slice(), 6);
    extend_str(out, "  (");
    extend_length(out, s.x1);
    extend_str(out, ",");
    extend_length(out, s.y1);
    extend_str(out, ")→(");
    extend_length(out, s.x2);
    extend_str(out, ",");
    extend_length(out, s.y2);
    extend_str(out, ")  width=");
    extend_length(out, s.width);
    extend_str(out, "mm  dist=");
    extend_length(out, twice / 2);
    extend_str(out, "mm");
    proof {
        assert(out@ =~= old(out)@ + trace_tail(segment_model(*s), twice as int));
    }
}

fn longer(a: i64, b: i64) -> (m: i64)
    ensures
        m == most(a as int, b as int),
{
    if a >= b {
        a
    } else {
        b
    }
}

fn check_pad(pad: &PcbPad, p: &Proposal, hits: &mut Vec<String>, near: &mut Vec<String>)
    requires
        in_reach((pad.x as int, pad.y as int)),
        in_reach(point(p.from)),
        in_reach(point(p.to)),
    ensures
        strings(final(hits)@) == strings(old(hits)@) + pad_remark(*pad, *p).0,
        strings(final(near)@) == strings(old(near)@) + pad_remark(*pad, *p).1,
{
    let twice: i64 = twice_from_segment((pad.x, pad.y), p.from, p.to);
    let touch: i128 = p.width as i128 + longer(pad.width, pad.height) as i128;
    let ghost was = (hits@, near@);
    if (twice as i128) < touch {
        let mut line = to_chars("  COLLISION  ");
        extend_pad_tail(&mut line, pad, twice);
        hits.push(to_text(line.as_slice()));
    } else if (twice as i128) < touch + 2 * p.clearance as i128 {
        let mut line = to_chars("  CLOSE      ");
        extend_pad_tail(&mut line, pad, twice);
        extend_least_gap(&mut line, touch, p.clearance);
        near.push(to_text(line.as_slice()));
    }
    proof {
        assert(strings(hits@) =~= strings(was.0) + pad_remark(*pad, *p).0);
        assert(strings(near@) =~= strings(was.1) + pad_remark(*pad, *p).1);
    }
}

fn check_trace(s: &PcbSegment, p: &Proposal, hits: &mut Vec<String>, near: &mut Vec<String>)
    requires
        in_reach(segment_model(*s).from),
        in_reach(segment_model(*s).to),
        in_reach(point(p.from)),
        in_reach(point(p.to)),
    ensures
        strings(final(hits)@) == strings(old(hits)@) + trace_remark(segment_model(*s), *p).0,
        strings(final(near)@) == strings(old(near)@) + trace_remark(segment_model(*s), *p).1,
{
    let ghost was = (hits@, near@);
    let ghost m = segment_model(*s);
    let net = to_chars(p.net);
    if same_str(s.layer.as_str(), p.layer) && !(net.len() > 0 && same_str(s.net.as_str(), p.net)) {
        let twice: i64 = twice_between_segments(p.from, p.to, (s.x1, s.y1), (s.x2, s.y2));
        let touch: i128 = p.width as i128 + s.width as i128;
        if (twice as i128) < touch {
            let mut line = to_chars("  COLLISION  ");
            extend_trace_tail(&mut line, s, twice);
            hits.push(to_text(line.as_slice()));
        } else if (twice as i128) < touch + 2 * p.clearance as i128 {
            let mut line = to_chars("  CLOSE      ");
            extend_trace_tail(&mut line, s, twice);
            extend_least_gap(&mut line, touch, p.clearance);
            near.push(to_text(line.as_slice()));
        }
    }
    proof {
        assert(strings(hits@) =~= strings(was.0) + trace_remark(m, *p).0);
        assert(strings(near@) =~= strings(was.1) + trace_remark(m, *p).1);
    }
}

fn measurable(pads: &Vec<PcbPad>, list: &Vec<PcbSegment>, p: &Proposal) -> (yes: bool)
    ensures
        yes == fits_check(pads@, segment_models(list@), *p),
{
    if !reachable(p.from) || !reachable(p.to) {
        return false;
    }
    let ghost models = segment_models(list@);
    let mut i: usize = 0;
    while i < pads.len()
        invariant
            i <= pads@.len(),
            forall|j: int|
                0 <= j < i ==> in_reach(((#[trigger] pads@[j]).x as int, pads@[j].y as int)),
        decreases pads@.len() - i,
    {
        if !reachable((pads[i].x, pads[i].y)) {
            assert(!in_reach((pads@[i as int].x as int, pads@[i as int].y as int)));
            return false;
        }
        i += 1;
    }
    let mut i: usize = 0;
    while i < list.len()
        invariant
            i <= list@.len(),
            models == segment_models(list@),
            forall|j: int|
                0 <= j < i ==> in_reach((#[trigger] models[j]).from) && in_reach(models[j].to),
        decreases list@.len() - i,
    {
        assert(models[i as int] == segment_model(list@[i as int]));
        if !reachable((list[i].x1, list[i].y1)) || !reachable((list[i].x2, list[i].y2)) {
            return false;
        }
        i += 1;
    }
    true
}

/// Holds a proposed trace against every pad, on whatever layer it is, and against the
/// traces of other nets on its layer. Gives the collisions, and the gaps that are too
/// small. None if something lies out of reach.
pub fn compute_clearance(content: &str, pads: &Vec<PcbPad>, p: &Proposal) -> (found: Option<
    (Vec<String>, Vec<String>),
>)
    ensures
        found is Some == fits_check(pads@, segments(content@), *p),
        found matches Some(r) ==> (strings(r.0@), strings(r.1@)) == remarks(
            pads@,
            segments(content@),
            *p,
        ),
{
    let list = parse_pcb_segments(content);
    let ghost models = segment_models(list@);
    if !measurable(pads, &list, p) {
        return None;
    }
    let mut hits: Vec<String> = Vec::new();
    let mut near: Vec<String> = Vec::new();
    proof {
        assert(strings(hits@) =~= Seq::empty());
        assert(strings(near@) =~= Seq::empty());
        assert(pads@.take(0).len() == 0);
    }
    let mut i: usize = 0;
    while i < pads.len()
        invariant
            i <= pads@.len(),
            models == segment_models(list@),
            fits_check(pads@, models, *p),
            (strings(hits@), strings(near@)) == pad_remarks(pads@.take(i as int), *p),
        decreases pads@.len() - i,
    {
        proof {
            assert(pads@.take(i + 1).drop_last() =~= pads@.take(i as int));
            assert(in_reach((pads@[i as int].x as int, pads@[i as int].y as int)));
        }
        check_pad(&pads[i], p, &mut hits, &mut near);
        i += 1;
    }
    proof {
        assert(pads@.take(pads@.len() as int) =~= pads@);
        assert(models.take(0).len() == 0);
    }
    let ghost front = pad_remarks(pads@, *p);
    let mut i: usize = 0;
    proof {
        assert(front.0 + Seq::<Seq<char>>::empty() =~= front.0);
        assert(front.1 + Seq::<Seq<char>>::empty() =~= front.1);
    }
    while i < list.len()
        invariant
            i <= list@.len(),
            models == segment_models(list@),
            fits_check(pads@, models, *p),
            strings(hits@) == front.0 + trace_remarks(models.take(i as int), *p).0,
            strings(near@) == front.1 + trace_remarks(models.take(i as int), *p).1,
        decreases list@.len() - i,
    {
        let ghost known = trace_remarks(models.take(i as int), *p);
        proof {
            assert(models.take(i + 1).drop_last() =~= models.take(i as int));
            assert(models[i as int] == segment_model(list@[i as int]));
        }
        check_trace(&list[i], p, &mut hits, &mut near);
        proof {
            let more = trace_remark(models[i as int], *p);
            assert(front.0 + known.0 + more.0 =~= front.0 + (known.0 + more.0));
            assert(front.1 + known.1 + more.1 =~= front.1 + (known.1 + more.1));
        }
        i += 1;
    }
    proof {
        assert(models.take(models.len() as int) =~= models);
    }
    Some((hits, near))
}

/// Lines, each with its end.
pub open spec fn ended(lines: Seq<Seq<char>>) -> Seq<char>
    decreases lines.len(),
{
    if lines.len() == 0 {
        Seq::empty()
    } else {
        ended(lines.drop_last()) + lines.last() + "\n"@
    }
}

pub(crate) fn extend_ended(out: &mut Vec<char>, lines: &Vec<String>)
    ensures
        final(out)@ == old(out)@ + ended(strings(lines@)),
{
    let ghost all = strings(lines@);
    let mut i: usize = 0;
    proof {
        assert(all.take(0).len() == 0);
        assert(out@ =~= old(out)@ + ended(all.take(0)));
    }
    while i < lines.len()
        invariant
            i <= lines@.len(),
            all == strings(lines@),
            out@ == old(out)@ + ended(all.take(i as int)),
        decreases lines@.len() - i,
    {
        proof {
            assert(all.take(i + 1).drop_last() =~= all.take(i as int));
            assert(all.take(i + 1).last() == lines@[i as int]@);
        }
        extend_str(out, lines[i].as_str());
        extend_str(out, "\n");
        proof {
            assert(out@ =~= old(out)@ + ended(all.take(i + 1)));
        }
        i += 1;
    }
    proof {
        assert(all.take(all.len() as int) =~= all);
    }
}

/// What a check comes to.
pub open spec fn status(hits: nat, near: nat) -> Seq<char> {
    if hits == 0 && near == 0 {
        "CLEAR"@
    } else if hits > 0 {
        decimal(hits) + " COLLISION(S)"@
    } else {
        decimal(near) + " WARNING(S)"@
    }
}

/// Two points as they are given.
pub open spec fn given_points(a: (int, int), gap: Seq<char>, b: (int, int)) -> Seq<char> {
    "("@ + plain(a.0) + ", "@ + plain(a.1) + ")"@ + gap + "("@ + plain(b.0) + ", "@ + plain(b.1)
        + ")"@
}

fn extend_given(out: &mut Vec<char>, a: (i64, i64), gap: &str, b: (i64, i64))
    ensures
        final(out)@ == old(out)@ + given_points(point(a), gap@, point(b)),
{
    extend_str(out, "(");
    extend_plain(out, a.0);
    extend_str(out, ", ");
    extend_plain(out, a.1);
    extend_str(out, ")");
    extend_str(out, gap);
    extend_str(out, "(");
    extend_plain(out, b.0);
    extend_str(out, ", ");
    extend_plain(out, b.1);
    extend_str(out, ")");
    proof {
        assert(out@ =~= old(out)@ + given_points(point(a), gap@, point(b)));
    }
}

/// What is said of a check.
pub open spec fn clearance_report(p: Proposal, hits: Seq<Seq<char>>, near: Seq<Seq<char>>) -> Seq<
    char,
> {
    let head = "Clearance check ["@ + status(hits.len(), near.len()) + "]: "@ + given_points(
        point(p.from),
        "→"@,
        point(p.to),
    ) + " on "@ + p.layer@ + " w="@ + thousandths(p.width as int) + "mm gap="@ + thousandths(
        p.clearance as int,
    ) + "mm\n\n"@;
    let clear = if hits.len() == 0 && near.len() == 0 {
        "No pads or existing traces within collision or clearance distance. Safe to route.\n"@
    } else {
        Seq::empty()
    };
    let touched = if hits.len() > 0 {
        "COLLISIONS ("@ + decimal(hits.len())
            + ") — trace physically overlaps these pads/existing traces:\n"@ + ended(hits)
    } else {
        Seq::empty()
    };
    let tight = if near.len() > 0 {
        "\nCLEARANCE WARNINGS ("@ + decimal(near.len()) + ") — closer than "@ + thousandths(
            p.clearance as int,
        ) + "mm gap:\n"@ + ended(near)
    } else {
        Seq::empty()
    };
    head + clear + touched + tight
}

fn extend_status(out: &mut Vec<char>, hits: usize, near: usize)
    ensures
        final(out)@ == old(out)@ + status(hits as nat, near as nat),
{
    if hits == 0 && near == 0 {
        extend_str(out, "CLEAR");
    } else if hits > 0 {
        let digits = number(hits);
        extend(out, digits.as_slice());
        extend_str(out, " COLLISION(S)");
    } else {
        let digits = number(near);
        extend(out, digits.as_slice());
        extend_str(out, " WARNING(S)");
    }
    proof {
        assert(out@ =~= old(out)@ + status(hits as nat, near as nat));
    }
}

fn report_clearance(p: &Proposal, hits: &Vec<String>, near: &Vec<String>) -> (out: String)
    ensures
        out@ == clearance_report(*p, strings(hits@), strings(near@)),
{
    proof {
        assert(strings(hits@).len() == hits@.len());
        assert(strings(near@).len() == near@.len());
    }
    let mut out = to_chars("Clearance check [");
    extend_status(&mut out, hits.len(), near.len());
    extend_str(&mut out, "]: ");
    extend_given(&mut out, p.from, "→", p.to);
    extend_str(&mut out, " on ");
    extend_str(&mut out, p.layer);
    extend_str(&mut out, " w=");
    extend_length(&mut out, p.width);
    extend_str(&mut out, "mm gap=");
    extend_length(&mut out, p.clearance);
    extend_str(&mut out, "mm\n\n");
    let ghost head = out@;
    if hits.len() == 0 && near.len() == 0 {
        extend_str(
            &mut out,
            "No pads or existing traces within collision or clearance distance. Safe to route.\n",
        );
    }
    let ghost one = out@;
    if hits.len() > 0 {
        extend_str(&mut out, "COLLISIONS (");
        let digits = number(hits.len());
        extend(&mut out, digits.as_slice());
        extend_str(&mut out, ") — trace physically overlaps these pads/existing traces:\n");
        extend_ended(&mut out, hits);
    }
    let ghost two = out@;
    if near.len() > 0 {
        extend_str(&mut out, "\nCLEARANCE WARNINGS (");
        let digits = number(near.len());
        extend(&mut out, digits.as_slice());
        extend_str(&mut out, ") — closer than ");
        extend_length(&mut out, p.clearance);
        extend_str(&mut out, "mm gap:\n");
        extend_ended(&mut out, near);
    }
    proof {
        let h = strings(hits@);
        let n = strings(near@);
        let clear = if h.len() == 0 && n.len() == 0 {
            "No pads or existing traces within collision or clearance distance. Safe to route.\n"@
        } else {
            Seq::empty()
        };
        let touched = if h.len() > 0 {
            "COLLISIONS ("@ + decimal(h.len())
                + ") — trace physically overlaps these pads/existing traces:\n"@ + ended(h)
        } else {
            Seq::empty()
        };
        let tight = if n.len() > 0 {
            "\nCLEARANCE WARNINGS ("@ + decimal(n.len()) + ") — closer than "@ + thousandths(
                p.clearance as int,
            ) + "mm gap:\n"@ + ended(n)
        } else {
            Seq::empty()
        };
        assert(one =~= head + clear);
        assert(two =~= one + touched);
        assert(out@ =~= two + tight);
    }
    to_text(out.as_slice())
}

/// Checks a proposed trace before it is added. None if something lies out of reach.
pub fn check_trace_clearance(content: &str, pads: &Vec<PcbPad>, p: &Proposal) -> (out: Option<
    String,
>)
    ensures
        out is Some == fits_check(pads@, segments(content@), *p),
        out matches Some(text) ==> ({
            let r = remarks(pads@, segments(content@), *p);
            text@ == clearance_report(*p, r.0, r.1)
        }),
{
    match compute_clearance(content, pads, p) {
        None => None,
        Some((hits, near)) => Some(report_clearance(p, &hits, &near)),
    }
}

/// A trace through a pad always collides with it, if both have any width.
pub proof fn lemma_through_pad_collides(pad: PcbPad, p: Proposal)
    requires
        (pad.x as int, pad.y as int) == point(p.from),
        p.width > 0,
        pad.width >= 0,
    ensures
        nearness(pad_twice(pad, p), pad_touch(pad, p), p.clearance as int) is Collision,
{
    let a = point(p.from);
    assert(crate::distance::along(a, a, point(p.to)) == 0) by (nonlinear_arith)
        requires
            crate::distance::along(a, a, point(p.to)) == (a.0 - a.0) * (point(p.to).0 - a.0) + (a.1
                - a.1) * (point(p.to).1 - a.1),
    ;
    assert(crate::distance::apart2(a, a) == 0);
    crate::distance::lemma_root(0, 0);
}

/// The corners of a region that two points span.
pub open spec fn region_of(a: (int, int), b: (int, int)) -> (int, int, int, int) {
    (least(a.0, b.0), least(a.1, b.1), most(a.0, b.0), most(a.1, b.1))
}

/// Whether a pad lies in the region that two points span, on the layer that is asked
/// for.
pub open spec fn pad_in_region(pad: PcbPad, a: (int, int), b: (int, int), layer: Option<&str>) -> bool {
    let r = region_of(a, b);
    &&& r.0 <= pad.x <= r.2
    &&& r.1 <= pad.y <= r.3
    &&& match layer {
        None => true,
        Some(l) => strings(pad.layers@).contains(l@) || strings(pad.layers@).contains("*.Cu"@),
    }
}

/// What a pad is called.
pub open spec fn pad_names(pad: PcbPad) -> Seq<char> {
    left(pad.reference@, 10) + " "@ + left(pad.pad_num@, 6) + " "@ + left(pad.net@, 35) + " "@
}

/// Where a pad is and how large.
pub open spec fn pad_sizes(pad: PcbPad) -> Seq<char> {
    right(thousandths(pad.x as int), 8) + " "@ + right(thousandths(pad.y as int), 8) + " "@ + right(
        thousandths(pad.width as int),
        6,
    ) + " "@ + right(thousandths(pad.height as int), 6) + "  "@
}

/// The line of a pad.
pub open spec fn pad_row(pad: PcbPad) -> Seq<char> {
    pad_names(pad) + pad_sizes(pad) + (if pad.is_thru_hole {
        "THT"@
    } else {
        "SMD"@
    }) + "\n"@
}

/// The lines of the pads in a region, and how many they are.
pub open spec fn pad_rows(pads: Seq<PcbPad>, a: (int, int), b: (int, int), layer: Option<&str>) -> (
    Seq<char>,
    nat,
)
    decreases pads.len(),
{
    if pads.len() == 0 {
        (Seq::empty(), 0)
    } else {
        let front = pad_rows(pads.drop_last(), a, b, layer);
        if pad_in_region(pads.last(), a, b, layer) {
            (front.0 + pad_row(pads.last()), front.1 + 1)
        } else {
            front
        }
    }
}

/// The pads in a region.
pub open spec fn pads_report(pads: Seq<PcbPad>, a: (int, int), b: (int, int), layer: Option<&str>) -> Seq<
    char,
> {
    let rows = pad_rows(pads, a, b, layer);
    if rows.1 == 0 {
        "No pads in region "@ + given_points(a, " → "@, b)
    } else {
        "Pads in region "@ + given_points(a, " → "@, b) + ":\n\n"@
            + "Ref        Pad    Net                                        X        Y  W(mm)  H(mm)  Type\n"@
            + dashes(95) + "\n"@ + rows.0 + "\nTotal: "@ + decimal(rows.1) + " pads\n"@
    }
}

fn shown(n: i64) -> (out: Vec<char>)
    ensures
        out@ == thousandths(n as int),
{
    let mut out: Vec<char> = Vec::new();
    extend_length(&mut out, n);
    proof {
        assert(out@ =~= thousandths(n as int));
    }
    out
}

fn extend_names(out: &mut Vec<char>, pad: &PcbPad)
    ensures
        final(out)@ == old(out)@ + pad_names(*pad),
{
    let reference = to_chars(pad.reference.as_str());
    let num = to_chars(pad.pad_num.as_str());
    let net = to_chars(pad.net.as_str());
    extend_left(out, reference.as_slice(), 10);
    extend_str(out, " ");
    extend_left(out, num.as_slice(), 6);
    extend_str(out, " ");
    extend_left(out, net.as_slice(), 35);
    extend_str(out, " ");
    proof {
        assert(out@ =~= old(out)@ + pad_names(*pad));
    }
}

fn extend_sizes(out: &mut Vec<char>, pad: &PcbPad)
    ensures
        final(out)@ == old(out)@ + pad_sizes(*pad),
{
    extend_right(out, shown(pad.x).as_slice(), 8);
    extend_str(out, " ");
    extend_right(out, shown(pad.y).as_slice(), 8);
    extend_str(out, " ");
    extend_right(out, shown(pad.width).as_slice(), 6);
    extend_str(out, " ");
    extend_right(out, shown(pad.height).as_slice(), 6);
    extend_str(out, "  ");
    proof {
        assert(out@ =~= old(out)@ + pad_sizes(*pad));
    }
}

fn extend_pad_row(out: &mut Vec<char>, pad: &PcbPad)
    ensures
        final(out)@ == old(out)@ + pad_row(*pad),
{
    extend_names(out, pad);
    extend_sizes(out, pad);
    if pad.is_thru_hole {
        extend_str(out, "THT");
    } else {
        extend_str(out, "SMD");
    }
    extend_str(out, "\n");
    proof {
        assert(out@ =~= old(out)@ + pad_row(*pad));
    }
}

fn smaller(a: i64, b: i64) -> (m: i64)
    ensures
        m == least(a as int, b as int),
{
    if a <= b {
        a
    } else {
        b
    }
}

fn is_in_region(pad: &PcbPad, a: (i64, i64), b: (i64, i64), layer: Option<&str>) -> (yes: bool)
    ensures
        yes == pad_in_region(*pad, point(a), point(b), layer),
{
    if !(smaller(a.0, b.0) <= pad.x && pad.x <= longer(a.0, b.0) && smaller(a.1, b.1) <= pad.y
        && pad.y <= longer(a.1, b.1)) {
        return false;
    }
    match layer {
        None => true,
        Some(l) => {
            let wanted = l.to_string();
            let any = "*.Cu".to_string();
            has_text(&pad.layers, &wanted) || has_text(&pad.layers, &any)
        },
    }
}

/// Lists the pads whose middle lies in the region that two points span.
pub fn query_pads_in_region(
    pads: &Vec<PcbPad>,
    a: (i64, i64),
    b: (i64, i64),
    layer: Option<&str>,
) -> (out: String)
    ensures
        out@ == pads_report(pads@, point(a), point(b), layer),
{
    let mut rows: Vec<char> = Vec::new();
    let mut n: usize = 0;
    let mut i: usize = 0;
    proof {
        assert(pads@.take(0).len() == 0);
        assert(rows@ =~= Seq::empty());
    }
    while i < pads.len()
        invariant
            i <= pads@.len(),
            (rows@, n as nat) == pad_rows(pads@.take(i as int), point(a), point(b), layer),
            n <= i,
        decreases pads@.len() - i,
    {
        proof {
            assert(pads@.take(i + 1).drop_last() =~= pads@.take(i as int));
        }
        if is_in_region(&pads[i], a, b, layer) {
            extend_pad_row(&mut rows, &pads[i]);
            n += 1;
        }
        i += 1;
    }
    proof {
        assert(pads@.take(pads@.len() as int) =~= pads@);
    }
    if n == 0 {
        let mut out = to_chars("No pads in region ");
        extend_given(&mut out, a, " → ", b);
        return to_text(out.as_slice());
    }
    let mut out = to_chars("Pads in region ");
    extend_given(&mut out, a, " → ", b);
    extend_str(&mut out, ":\n\n");
    extend_str(
        &mut out,
        "Ref        Pad    Net                                        X        Y  W(mm)  H(mm)  Type\n",
    );
    extend_repeat(&mut out, '-', 95);
    proof {
        assert(Seq::new(95nat, |i: int| '-') =~= dashes(95));
    }
    extend_str(&mut out, "\n");
    extend(&mut out, rows.as_slice());
    extend_str(&mut out, "\nTotal: ");
    let digits = number(n);
    extend(&mut out, digits.as_slice());
    extend_str(&mut out, " pads\n");
    to_text(out.as_slice())
}

/// Whether a trace's extent meets the region that two points span, on the layer and
/// the net that are asked for.
pub open spec fn trace_in_region(
    s: SegmentModel,
    a: (i64, i64),
    b: (i64, i64),
    layer: Option<&str>,
    net: Option<&str>,
) -> bool {
    let r = region_of(point(a), point(b));
    &&& spans_meet(
        s.from,
        s.to,
        Region { x_min: r.0 as i64, y_min: r.1 as i64, x_max: r.2 as i64, y_max: r.3 as i64 },
    )
    &&& (layer matches Some(l) ==> s.layer == l@)
    &&& (net matches Some(n) ==> s.net == n@)
}

/// The line of a trace.
pub open spec fn trace_row(s: SegmentModel) -> Seq<char> {
    left(net_or_unrouted(s.net), 30) + " "@ + left(s.layer, 6) + " "@ + right(
        thousandths(s.from.0),
        8,
    ) + " "@ + right(thousandths(s.from.1), 8) + "    "@ + right(thousandths(s.to.0), 8) + " "@
        + right(thousandths(s.to.1), 8) + "  "@ + right(thousandths(s.width), 6) + "\n"@
}

/// The lines of the traces in a region, and how many they are.
pub open spec fn trace_rows(
    list: Seq<SegmentModel>,
    a: (i64, i64),
    b: (i64, i64),
    layer: Option<&str>,
    net: Option<&str>,
) -> (Seq<char>, nat)
    decreases list.len(),
{
    if list.len() == 0 {
        (Seq::empty(), 0)
    } else {
        let front = trace_rows(list.drop_last(), a, b, layer, net);
        if trace_in_region(list.last(), a, b, layer, net) {
            (front.0 + trace_row(list.last()), front.1 + 1)
        } else {
            front
        }
    }
}

/// The traces in a region.
pub open spec fn traces_report(
    list: Seq<SegmentModel>,
    a: (i64, i64),
    b: (i64, i64),
    layer: Option<&str>,
    net: Option<&str>,
) -> Seq<char> {
    let rows = trace_rows(list, a, b, layer, net);
    if rows.1 == 0 {
        "No traces in region "@ + given_points(point(a), " → "@, point(b))
    } else {
        "Traces in region "@ + given_points(point(a), " → "@, point(b)) + ":\n\n"@
            + "Net                            Layer        X1       Y1          X2       Y2   W(mm)\n"@
            + dashes(90) + "\n"@ + rows.0 + "\nTotal: "@ + decimal(rows.1) + " traces\n"@
    }
}

fn extend_trace_row(out: &mut Vec<char>, s: &PcbSegment)
    ensures
        final(out)@ == old(out)@ + trace_row(segment_model(*s)),
{
    let given = to_chars(s.net.as_str());
    let net: Vec<char> = if given.len() == 0 {
        to_chars("<unrouted>")
    } else {
        given
    };
    let layer = to_chars(s.layer.as_str());
    extend_left(out, net.as_slice(), 30);
    extend_str(out, " ");
    extend_left(out, layer.as_slice(), 6);
    extend_str(out, " ");
    extend_right(out, shown(s.x1).as_slice(), 8);
    extend_str(out, " ");
    extend_right(out, shown(s.y1).as_slice(), 8);
    extend_str(out, "    ");
    extend_right(out, shown(s.x2).as_slice(), 8);
    extend_str(out, " ");
    extend_right(out, shown(s.y2).as_slice(), 8);
    extend_str(out, "  ");
    extend_right(out, shown(s.width).as_slice(), 6);
    extend_str(out, "\n");
    proof {
        assert(out@ =~= old(out)@ + trace_row(segment_model(*s)));
    }
}

/// Lists the traces whose extent meets the region that two points span.
pub fn query_traces_in_region(
    content: &str,
    a: (i64, i64),
    b: (i64, i64),
    layer: Option<&str>,
    net: Option<&str>,
) -> (out: String)
    ensures
        out@ == traces_report(segments(content@), a, b, layer, net),
{
    let list = parse_pcb_segments(content);
    let ghost all = segment_models(list@);
    let x_min: i64 = smaller(a.0, b.0);
    let y_min: i64 = smaller(a.1, b.1);
    let x_max: i64 = longer(a.0, b.0);
    let y_max: i64 = longer(a.1, b.1);
    let mut rows: Vec<char> = Vec::new();
    let mut n: usize = 0;
    let mut i: usize = 0;
    proof {
        assert(all.take(0).len() == 0);
        assert(rows@ =~= Seq::empty());
    }
    while i < list.len()
        invariant
            i <= list@.len(),
            all == segment_models(list@),
            (x_min as int, y_min as int, x_max as int, y_max as int) == region_of(
                point(a),
                point(b),
            ),
            (rows@, n as nat) == trace_rows(all.take(i as int), a, b, layer, net),
            n <= i,
        decreases list@.len() - i,
    {
        proof {
            assert(all.take(i + 1).drop_last() =~= all.take(i as int));
            assert(all.take(i + 1).last() == segment_model(list@[i as int]));
        }
        let s = &list[i];
        let on_layer: bool = match layer {
            Some(l) => same_str(s.layer.as_str(), l),
            None => true,
        };
        let on_net: bool = match net {
            Some(t) => same_str(s.net.as_str(), t),
            None => true,
        };
        if segment_bbox_overlaps_region(s, x_min, y_min, x_max, y_max) && on_layer && on_net {
            extend_trace_row(&mut rows, s);
            n += 1;
        }
        i += 1;
    }
    proof {
        assert(all.take(all.len() as int) =~= all);
    }
    if n == 0 {
        let mut out = to_chars("No traces in region ");
        extend_given(&mut out, a, " → ", b);
        return to_text(out.as_slice());
    }
    let mut out = to_chars("Traces in region ");
    extend_given(&mut out, a, " → ", b);
    extend_str(&mut out, ":\n\n");
    extend_str(
        &mut out,
        "Net                            Layer        X1       Y1          X2       Y2   W(mm)\n",
    );
    extend_repeat(&mut out, '-', 90);
    proof {
        assert(Seq::new(90nat, |i: int| '-') =~= dashes(90));
    }
    extend_str(&mut out, "\n");
    extend(&mut out, rows.as_slice());
    extend_str(&mut out, "\nTotal: ");
    let digits = number(n);
    extend(&mut out, digits.as_slice());
    extend_str(&mut out, " traces\n");
    to_text(out.as_slice())
}

} // verus!
