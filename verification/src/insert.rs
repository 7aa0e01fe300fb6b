//! Putting new elements into a board or a schematic.

use crate::clearance::{
    compute_clearance, ended, extend_ended, fits_check, remarks, Proposal,
};
use crate::pads::PcbPad;
use crate::strings::{decimal, find_back_from_end, last_of, number, strings};
use crate::text::{extend, extend_str, to_chars, to_text};
use crate::traces::segments;
use crate::units::{extend_plain, plain};
use vstd::prelude::*;
use vstd::slice::slice_subrange;

verus! {

/// Two coordinates, as few digits as show them whole.
pub open spec fn point_text(x: int, y: int) -> Seq<char> {
    plain(x) + " "@ + plain(y)
}

/// Appends two coordinates.
pub fn extend_point(out: &mut Vec<char>, x: i64, y: i64)
    ensures
        final(out)@ == old(out)@ + point_text(x as int, y as int),
{
    extend_plain(out, x);
    extend_str(out, " ");
    extend_plain(out, y);
    proof {
        assert(out@ =~= old(out)@ + point_text(x as int, y as int));
    }
}

/// Where the last bracket of a file stands that starts a line, or where the file ends.
pub open spec fn last_bracket(text: Seq<char>) -> int {
    match last_of(text, "\n)"@) {
        Some(at) => at,
        None => text.len() as int,
    }
}

/// A file with an element before its last bracket.
pub open spec fn inserted(text: Seq<char>, element: Seq<char>) -> Seq<char> {
    let at = last_bracket(text);
    text.take(at) + "\n"@ + element + "\n"@ + text.skip(at)
}

/// Puts an element before the last bracket of a file.
pub fn insert_element(content: &str, element: &[char]) -> (out: String)
    ensures
        out@ == inserted(content@, element@),
{
    let text = to_chars(content);
    let mark = to_chars("\n)");
    let at: usize = match find_back_from_end(text.as_slice(), mark.as_slice()) {
        Some(at) => at,
        None => text.len(),
    };
    let mut out: Vec<char> = Vec::new();
    proof {
        crate::strings::lemma_last_of_bounds(text@, mark@);
    }
    extend(&mut out, slice_subrange(text.as_slice(), 0, at));
    extend_str(&mut out, "\n");
    extend(&mut out, element);
    extend_str(&mut out, "\n");
    extend(&mut out, slice_subrange(text.as_slice(), at, text.len()));
    proof {
        assert(out@ =~= inserted(content@, element@));
    }
    to_text(out.as_slice())
}

/// Everything that was in a file before an element was put in is there after, in
/// order.
pub proof fn lemma_inserted_keeps(text: Seq<char>, element: Seq<char>)
    ensures
        ({
            let at = last_bracket(text);
            let out = inserted(text, element);
            let n = element.len() + 2;
            &&& 0 <= at <= text.len()
            &&& out.len() == text.len() + n
            &&& out.take(at) == text.take(at)
            &&& out.skip(at + n) == text.skip(at)
            &&& out.subrange(at + 1, at + 1 + element.len()) == element
        }),
{
    reveal_strlit("\n");
    crate::strings::lemma_last_of_bounds(text, "\n)"@);
    let at = last_bracket(text);
    let out = inserted(text, element);
    assert(out.take(at) =~= text.take(at));
    assert(out.skip(at + element.len() + 2) =~= text.skip(at));
    assert(out.subrange(at + 1, at + 1 + element.len()) =~= element);
}

/// A trace as a board holds it.
pub open spec fn trace_text(p: Proposal, stamp: Seq<char>) -> Seq<char> {
    "\t(segment\n\t\t(start "@ + point_text(p.from.0 as int, p.from.1 as int) + ")\n\t\t(end "@
        + point_text(p.to.0 as int, p.to.1 as int) + ")\n\t\t(width "@ + plain(p.width as int)
        + ")\n\t\t(layer \""@ + p.layer@ + "\")\n\t\t(net \""@ + p.net@ + "\")\n\t\t(uuid \""@
        + stamp + "\")\n\t)"@
}

fn write_trace(p: &Proposal, stamp: &str) -> (out: Vec<char>)
    ensures
        out@ == trace_text(*p, stamp@),
{
    let mut out = to_chars("\t(segment\n\t\t(start ");
    extend_point(&mut out, p.from.0, p.from.1);
    extend_str(&mut out, ")\n\t\t(end ");
    extend_point(&mut out, p.to.0, p.to.1);
    extend_str(&mut out, ")\n\t\t(width ");
    extend_plain(&mut out, p.width);
    extend_str(&mut out, ")\n\t\t(layer \"");
    extend_str(&mut out, p.layer);
    extend_str(&mut out, "\")\n\t\t(net \"");
    extend_str(&mut out, p.net);
    extend_str(&mut out, "\")\n\t\t(uuid \"");
    extend_str(&mut out, stamp);
    extend_str(&mut out, "\")\n\t)");
    out
}

/// What is said where a trace is refused.
pub open spec fn refusal(hits: Seq<Seq<char>>, near: Seq<Seq<char>>) -> Seq<char> {
    let head = "Refused to add trace: "@ + decimal(hits.len())
        + " COLLISION(S) found. Pass force=true to write anyway.\n\n"@ + "COLLISIONS ("@ + decimal(
        hits.len(),
    ) + "):\n"@ + ended(hits);
    if near.len() > 0 {
        head + "\nCLEARANCE WARNINGS ("@ + decimal(near.len()) + "):\n"@ + ended(near)
    } else {
        head
    }
}

fn write_refusal(hits: &Vec<String>, near: &Vec<String>) -> (out: String)
    ensures
        out@ == refusal(strings(hits@), strings(near@)),
{
    proof {
        assert(strings(hits@).len() == hits@.len());
        assert(strings(near@).len() == near@.len());
    }
    let digits = number(hits.len());
    let mut out = to_chars("Refused to add trace: ");
    extend(&mut out, digits.as_slice());
    extend_str(&mut out, " COLLISION(S) found. Pass force=true to write anyway.\n\n");
    extend_str(&mut out, "COLLISIONS (");
    extend(&mut out, digits.as_slice());
    extend_str(&mut out, "):\n");
    extend_ended(&mut out, hits);
    if near.len() > 0 {
        extend_str(&mut out, "\nCLEARANCE WARNINGS (");
        let digits = number(near.len());
        extend(&mut out, digits.as_slice());
        extend_str(&mut out, "):\n");
        extend_ended(&mut out, near);
    }
    to_text(out.as_slice())
}

/// What came of adding a trace.
pub enum TraceAddition {
    /// The board with the trace.
    Added { content: String, summary: String },
    /// It would touch something; nothing is touched.
    Refused { report: String },
    /// Something lies out of reach, so it could not be checked.
    Unmeasured,
}

/// What is said of a trace that was added.
pub open spec fn added_text(p: Proposal) -> Seq<char> {
    "Added trace ("@ + plain(p.from.0 as int) + ","@ + plain(p.from.1 as int) + ")→("@ + plain(
        p.to.0 as int,
    ) + ","@ + plain(p.to.1 as int) + ") on "@ + p.layer@ + " width="@ + plain(p.width as int)
        + "mm net="@ + p.net@
}

fn describe_added(p: &Proposal) -> (out: String)
    ensures
        out@ == added_text(*p),
{
    let mut out = to_chars("Added trace (");
    extend_plain(&mut out, p.from.0);
    extend_str(&mut out, ",");
    extend_plain(&mut out, p.from.1);
    extend_str(&mut out, ")→(");
    extend_plain(&mut out, p.to.0);
    extend_str(&mut out, ",");
    extend_plain(&mut out, p.to.1);
    extend_str(&mut out, ") on ");
    extend_str(&mut out, p.layer);
    extend_str(&mut out, " width=");
    extend_plain(&mut out, p.width);
    extend_str(&mut out, "mm net=");
    extend_str(&mut out, p.net);
    to_text(out.as_slice())
}

/// Adds a trace to a board. If it is to be checked, it is refused where it would touch
/// something, unless it is forced.
pub fn add_trace(
    content: &str,
    pads: &Vec<PcbPad>,
    p: &Proposal,
    check: bool,
    force: bool,
    stamp: &str,
) -> (out: TraceAddition)
    ensures
        ({
            let r = remarks(pads@, segments(content@), *p);
            if check && !fits_check(pads@, segments(content@), *p) {
                out is Unmeasured
            } else if check && r.0.len() > 0 && !force {
                out matches TraceAddition::Refused { report } && report@ == refusal(r.0, r.1)
            } else {
                out matches TraceAddition::Added { content: new, summary } && new@ == inserted(
                    content@,
                    trace_text(*p, stamp@),
                ) && summary@ == added_text(*p)
            }
        }),
{
    if check {
        match compute_clearance(content, pads, p) {
            None => {
                return TraceAddition::Unmeasured;
            },
            Some((hits, near)) => {
                proof {
                    assert(strings(hits@).len() == hits@.len());
                }
                if hits.len() > 0 && !force {
                    return TraceAddition::Refused { report: write_refusal(&hits, &near) };
                }
            },
        }
    }
    let element = write_trace(p, stamp);
    let new = insert_element(content, element.as_slice());
    TraceAddition::Added { content: new, summary: describe_added(p) }
}

} // verus!
