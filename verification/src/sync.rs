//! Bringing a board up to date with its schematic.

use crate::footprints::{
    footprint_name, footprint_table, footprints, is_table_of, lemma_footprint_get, lemma_footprints,
    read_footprint_name, read_value, set_footprint_name, set_value, span_list, value_of,
    with_footprint_name, with_quoted, with_value,
};
use crate::netlist::{
    both, or_empty, part_list, parts_from, pin_net_list, pin_nets, read_parts, read_pin_nets,
    NetlistError, PinNet,
};
use crate::schematic::{lemma_property_read_back, property};
use crate::sexpr::{pair, quoted_after, Span};
use crate::strings::{decimal, join, joined, number, sort, sorted, strings};
use crate::tables::{lemma_place_changed, lemma_table_list, listed, place, TextMap};
use crate::text::{
    extend, extend_str, find, lemma_find_at, lemma_find_in_start, lemma_find_is_first, matches_at,
    same, splice, spliced, to_chars, to_text,
};
use crate::tree::nodes;
use vstd::prelude::*;
use vstd::slice::slice_subrange;

verus! {

/// The text that `std` writes for a text with `{:?}`: in quotation marks, with what
/// cannot stand in a string literal escaped.
pub uninterp spec fn debug_text(text: Seq<char>) -> Seq<char>;

/// `std`'s `Debug` for `str`, through `format!`. The result is named; how each
/// character is escaped is left to `std`.
#[verifier::external_body]
pub(crate) fn quoted_text(text: &str) -> (out: String)
    ensures
        out@ == debug_text(text@),
{
    format!("{:?}", text)
}

/// A part of a schematic: its reference, and the footprint and the value it is to
/// have.
pub open spec fn part_of(p: PartUpdate) -> (Seq<char>, (Seq<char>, Seq<char>)) {
    (p.reference@, (p.footprint@, p.value@))
}

pub open spec fn parts_of(list: Seq<PartUpdate>) -> Seq<(Seq<char>, (Seq<char>, Seq<char>))> {
    list.map_values(|p: PartUpdate| part_of(p))
}

/// A part whose footprint is to be changed.
#[derive(Debug)]
pub struct PartUpdate {
    pub reference: String,
    /// The footprint it is to have; empty if none is asked for.
    pub footprint: String,
    /// The value it is to have; empty if none is asked for.
    pub value: String,
}

/// The block of the footprint with a reference.
pub open spec fn block_of(text: Seq<char>, reference: Seq<char>) -> Option<Seq<char>> {
    match place(footprints(text), reference) {
        Some(i) => Some(text.subrange(footprints(text)[i].1.0, footprints(text)[i].1.1)),
        None => None,
    }
}

/// Whether a footprint is made from another library part than it is to be.
pub open spec fn other_name(block: Seq<char>, name: Seq<char>) -> bool {
    name.len() > 0 && name != or_empty(footprint_name(block))
}

/// Whether a footprint has another value than it is to have.
pub open spec fn other_value(block: Seq<char>, value: Seq<char>) -> bool {
    value.len() > 0 && value != or_empty(value_of(block))
}

/// How a part stands on a board.
pub enum Standing {
    /// The board has no footprint for it.
    Missing,
    /// Its footprint is as it is to be.
    Same,
    /// Its footprint is to be changed.
    Differs,
}

pub open spec fn standing(text: Seq<char>, part: (Seq<char>, (Seq<char>, Seq<char>))) -> Standing {
    match block_of(text, part.0) {
        None => Standing::Missing,
        Some(block) => if other_name(block, part.1.0) || other_value(block, part.1.1) {
            Standing::Differs
        } else {
            Standing::Same
        },
    }
}

/// The parts that stand in a certain way.
pub open spec fn parts_standing(
    text: Seq<char>,
    parts: Seq<(Seq<char>, (Seq<char>, Seq<char>))>,
    how: Standing,
) -> Seq<(Seq<char>, (Seq<char>, Seq<char>))>
    decreases parts.len(),
{
    if parts.len() == 0 {
        Seq::empty()
    } else {
        let front = parts_standing(text, parts.drop_last(), how);
        if standing(text, parts.last()) == how {
            front.push(parts.last())
        } else {
            front
        }
    }
}

pub open spec fn references(parts: Seq<(Seq<char>, (Seq<char>, Seq<char>))>) -> Seq<Seq<char>> {
    parts.map_values(|p: (Seq<char>, (Seq<char>, Seq<char>))| p.0)
}

/// The references among the footprints of a board that no part has.
pub open spec fn unknown_references(
    list: Seq<(Seq<char>, (int, int))>,
    parts: Seq<(Seq<char>, (Seq<char>, Seq<char>))>,
) -> Seq<Seq<char>>
    decreases list.len(),
{
    if list.len() == 0 {
        Seq::empty()
    } else {
        let front = unknown_references(list.drop_last(), parts);
        if place(parts, list.last().0) is None {
            front.push(list.last().0)
        } else {
            front
        }
    }
}

/// What is said of a change: the reference, then what the footprint was and is to
/// be, and what the value was and is to be.
pub open spec fn change_text(
    reference: Seq<char>,
    names: Option<(Seq<char>, Seq<char>)>,
    values: Option<(Seq<char>, Seq<char>)>,
) -> Seq<char> {
    let head = "  "@ + reference + ":"@;
    let named = match names {
        Some((was, is)) => head + "\n    footprint: "@ + was + " → "@ + is,
        None => head,
    };
    match values {
        Some((was, is)) => named + "\n    value:     "@ + was + " → "@ + is,
        None => named,
    }
}

pub open spec fn two_texts(pair: Option<(String, String)>) -> Option<(Seq<char>, Seq<char>)> {
    match pair {
        Some((a, b)) => Some((a@, b@)),
        None => None,
    }
}

/// What is said of a change; the old and new names and values come as they are to
/// be shown.
pub fn describe_change(
    reference: &str,
    names: Option<(String, String)>,
    values: Option<(String, String)>,
) -> (out: String)
    ensures
        out@ == change_text(reference@, two_texts(names), two_texts(values)),
{
    let mut out = to_chars("  ");
    extend_str(&mut out, reference);
    extend_str(&mut out, ":");
    match names {
        Some((was, is)) => {
            extend_str(&mut out, "\n    footprint: ");
            extend_str(&mut out, was.as_str());
            extend_str(&mut out, " → ");
            extend_str(&mut out, is.as_str());
        },
        None => {},
    }
    match values {
        Some((was, is)) => {
            extend_str(&mut out, "\n    value:     ");
            extend_str(&mut out, was.as_str());
            extend_str(&mut out, " → ");
            extend_str(&mut out, is.as_str());
        },
        None => {},
    }
    to_text(out.as_slice())
}

/// What is said of the change of a part.
pub open spec fn part_change(
    text: Seq<char>,
    part: (Seq<char>, (Seq<char>, Seq<char>)),
) -> Seq<char> {
    match block_of(text, part.0) {
        None => Seq::empty(),
        Some(block) => change_text(
            part.0,
            if other_name(block, part.1.0) {
                Some((debug_text(or_empty(footprint_name(block))), debug_text(part.1.0)))
            } else {
                None
            },
            if other_value(block, part.1.1) {
                Some((debug_text(or_empty(value_of(block))), debug_text(part.1.1)))
            } else {
                None
            },
        ),
    }
}

pub open spec fn part_changes(
    text: Seq<char>,
    parts: Seq<(Seq<char>, (Seq<char>, Seq<char>))>,
) -> Seq<Seq<char>> {
    parts.map_values(|p: (Seq<char>, (Seq<char>, Seq<char>))| part_change(text, p))
}

/// What bringing a board up to date is to do, and what it leaves to be done by hand.
#[derive(Debug)]
pub struct SyncPlan {
    /// The parts whose footprints are to be changed.
    pub pending: Vec<PartUpdate>,
    /// What is said of each of those changes.
    pub updated: Vec<String>,
    /// References that the board lacks, in order.
    pub missing_from_pcb: Vec<String>,
    /// References that the schematic lacks, in order.
    pub missing_from_sch: Vec<String>,
    /// References with nothing to change, in order.
    pub no_change: Vec<String>,
}

/// What a plan is to hold for a board and the parts of a schematic.
pub open spec fn is_plan(
    plan: SyncPlan,
    text: Seq<char>,
    parts: Seq<(Seq<char>, (Seq<char>, Seq<char>))>,
) -> bool {
    let differing = parts_standing(text, parts, Standing::Differs);
    &&& parts_of(plan.pending@) == differing
    &&& strings(plan.updated@) == part_changes(text, differing)
    &&& strings(plan.missing_from_pcb@) == sorted(
        references(parts_standing(text, parts, Standing::Missing)),
    )
    &&& strings(plan.missing_from_sch@) == sorted(unknown_references(footprints(text), parts))
    &&& strings(plan.no_change@) == sorted(
        references(parts_standing(text, parts, Standing::Same)),
    )
}

/// What is found of a part on a board.
enum Found {
    Missing,
    Same,
    Differs(String),
}

fn or_no_text(text: Option<Vec<char>>) -> (out: Vec<char>)
    ensures
        match text {
            Some(t) => out@ == t@,
            None => out@.len() == 0,
        },
{
    match text {
        Some(t) => t,
        None => Vec::new(),
    }
}

/// The old and the new text to show, if they differ and a new one is asked for.
fn difference(old: &Vec<char>, new: &str) -> (out: Option<(String, String)>)
    ensures
        two_texts(out) == (if new@.len() > 0 && new@ != old@ {
            Some((debug_text(old@), debug_text(new@)))
        } else {
            None
        }),
{
    let wanted = to_chars(new);
    if wanted.len() == 0 || same(wanted.as_slice(), old.as_slice()) {
        return None;
    }
    let was = to_text(old.as_slice());
    Some((quoted_text(was.as_str()), quoted_text(new)))
}

fn stand(text: &[char], table: &TextMap<Span>, part: &(String, (String, String))) -> (found: Found)
    requires
        is_table_of(*table, text@),
    ensures
        ({
            let p = (part.0@, both(part.1));
            match found {
                Found::Missing => standing(text@, p) == Standing::Missing,
                Found::Same => standing(text@, p) == Standing::Same,
                Found::Differs(change) => {
                    &&& standing(text@, p) == Standing::Differs
                    &&& change@ == part_change(text@, p)
                },
            }
        }),
{
    proof {
        lemma_footprint_get(table, text@, part.0@);
        lemma_footprints(text@);
    }
    match table.get(part.0.as_str()) {
        None => Found::Missing,
        Some(span) => {
            let block = slice_subrange(text, span.start, span.end);
            let name = or_no_text(read_footprint_name(block));
            let value = or_no_text(read_value(block));
            proof {
                assert(name@ =~= or_empty(footprint_name(block@)));
                assert(value@ =~= or_empty(value_of(block@)));
            }
            let names = difference(&name, part.1.0.as_str());
            let values = difference(&value, part.1.1.as_str());
            if names.is_none() && values.is_none() {
                Found::Same
            } else {
                Found::Differs(describe_change(part.0.as_str(), names, values))
            }
        },
    }
}

fn unknown(table: &TextMap<Span>, parts: &TextMap<(String, String)>) -> (out: Vec<String>)
    requires
        parts.well_formed(),
    ensures
        strings(out@) == unknown_references(
            span_list(table.entries@),
            part_list(parts.entries@),
        ),
{
    let ghost all = span_list(table.entries@);
    let ghost known = part_list(parts.entries@);
    let mut out: Vec<String> = Vec::new();
    let mut i: usize = 0;
    proof {
        assert(strings(out@) =~= Seq::<Seq<char>>::empty());
        assert(all.take(0).len() == 0);
    }
    while i < table.entries.len()
        invariant
            i <= table.entries@.len(),
            parts.well_formed(),
            all == span_list(table.entries@),
            known == part_list(parts.entries@),
            strings(out@) == unknown_references(all.take(i as int), known),
        decreases table.entries@.len() - i,
    {
        let reference = &table.entries[i].0;
        proof {
            assert(all.take(i + 1).drop_last() =~= all.take(i as int));
            assert(all.take(i + 1).last().0 == reference@);
            lemma_table_list(parts, reference@);
            lemma_place_changed(
                listed(parts.entries@),
                |p: (String, String)| both(p),
                reference@,
            );
        }
        if !parts.contains_key(reference.as_str()) {
            let ghost before = out@;
            out.push(reference.clone());
            proof {
                assert(strings(out@) =~= strings(before).push(reference@));
            }
        }
        i += 1;
    }
    proof {
        assert(all.take(all.len() as int) =~= all);
    }
    out
}

/// Compares a board with the parts of a schematic.
pub fn plan_update(content: &str, parts: &TextMap<(String, String)>) -> (plan: SyncPlan)
    requires
        parts.well_formed(),
    ensures
        is_plan(plan, content@, part_list(parts.entries@)),
{
    let text = to_chars(content);
    let table = footprint_table(text.as_slice());
    let ghost all = part_list(parts.entries@);
    let mut pending: Vec<PartUpdate> = Vec::new();
    let mut updated: Vec<String> = Vec::new();
    let mut missing: Vec<String> = Vec::new();
    let mut no_change: Vec<String> = Vec::new();
    let mut i: usize = 0;
    proof {
        assert(all.take(0).len() == 0);
        assert(parts_of(pending@) =~= Seq::empty());
        assert(strings(updated@) =~= part_changes(text@, Seq::empty()));
        assert(strings(missing@) =~= references(Seq::empty()));
        assert(strings(no_change@) =~= references(Seq::empty()));
    }
    while i < parts.entries.len()
        invariant
            i <= parts.entries@.len(),
            text@ == content@,
            is_table_of(table, text@),
            all == part_list(parts.entries@),
            parts_of(pending@) == parts_standing(text@, all.take(i as int), Standing::Differs),
            strings(updated@) == part_changes(
                text@,
                parts_standing(text@, all.take(i as int), Standing::Differs),
            ),
            strings(missing@) == references(
                parts_standing(text@, all.take(i as int), Standing::Missing),
            ),
            strings(no_change@) == references(
                parts_standing(text@, all.take(i as int), Standing::Same),
            ),
        decreases parts.entries@.len() - i,
    {
        let part = &parts.entries[i];
        let ghost p = (part.0@, both(part.1));
        let ghost so_far = all.take(i as int);
        proof {
            assert(all.take(i + 1).drop_last() =~= so_far);
            assert(all.take(i + 1).last() == p);
        }
        match stand(text.as_slice(), &table, part) {
            Found::Missing => {
                let ghost before = missing@;
                missing.push(part.0.clone());
                proof {
                    assert(strings(missing@) =~= strings(before).push(p.0));
                    assert(references(
                        parts_standing(text@, so_far, Standing::Missing).push(p),
                    ) =~= references(parts_standing(text@, so_far, Standing::Missing)).push(p.0));
                }
            },
            Found::Same => {
                let ghost before = no_change@;
                no_change.push(part.0.clone());
                proof {
                    assert(strings(no_change@) =~= strings(before).push(p.0));
                    assert(references(parts_standing(text@, so_far, Standing::Same).push(p))
                        =~= references(parts_standing(text@, so_far, Standing::Same)).push(p.0));
                }
            },
            Found::Differs(change) => {
                let ghost before = pending@;
                let ghost said = updated@;
                let update = PartUpdate {
                    reference: part.0.clone(),
                    footprint: part.1.0.clone(),
                    value: part.1.1.clone(),
                };
                pending.push(update);
                updated.push(change);
                proof {
                    let differing = parts_standing(text@, so_far, Standing::Differs);
                    assert(parts_of(pending@) =~= parts_of(before).push(p));
                    assert(strings(updated@) =~= strings(said).push(change@));
                    assert(part_changes(text@, differing.push(p)) =~= part_changes(
                        text@,
                        differing,
                    ).push(part_change(text@, p)));
                }
            },
        }
        i += 1;
    }
    proof {
        assert(all.take(all.len() as int) =~= all);
    }
    let strangers = unknown(&table, parts);
    SyncPlan {
        pending,
        updated,
        missing_from_pcb: sort(&missing),
        missing_from_sch: sort(&strangers),
        no_change: sort(&no_change),
    }
}

/// The block of a footprint, changed to what is asked for.
pub open spec fn updated_block(block: Seq<char>, name: Seq<char>, value: Seq<char>) -> Seq<char> {
    let named = if name.len() > 0 {
        with_footprint_name(block, name)
    } else {
        block
    };
    if value.len() > 0 {
        with_value(named, value)
    } else {
        named
    }
}

/// The board with one part's footprint changed.
pub open spec fn with_part(
    text: Seq<char>,
    part: (Seq<char>, (Seq<char>, Seq<char>)),
) -> Seq<char> {
    match place(footprints(text), part.0) {
        None => text,
        Some(i) => {
            let span = footprints(text)[i].1;
            spliced(
                text,
                span.0,
                span.1,
                updated_block(text.subrange(span.0, span.1), part.1.0, part.1.1),
            )
        },
    }
}

/// The board with the footprints of the parts changed, one after the other.
pub open spec fn with_parts(
    text: Seq<char>,
    parts: Seq<(Seq<char>, (Seq<char>, Seq<char>))>,
) -> Seq<char>
    decreases parts.len(),
{
    if parts.len() == 0 {
        text
    } else {
        with_part(with_parts(text, parts.drop_last()), parts.last())
    }
}

fn set_part(text: &[char], part: &PartUpdate) -> (out: Vec<char>)
    ensures
        out@ == with_part(text@, part_of(*part)),
{
    let table = footprint_table(text);
    proof {
        lemma_footprint_get(&table, text@, part.reference@);
        lemma_footprints(text@);
    }
    match table.get(part.reference.as_str()) {
        None => {
            let mut copy: Vec<char> = Vec::new();
            extend(&mut copy, text);
            proof {
                assert(copy@ =~= text@);
            }
            copy
        },
        Some(span) => {
            let block = slice_subrange(text, span.start, span.end);
            let name = to_chars(part.footprint.as_str());
            let value = to_chars(part.value.as_str());
            let mut new: Vec<char> = Vec::new();
            extend(&mut new, block);
            proof {
                assert(new@ =~= block@);
            }
            if name.len() > 0 {
                new = set_footprint_name(block, part.footprint.as_str());
            }
            if value.len() > 0 {
                new = set_value(new.as_slice(), part.value.as_str());
            }
            splice(text, span.start, span.end, new.as_slice())
        },
    }
}

/// Changes the footprints that a plan asks to change.
pub fn apply_update(content: &str, pending: &Vec<PartUpdate>) -> (out: String)
    ensures
        out@ == with_parts(content@, parts_of(pending@)),
{
    let ghost all = parts_of(pending@);
    let mut text = to_chars(content);
    let mut i: usize = 0;
    proof {
        assert(all.take(0).len() == 0);
    }
    while i < pending.len()
        invariant
            i <= pending@.len(),
            all == parts_of(pending@),
            text@ == with_parts(content@, all.take(i as int)),
        decreases pending@.len() - i,
    {
        proof {
            assert(all.take(i + 1).drop_last() =~= all.take(i as int));
            assert(all.take(i + 1).last() == part_of(pending@[i as int]));
        }
        text = set_part(text.as_slice(), &pending[i]);
        i += 1;
    }
    proof {
        assert(all.take(all.len() as int) =~= all);
    }
    to_text(text.as_slice())
}

/// What came of putting pads on their nets.
#[derive(Debug)]
pub enum NetOutcome {
    /// It was not tried.
    NotTried,
    /// The netlist connects no pin.
    NoNets,
    /// This many pads were put on a net.
    Assigned(usize),
    /// It failed, for this reason.
    Failed(String),
    /// It could not be started, for this reason.
    Skipped(String),
}

/// What is said of putting pads on their nets.
pub open spec fn outcome_text(outcome: NetOutcome) -> Seq<char> {
    match outcome {
        NetOutcome::NotTried => Seq::empty(),
        NetOutcome::NoNets => "No net data found in netlist — pad nets not assigned."@,
        NetOutcome::Assigned(n) => "Net assignment: "@ + decimal(n as nat) + " pad(s) assigned."@,
        NetOutcome::Failed(reason) => "Net assignment warning: "@ + reason@,
        NetOutcome::Skipped(reason) => "Net assignment skipped (python3 unavailable): "@ + reason@,
    }
}

/// What is said of putting pads on their nets.
pub fn describe_outcome(outcome: &NetOutcome) -> (out: String)
    ensures
        out@ == outcome_text(*outcome),
{
    match outcome {
        NetOutcome::NotTried => String::new(),
        NetOutcome::NoNets => "No net data found in netlist — pad nets not assigned.".to_string(),
        NetOutcome::Assigned(n) => {
            let mut out = to_chars("Net assignment: ");
            extend(&mut out, number(*n).as_slice());
            extend_str(&mut out, " pad(s) assigned.");
            to_text(out.as_slice())
        },
        NetOutcome::Failed(reason) => {
            let mut out = to_chars("Net assignment warning: ");
            extend_str(&mut out, reason.as_str());
            to_text(out.as_slice())
        },
        NetOutcome::Skipped(reason) => {
            let mut out = to_chars("Net assignment skipped (python3 unavailable): ");
            extend_str(&mut out, reason.as_str());
            to_text(out.as_slice())
        },
    }
}

/// A paragraph that counts and lists; none for an empty list.
pub open spec fn paragraph(list: Seq<Seq<char>>, words: Seq<char>) -> Seq<char> {
    if list.len() == 0 {
        Seq::empty()
    } else {
        "\n"@ + decimal(list.len()) + words + joined(list, ", "@) + "\n"@
    }
}

fn extend_paragraph(out: &mut Vec<char>, list: &Vec<String>, words: &str)
    ensures
        final(out)@ == old(out)@ + paragraph(strings(list@), words@),
{
    if list.len() > 0 {
        extend_str(out, "\n");
        extend(out, number(list.len()).as_slice());
        extend_str(out, words);
        extend_str(out, join(list, ", ").as_str());
        extend_str(out, "\n");
    }
    proof {
        assert(strings(list@).len() == list@.len());
        assert(out@ =~= old(out)@ + paragraph(strings(list@), words@));
    }
}

/// How a report opens: whether changes were only planned, and which there are.
pub open spec fn opening(updated: Seq<Seq<char>>, dry_run: bool) -> Seq<char> {
    let head = if dry_run {
        "DRY RUN — no changes written.\n\n"@
    } else {
        Seq::empty()
    };
    if updated.len() == 0 {
        head + "All schematic components already match the PCB. No changes needed.\n"@
    } else {
        head + decimal(updated.len()) + " component(s) "@ + (if dry_run {
            "would be updated"@
        } else {
            "updated"@
        }) + ":\n"@ + joined(updated, "\n"@) + "\n"@
    }
}

/// What is reported of bringing a board up to date.
pub open spec fn report_text(plan: SyncPlan, dry_run: bool, nets: Seq<char>) -> Seq<char> {
    let said = opening(strings(plan.updated@), dry_run) + paragraph(
        strings(plan.missing_from_pcb@),
        " ref(s) in schematic but NOT in PCB (add them manually):\n  "@,
    ) + paragraph(strings(plan.missing_from_sch@), " ref(s) in PCB but NOT in schematic:\n  "@)
        + paragraph(strings(plan.no_change@), " component(s) already in sync: "@);
    if nets.len() == 0 {
        said
    } else {
        said + "\n"@ + nets + "\n"@
    }
}

/// Reports what bringing a board up to date did, or would do.
pub fn update_report(plan: &SyncPlan, dry_run: bool, nets: &str) -> (out: String)
    ensures
        out@ == report_text(*plan, dry_run, nets@),
{
    let mut out: Vec<char> = Vec::new();
    if dry_run {
        extend_str(&mut out, "DRY RUN — no changes written.\n\n");
    }
    proof {
        assert(strings(plan.updated@).len() == plan.updated@.len());
        assert(out@ =~= if dry_run {
            "DRY RUN — no changes written.\n\n"@
        } else {
            Seq::empty()
        });
    }
    if plan.updated.len() == 0 {
        extend_str(
            &mut out,
            "All schematic components already match the PCB. No changes needed.\n",
        );
    } else {
        extend(&mut out, number(plan.updated.len()).as_slice());
        extend_str(&mut out, " component(s) ");
        if dry_run {
            extend_str(&mut out, "would be updated");
        } else {
            extend_str(&mut out, "updated");
        }
        extend_str(&mut out, ":\n");
        extend_str(&mut out, join(&plan.updated, "\n").as_str());
        extend_str(&mut out, "\n");
    }
    extend_paragraph(
        &mut out,
        &plan.missing_from_pcb,
        " ref(s) in schematic but NOT in PCB (add them manually):\n  ",
    );
    extend_paragraph(
        &mut out,
        &plan.missing_from_sch,
        " ref(s) in PCB but NOT in schematic:\n  ",
    );
    extend_paragraph(&mut out, &plan.no_change, " component(s) already in sync: ");
    let tail = to_chars(nets);
    if tail.len() > 0 {
        extend_str(&mut out, "\n");
        extend_str(&mut out, nets);
        extend_str(&mut out, "\n");
    }
    to_text(out.as_slice())
}

/// A board brought up to date.
#[derive(Debug)]
pub struct PcbUpdate {
    /// The board.
    pub content: String,
    pub plan: SyncPlan,
    /// The nets that pads are to be put on; none if changes are only planned.
    pub pin_nets: Vec<PinNet>,
}

/// Brings a board up to date with the netlist of its schematic: footprints are made
/// from the library parts, and get the values, that the schematic asks for. Nothing
/// is placed or routed anew. Only plans if `dry_run`.
pub fn update_pcb_from_schematic(netlist: &str, pcb: &str, dry_run: bool) -> (done: Result<
    PcbUpdate,
    NetlistError,
>)
    ensures
        match nodes(netlist@) {
            None => done == Err::<PcbUpdate, NetlistError>(NetlistError::Malformed),
            Some(list) => {
                let parts = parts_from(list, 0);
                &&& done is Ok <==> parts.len() > 0
                &&& done is Err ==> done->Err_0 == NetlistError::NoParts
                &&& done matches Ok(update) ==> {
                    &&& is_plan(update.plan, pcb@, parts)
                    &&& update.content@ == (if dry_run {
                        pcb@
                    } else {
                        with_parts(pcb@, parts_standing(pcb@, parts, Standing::Differs))
                    })
                    &&& pin_net_list(update.pin_nets@) == (if dry_run {
                        Seq::empty()
                    } else {
                        pin_nets(netlist@)
                    })
                }
            },
        },
{
    let parts = match read_parts(netlist) {
        Ok(parts) => parts,
        Err(e) => {
            return Err(e);
        },
    };
    let plan = plan_update(pcb, &parts);
    if dry_run {
        let none: Vec<PinNet> = Vec::new();
        proof {
            assert(pin_net_list(none@) =~= Seq::empty());
        }
        return Ok(PcbUpdate { content: pcb.to_string(), plan, pin_nets: none });
    }
    let content = apply_update(pcb, &plan.pending);
    Ok(PcbUpdate { content, plan, pin_nets: read_pin_nets(netlist) })
}

/// What is put after a marker is read back, if it holds no quotation mark.
pub proof fn lemma_quoted_read_back(block: Seq<char>, marker: Seq<char>, value: Seq<char>)
    requires
        quoted_after(block, marker) is Some,
        forall|i: int| 0 <= i < value.len() ==> #[trigger] value[i] != '"',
    ensures
        quoted_after(with_quoted(block, marker, value), marker) == Some(value),
{
    let at = find(block, marker, 0)->0;
    lemma_find_is_first(block, marker, 0);
    let start = at + marker.len();
    let mark = seq!['"'];
    let end = find(block, mark, start)->0;
    lemma_find_is_first(block, mark, start);
    let out = with_quoted(block, marker, value);
    assert(out.take(start) =~= block.take(start));
    lemma_find_in_start(block, out, marker, at);
    let close = start + value.len();
    assert forall|q: int| start <= q < close implies !matches_at(out, mark, q) by {
        assert(out.subrange(q, q + 1)[0] == value[q - start]);
        assert(mark[0] == '"');
    }
    assert(block.subrange(end, end + 1)[0] == mark[0]);
    assert(out.subrange(close, close + 1) =~= mark);
    lemma_find_at(out, mark, start, close);
    assert(out.subrange(start, close) =~= value);
}

/// A footprint that is made from another library part says so.
pub proof fn lemma_name_read_back(block: Seq<char>, name: Seq<char>)
    requires
        footprint_name(block) is Some,
        forall|i: int| 0 <= i < name.len() ==> #[trigger] name[i] != '"',
    ensures
        footprint_name(with_footprint_name(block, name)) == Some(name),
{
    lemma_quoted_read_back(block, "(footprint \""@, name);
}

/// A footprint that is given another value says so, if the value holds no quotation
/// mark and no backslash.
pub proof fn lemma_value_read_back(block: Seq<char>, value: Seq<char>)
    requires
        property(block, "Value"@) is Some,
        forall|i: int| 0 <= i < value.len() ==> #[trigger] value[i] != '"' && value[i] != '\\',
    ensures
        value_of(with_value(block, value)) == Some(value),
{
    lemma_property_read_back(block, "Value"@, value);
}

} // verus!
