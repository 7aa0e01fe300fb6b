//! Copper of a board: its traces, vias and pads, what they connect, and which
//! traces connect nothing.

use crate::decimal::{nanometres, parse_nanometres};
use crate::fields::{is_space, past_spaces, read_xy, space, xy_nanometres};
use crate::sexpr::{
    ascending, filtered, lemma_ascending_proper, lemma_filtered_ascending, lemma_proper_cuts_fit,
    lemma_top_level_blocks, pair, pairs, quoted, quoted_after, splice_out_ranges, top_level,
    top_level_blocks, without, Span,
};
use crate::text::{contains, find, find_from, holds, same_str, to_chars, to_text};
use vstd::prelude::*;
use vstd::slice::slice_subrange;

verus! {

/// The text without white space at its end.
pub open spec fn trim_end(text: Seq<char>) -> Seq<char>
    decreases text.len(),
{
    if text.len() > 0 && is_space(text.last()) {
        trim_end(text.drop_last())
    } else {
        text
    }
}

/// The text without white space at either end.
pub open spec fn trim(text: Seq<char>) -> Seq<char> {
    trim_end(text.skip(past_spaces(text, 0)))
}

/// The text without white space at either end.
pub fn trimmed(text: &[char]) -> (out: &[char])
    ensures
        out@ == trim(text@),
{
    let mut start: usize = 0;
    while start < text.len() && space(text[start])
        invariant
            start <= text.len(),
            past_spaces(text@, 0) == past_spaces(text@, start as int),
        decreases text.len() - start,
    {
        start += 1;
    }
    let rest = slice_subrange(text, start, text.len());
    proof {
        assert(rest@ =~= text@.skip(past_spaces(text@, 0)));
    }
    let mut end: usize = rest.len();
    proof {
        assert(rest@.take(end as int) =~= rest@);
    }
    while end > 0 && space(rest[end - 1])
        invariant
            end <= rest.len(),
            trim_end(rest@) == trim_end(rest@.take(end as int)),
        decreases end,
    {
        proof {
            assert(rest@.take(end as int).drop_last() =~= rest@.take(end - 1));
        }
        end -= 1;
    }
    proof {
        assert(rest@.subrange(0, end as int) =~= rest@.take(end as int));
    }
    slice_subrange(rest, 0, end)
}

/// The length that the first field of the given keyword gives, in nanometres.
pub open spec fn number_field(block: Seq<char>, keyword: Seq<char>) -> Option<int> {
    match find(block, keyword, 0) {
        None => None,
        Some(at) => match find(block, seq![')'], at + keyword.len()) {
            None => None,
            Some(close) => nanometres(trim(block.subrange(at + keyword.len(), close))),
        },
    }
}

/// The length that the first field of the given keyword gives, in nanometres.
pub fn parse_number_field(block: &[char], keyword: &[char]) -> (length: Option<i64>)
    ensures
        length is Some == number_field(block@, keyword@) is Some,
        length matches Some(v) ==> number_field(block@, keyword@) == Some(v as int),
{
    match find_from(block, keyword, 0) {
        None => None,
        Some(at) => {
            let start: usize = at + keyword.len();
            let mark: Vec<char> = vec![')'];
            proof {
                assert(mark@ =~= seq![')']);
            }
            match find_from(block, mark.as_slice(), start) {
                None => None,
                Some(close) => parse_nanometres(trimmed(slice_subrange(block, start, close))),
            }
        },
    }
}

/// One routed segment, its coordinates and width in nanometres.
pub struct PcbSegment {
    pub x1: i64,
    pub y1: i64,
    pub x2: i64,
    pub y2: i64,
    pub layer: String,
    pub net: String,
    pub width: i64,
}

/// A routed segment in numbers and texts.
pub struct SegmentModel {
    pub from: (int, int),
    pub to: (int, int),
    pub layer: Seq<char>,
    pub net: Seq<char>,
    pub width: int,
}

pub open spec fn segment_model(s: PcbSegment) -> SegmentModel {
    SegmentModel {
        from: (s.x1 as int, s.y1 as int),
        to: (s.x2 as int, s.y2 as int),
        layer: s.layer@,
        net: s.net@,
        width: s.width as int,
    }
}

pub open spec fn segment_models(list: Seq<PcbSegment>) -> Seq<SegmentModel> {
    list.map_values(|s: PcbSegment| segment_model(s))
}

/// What a quoted field holds, or nothing.
pub open spec fn field_or_empty(block: Seq<char>, marker: Seq<char>) -> Seq<char> {
    match quoted_after(block, marker) {
        Some(v) => v,
        None => Seq::empty(),
    }
}

/// The segment that a block describes, if it gives both ends and a layer. Without
/// a net it has none; without a width it is a quarter of a millimetre wide.
pub open spec fn segment_of(block: Seq<char>) -> Option<SegmentModel> {
    match (
        xy_nanometres(block, "(start "@),
        xy_nanometres(block, "(end "@),
        quoted_after(block, "(layer \""@),
    ) {
        (Some(from), Some(to), Some(layer)) => Some(
            SegmentModel {
                from,
                to,
                layer,
                net: field_or_empty(block, "(net \""@),
                width: match number_field(block, "(width "@) {
                    Some(w) => w,
                    None => 250_000,
                },
            },
        ),
        _ => None,
    }
}

fn read_quoted(block: &[char], marker: &str) -> (value: Option<String>)
    ensures
        value is Some == quoted_after(block@, marker@) is Some,
        value matches Some(v) ==> quoted_after(block@, marker@) == Some(v@),
{
    let mark = to_chars(marker);
    match quoted(block, mark.as_slice()) {
        Some(v) => Some(to_text(v.as_slice())),
        None => None,
    }
}

fn read_quoted_or_empty(block: &[char], marker: &str) -> (value: String)
    ensures
        value@ == field_or_empty(block@, marker@),
{
    match read_quoted(block, marker) {
        Some(v) => v,
        None => String::new(),
    }
}

fn read_point_field(block: &[char], marker: &str) -> (point: Option<(i64, i64)>)
    ensures
        point is Some == xy_nanometres(block@, marker@) is Some,
        point matches Some((x, y)) ==> xy_nanometres(block@, marker@) == Some(
            (x as int, y as int),
        ),
{
    let mark = to_chars(marker);
    read_xy(block, mark.as_slice())
}

/// The segment that a block describes.
pub fn read_segment(block: &[char]) -> (segment: Option<PcbSegment>)
    ensures
        segment is Some == segment_of(block@) is Some,
        segment matches Some(s) ==> segment_of(block@) == Some(segment_model(s)),
{
    let from = read_point_field(block, "(start ");
    let to = read_point_field(block, "(end ");
    let layer = read_quoted(block, "(layer \"");
    let net = read_quoted_or_empty(block, "(net \"");
    let width_mark = to_chars("(width ");
    let width: i64 = match parse_number_field(block, width_mark.as_slice()) {
        Some(w) => w,
        None => 250_000,
    };
    match (from, to, layer) {
        (Some((x1, y1)), Some((x2, y2)), Some(l)) => Some(
            PcbSegment { x1, y1, x2, y2, layer: l, net, width },
        ),
        _ => None,
    }
}

/// The segments that the given blocks describe.
pub open spec fn segments_among(text: Seq<char>, blocks: Seq<(int, int)>) -> Seq<SegmentModel>
    decreases blocks.len(),
{
    if blocks.len() == 0 {
        Seq::empty()
    } else {
        let known = segments_among(text, blocks.drop_last());
        match segment_of(text.subrange(blocks.last().0, blocks.last().1)) {
            Some(s) => known.push(s),
            None => known,
        }
    }
}

/// The routed segments of a board.
pub open spec fn segments(text: Seq<char>) -> Seq<SegmentModel> {
    segments_among(text, top_level(text, "(segment"@, 0))
}

/// The routed segments of a board.
pub fn parse_pcb_segments(content: &str) -> (out: Vec<PcbSegment>)
    ensures
        segment_models(out@) == segments(content@),
{
    let text = to_chars(content);
    proof {
        reveal_strlit("(segment");
    }
    let blocks = top_level_blocks(text.as_slice(), "(segment");
    let ghost all = pairs(blocks@);
    let mut out: Vec<PcbSegment> = Vec::new();
    let mut i: usize = 0;
    proof {
        assert(all.take(0).len() == 0);
        assert(segment_models(out@) =~= Seq::<SegmentModel>::empty());
    }
    while i < blocks.len()
        invariant
            i <= blocks.len(),
            all == pairs(blocks@),
            forall|j: int|
                0 <= j < blocks@.len() ==> (#[trigger] blocks@[j]).start < blocks@[j].end
                    <= text@.len(),
            segment_models(out@) == segments_among(text@, all.take(i as int)),
        decreases blocks.len() - i,
    {
        let block: Span = blocks[i];
        proof {
            assert(all.take(i + 1).drop_last() =~= all.take(i as int));
            assert(all.take(i + 1).last() == pair(block));
        }
        match read_segment(slice_subrange(text.as_slice(), block.start, block.end)) {
            Some(s) => {
                let ghost done = out@;
                out.push(s);
                proof {
                    assert(segment_models(out@) =~= segment_models(done).push(segment_model(s)));
                }
            },
            None => {},
        }
        i += 1;
    }
    proof {
        assert(all.take(all.len() as int) =~= all);
    }
    out
}

/// A rectangle: least and greatest coordinate across, least and greatest down.
#[derive(Clone, Copy, Debug, PartialEq, Eq)]
pub struct Region {
    pub x_min: i64,
    pub y_min: i64,
    pub x_max: i64,
    pub y_max: i64,
}

pub open spec fn least(a: int, b: int) -> int {
    if a <= b {
        a
    } else {
        b
    }
}

pub open spec fn most(a: int, b: int) -> int {
    if a >= b {
        a
    } else {
        b
    }
}

/// Whether the rectangle that two points span meets the given one.
pub open spec fn spans_meet(p: (int, int), q: (int, int), r: Region) -> bool {
    &&& least(p.0, q.0) <= r.x_max
    &&& most(p.0, q.0) >= r.x_min
    &&& least(p.1, q.1) <= r.y_max
    &&& most(p.1, q.1) >= r.y_min
}

fn spans_meet_exec(p: (i64, i64), q: (i64, i64), r: &Region) -> (yes: bool)
    ensures
        yes == spans_meet((p.0 as int, p.1 as int), (q.0 as int, q.1 as int), *r),
{
    (p.0 <= r.x_max || q.0 <= r.x_max) && (p.0 >= r.x_min || q.0 >= r.x_min) && (p.1 <= r.y_max
        || q.1 <= r.y_max) && (p.1 >= r.y_min || q.1 >= r.y_min)
}

/// Whether the rectangle that a segment spans meets the given one.
pub fn segment_bbox_overlaps_region(
    seg: &PcbSegment,
    x_min: i64,
    y_min: i64,
    x_max: i64,
    y_max: i64,
) -> (yes: bool)
    ensures
        yes == spans_meet(
            segment_model(*seg).from,
            segment_model(*seg).to,
            (Region { x_min, y_min, x_max, y_max }),
        ),
{
    let r = Region { x_min, y_min, x_max, y_max };
    spans_meet_exec((seg.x1, seg.y1), (seg.x2, seg.y2), &r)
}

/// Which traces are meant: those that meet every condition given.
pub struct TraceFilter<'a> {
    pub net: Option<&'a str>,
    pub layer: Option<&'a str>,
    pub uuid: Option<&'a str>,
    pub region: Option<Region>,
}

/// Whether a trace block meets every condition given.
pub open spec fn trace_matches(block: Seq<char>, filter: TraceFilter) -> bool {
    &&& filter.net matches Some(n) ==> field_or_empty(block, "(net \""@) == n@
    &&& filter.layer matches Some(l) ==> quoted_after(block, "(layer \""@) == Some(l@)
    &&& filter.uuid matches Some(u) ==> contains(block, u@)
    &&& filter.region matches Some(r) ==> match (
        xy_nanometres(block, "(start "@),
        xy_nanometres(block, "(end "@),
    ) {
        (Some(p), Some(q)) => spans_meet(p, q, r),
        _ => false,
    }
}

fn block_matches(block: &[char], filter: &TraceFilter) -> (yes: bool)
    ensures
        yes == trace_matches(block@, *filter),
{
    if let Some(n) = filter.net {
        let net = read_quoted_or_empty(block, "(net \"");
        if !same_str(net.as_str(), n) {
            return false;
        }
    }
    if let Some(l) = filter.layer {
        match read_quoted(block, "(layer \"") {
            None => {
                return false;
            },
            Some(layer) => {
                if !same_str(layer.as_str(), l) {
                    return false;
                }
            },
        }
    }
    if let Some(u) = filter.uuid {
        let wanted = to_chars(u);
        if !holds(block, wanted.as_slice()) {
            return false;
        }
    }
    if let Some(r) = filter.region {
        match (read_point_field(block, "(start "), read_point_field(block, "(end ")) {
            (Some(p), Some(q)) => {
                if !spans_meet_exec(p, q, &r) {
                    return false;
                }
            },
            _ => {
                return false;
            },
        }
    }
    true
}

/// A trace that was found: where it stands, and what it says of itself.
pub struct TraceMatch {
    pub span: Span,
    /// Its net, or `<unrouted>`.
    pub net: String,
    /// Its layer, or `?`.
    pub layer: String,
    /// Its ends, in nanometres; an end that is not given counts as the origin.
    pub from: (i64, i64),
    pub to: (i64, i64),
}

/// A trace that was found, in numbers and texts.
pub struct MatchModel {
    pub span: (int, int),
    pub net: Seq<char>,
    pub layer: Seq<char>,
    pub from: (int, int),
    pub to: (int, int),
}

pub open spec fn match_model(m: TraceMatch) -> MatchModel {
    MatchModel {
        span: pair(m.span),
        net: m.net@,
        layer: m.layer@,
        from: (m.from.0 as int, m.from.1 as int),
        to: (m.to.0 as int, m.to.1 as int),
    }
}

pub open spec fn match_models(list: Seq<TraceMatch>) -> Seq<MatchModel> {
    list.map_values(|m: TraceMatch| match_model(m))
}

pub open spec fn point_or_origin(block: Seq<char>, marker: Seq<char>) -> (int, int) {
    match xy_nanometres(block, marker) {
        Some(p) => p,
        None => (0, 0),
    }
}

/// What a found trace is reported as.
pub open spec fn match_of(text: Seq<char>, span: (int, int)) -> MatchModel {
    let block = text.subrange(span.0, span.1);
    let net = field_or_empty(block, "(net \""@);
    MatchModel {
        span,
        net: if net.len() == 0 {
            "<unrouted>"@
        } else {
            net
        },
        layer: match quoted_after(block, "(layer \""@) {
            Some(l) => l,
            None => "?"@,
        },
        from: point_or_origin(block, "(start "@),
        to: point_or_origin(block, "(end "@),
    }
}

/// Those among the blocks that meet every condition given.
pub open spec fn matches_among(
    text: Seq<char>,
    blocks: Seq<(int, int)>,
    filter: TraceFilter,
) -> Seq<MatchModel>
    decreases blocks.len(),
{
    if blocks.len() == 0 {
        Seq::empty()
    } else {
        let known = matches_among(text, blocks.drop_last(), filter);
        let span = blocks.last();
        if trace_matches(text.subrange(span.0, span.1), filter) {
            known.push(match_of(text, span))
        } else {
            known
        }
    }
}

/// The traces of a board that meet every condition given.
pub open spec fn matching_traces(text: Seq<char>, filter: TraceFilter) -> Seq<MatchModel> {
    matches_among(text, top_level(text, "(segment"@, 0), filter)
}

fn point_or_zero(block: &[char], marker: &str) -> (p: (i64, i64))
    ensures
        (p.0 as int, p.1 as int) == point_or_origin(block@, marker@),
{
    match read_point_field(block, marker) {
        Some(p) => p,
        None => (0, 0),
    }
}

/// The traces of a board that meet every condition given.
pub fn find_matching_traces(content: &str, filter: &TraceFilter) -> (out: Vec<TraceMatch>)
    ensures
        match_models(out@) == matching_traces(content@, *filter),
{
    let text = to_chars(content);
    proof {
        reveal_strlit("(segment");
    }
    let blocks = top_level_blocks(text.as_slice(), "(segment");
    let ghost all = pairs(blocks@);
    let mut out: Vec<TraceMatch> = Vec::new();
    let mut i: usize = 0;
    proof {
        assert(all.take(0).len() == 0);
        assert(match_models(out@) =~= Seq::<MatchModel>::empty());
    }
    while i < blocks.len()
        invariant
            i <= blocks.len(),
            all == pairs(blocks@),
            forall|j: int|
                0 <= j < blocks@.len() ==> (#[trigger] blocks@[j]).start < blocks@[j].end
                    <= text@.len(),
            match_models(out@) == matches_among(text@, all.take(i as int), *filter),
        decreases blocks.len() - i,
    {
        let span: Span = blocks[i];
        proof {
            assert(all.take(i + 1).drop_last() =~= all.take(i as int));
            assert(all.take(i + 1).last() == pair(span));
        }
        let block = slice_subrange(text.as_slice(), span.start, span.end);
        if block_matches(block, filter) {
            let net = read_quoted_or_empty(block, "(net \"");
            let shown: String = if net.as_str().is_empty() {
                "<unrouted>".to_string()
            } else {
                net
            };
            let layer: String = match read_quoted(block, "(layer \"") {
                Some(l) => l,
                None => "?".to_string(),
            };
            let found = TraceMatch {
                span,
                net: shown,
                layer,
                from: point_or_zero(block, "(start "),
                to: point_or_zero(block, "(end "),
            };
            let ghost done = out@;
            out.push(found);
            proof {
                assert(match_models(out@) =~= match_models(done).push(match_model(found)));
            }
        }
        i += 1;
    }
    proof {
        assert(all.take(all.len() as int) =~= all);
    }
    out
}

/// What deleting traces gives.
pub enum TraceDeletion {
    /// No condition was given; nothing is touched.
    NoCondition,
    /// No trace meets the conditions; nothing is touched.
    NothingFound,
    /// The traces that would go; nothing is touched.
    Preview { matches: Vec<TraceMatch> },
    /// The board without the traces that went, and how many they are.
    Removed { content: String, count: usize },
}

/// Where the found traces stand.
pub open spec fn match_spans(list: Seq<MatchModel>) -> Seq<(int, int)> {
    list.map_values(|m: MatchModel| m.span)
}

/// Whether any condition is given.
pub open spec fn has_condition(filter: TraceFilter) -> bool {
    filter.net is Some || filter.layer is Some || filter.uuid is Some || filter.region is Some
}

proof fn lemma_match_spans(text: Seq<char>, blocks: Seq<(int, int)>, filter: TraceFilter)
    ensures
        match_spans(matches_among(text, blocks, filter)) == filtered(
            blocks,
            |span: (int, int)| trace_matches(text.subrange(span.0, span.1), filter),
        ),
    decreases blocks.len(),
{
    let keep = |span: (int, int)| trace_matches(text.subrange(span.0, span.1), filter);
    if blocks.len() > 0 {
        lemma_match_spans(text, blocks.drop_last(), filter);
        let known = matches_among(text, blocks.drop_last(), filter);
        let span = blocks.last();
        if keep(span) {
            assert(match_spans(known.push(match_of(text, span))) =~= match_spans(known).push(span));
        }
    } else {
        assert(match_spans(matches_among(text, blocks, filter)) =~= Seq::<(int, int)>::empty());
    }
}

/// The traces found stand in the board one behind another.
pub proof fn lemma_matches_ascending(text: Seq<char>, filter: TraceFilter)
    ensures
        ascending(match_spans(matching_traces(text, filter)), text.len() as int),
{
    reveal_strlit("(segment");
    let blocks = top_level(text, "(segment"@, 0);
    lemma_top_level_blocks(text, "(segment"@, 0);
    lemma_match_spans(text, blocks, filter);
    lemma_filtered_ascending(
        blocks,
        |span: (int, int)| trace_matches(text.subrange(span.0, span.1), filter),
        text.len() as int,
    );
}

/// Deletes the traces that meet every condition given, or only lists them.
pub fn delete_traces(content: &str, filter: &TraceFilter, dry_run: bool) -> (out: TraceDeletion)
    ensures
        ({
            let found = matching_traces(content@, *filter);
            match out {
                TraceDeletion::NoCondition => !has_condition(*filter),
                TraceDeletion::NothingFound => has_condition(*filter) && found.len() == 0,
                TraceDeletion::Preview { matches } => has_condition(*filter) && found.len() > 0
                    && dry_run && match_models(matches@) == found,
                TraceDeletion::Removed { content: left, count } => has_condition(*filter)
                    && found.len() > 0 && !dry_run && left@ == without(
                    content@,
                    match_spans(found),
                ) && count == found.len(),
            }
        }),
{
    if filter.net.is_none() && filter.layer.is_none() && filter.uuid.is_none()
        && filter.region.is_none() {
        return TraceDeletion::NoCondition;
    }
    let matches = find_matching_traces(content, filter);
    proof {
        assert(match_models(matches@).len() == matches@.len());
    }
    if matches.len() == 0 {
        return TraceDeletion::NothingFound;
    }
    if dry_run {
        return TraceDeletion::Preview { matches };
    }
    let mut runs: Vec<Span> = Vec::new();
    let mut i: usize = 0;
    while i < matches.len()
        invariant
            i <= matches.len(),
            runs@.len() == i,
            forall|j: int| 0 <= j < i ==> (#[trigger] runs@[j]) == matches@[j].span,
        decreases matches.len() - i,
    {
        runs.push(matches[i].span);
        i += 1;
    }
    proof {
        let found = matching_traces(content@, *filter);
        assert(pairs(runs@) =~= match_spans(found));
        lemma_matches_ascending(content@, *filter);
        lemma_ascending_proper(match_spans(found), content@.len() as int);
        lemma_proper_cuts_fit(content@, match_spans(found));
    }
    let count: usize = matches.len();
    TraceDeletion::Removed { content: splice_out_ranges(content, runs), count }
}

} // verus!
