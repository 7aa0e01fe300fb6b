//! The blocks of a KiCad file, the fields inside a block, and cutting blocks out.

use crate::fields::{is_space, space};
use crate::text::{extend, find, find_from, line_start, matches_at, start_of_line, to_chars};
use vstd::prelude::*;
use vstd::slice::slice_subrange;

verus! {

/// A run of characters inside a text: from `start` up to, not including, `end`.
#[derive(Clone, Copy, Debug, PartialEq, Eq)]
pub struct Span {
    pub start: usize,
    pub end: usize,
}

/// The run as a pair of numbers.
pub open spec fn pair(span: Span) -> (int, int) {
    (span.start as int, span.end as int)
}

/// The runs of a list, as pairs of numbers.
pub open spec fn pairs(spans: Seq<Span>) -> Seq<(int, int)> {
    spans.map_values(|s: Span| pair(s))
}

/// The position just past the bracket that brings the depth down to nothing,
/// reading from `at` with `depth` brackets open, inside a quoted string or not.
/// A backslash in a quoted string takes the next character with it.
pub open spec fn close_from(text: Seq<char>, at: int, depth: int, quoted: bool) -> int
    decreases text.len() + 1 - at,
{
    if at < 0 || at >= text.len() {
        text.len() as int
    } else if quoted {
        if text[at] == '\\' {
            close_from(text, at + 2, depth, true)
        } else {
            close_from(text, at + 1, depth, text[at] != '"')
        }
    } else if text[at] == '"' {
        close_from(text, at + 1, depth, true)
    } else if text[at] == '(' {
        close_from(text, at + 1, depth + 1, false)
    } else if text[at] == ')' {
        if depth <= 1 {
            at + 1
        } else {
            close_from(text, at + 1, depth - 1, false)
        }
    } else {
        close_from(text, at + 1, depth, false)
    }
}

/// The position just past the block that opens at `start`: past its closing
/// bracket, or the end of the text if it is never closed.
pub open spec fn end_of_block(text: Seq<char>, start: int) -> int {
    close_from(text, start, 0, false)
}

/// Whether a block that opens at `at` is one indent deep: nothing but two spaces,
/// or one tab, stands before it on its line.
pub open spec fn is_top_level(text: Seq<char>, at: int) -> bool {
    let indent = text.subrange(line_start(text, at), at);
    indent == seq![' ', ' '] || indent == seq!['\t']
}

/// The blocks one indent deep that open with `keyword`, from position `from` on.
/// What stands inside such a block is not searched again.
pub open spec fn top_level(text: Seq<char>, keyword: Seq<char>, from: int) -> Seq<(int, int)>
    decreases text.len() - from,
    when keyword.len() > 0
    via top_level_decreases
{
    match find(text, keyword, from) {
        None => Seq::empty(),
        Some(at) => if is_top_level(text, at) {
            let end = end_of_block(text, at);
            seq![(at, end)] + top_level(text, keyword, end)
        } else {
            top_level(text, keyword, at + 1)
        },
    }
}

#[via_fn]
proof fn top_level_decreases(text: Seq<char>, keyword: Seq<char>, from: int) {
    if from >= 0 {
        crate::text::lemma_find_is_first(text, keyword, from);
        match find(text, keyword, from) {
            None => {},
            Some(at) => {
                lemma_close_bounds(text, at, 0, false);
            },
        }
    }
}

pub proof fn lemma_close_bounds(text: Seq<char>, at: int, depth: int, quoted: bool)
    requires
        0 <= at,
    ensures
        at < text.len() ==> at < close_from(text, at, depth, quoted),
        close_from(text, at, depth, quoted) <= text.len(),
    decreases text.len() + 1 - at,
{
    if at < text.len() {
        lemma_close_bounds(text, at + 1, depth, true);
        lemma_close_bounds(text, at + 1, depth, false);
        lemma_close_bounds(text, at + 1, depth + 1, false);
        lemma_close_bounds(text, at + 1, depth - 1, false);
        lemma_close_bounds(text, at + 2, depth, true);
    }
}

/// Blocks stand in the text, one after another, none inside another, each where
/// its keyword stands one indent deep.
pub proof fn lemma_top_level_blocks(text: Seq<char>, keyword: Seq<char>, from: int)
    requires
        keyword.len() > 0,
        0 <= from,
    ensures
        ({
            let blocks = top_level(text, keyword, from);
            &&& forall|i: int|
                0 <= i < blocks.len() ==> {
                    &&& from <= (#[trigger] blocks[i]).0 < blocks[i].1 <= text.len()
                    &&& matches_at(text, keyword, blocks[i].0)
                    &&& is_top_level(text, blocks[i].0)
                    &&& blocks[i].1 == end_of_block(text, blocks[i].0)
                }
            &&& forall|i: int, j: int|
                0 <= i < j < blocks.len() ==> (#[trigger] blocks[i]).1 <= (#[trigger] blocks[j]).0
        }),
    decreases text.len() - from,
{
    crate::text::lemma_find_is_first(text, keyword, from);
    match find(text, keyword, from) {
        None => {
            assert(top_level(text, keyword, from).len() == 0);
        },
        Some(at) => {
            lemma_close_bounds(text, at, 0, false);
            if is_top_level(text, at) {
                let end = end_of_block(text, at);
                lemma_top_level_blocks(text, keyword, end);
                let rest = top_level(text, keyword, end);
                let blocks = top_level(text, keyword, from);
                assert(blocks =~= seq![(at, end)] + rest);
                assert forall|i: int| 0 <= i < blocks.len() implies {
                    &&& from <= (#[trigger] blocks[i]).0 < blocks[i].1 <= text.len()
                    &&& matches_at(text, keyword, blocks[i].0)
                    &&& is_top_level(text, blocks[i].0)
                    &&& blocks[i].1 == end_of_block(text, blocks[i].0)
                } by {
                    if i > 0 {
                        assert(blocks[i] == rest[i - 1]);
                    }
                }
                assert forall|i: int, j: int| 0 <= i < j < blocks.len() implies (
                #[trigger] blocks[i]).1 <= (#[trigger] blocks[j]).0 by {
                    assert(blocks[j] == rest[j - 1]);
                    if i > 0 {
                        assert(blocks[i] == rest[i - 1]);
                    }
                }
            } else {
                lemma_top_level_blocks(text, keyword, at + 1);
                assert(top_level(text, keyword, from) == top_level(text, keyword, at + 1));
            }
        },
    }
}

/// The position just past the block that opens at `start`.
pub fn block_end(text: &[char], start: usize) -> (end: usize)
    requires
        start <= text@.len(),
    ensures
        end == end_of_block(text@, start as int),
        start <= end <= text@.len(),
        start < text@.len() ==> start < end,
{
    proof {
        lemma_close_bounds(text@, start as int, 0, false);
    }
    let mut at: usize = start;
    let mut depth: usize = 0;
    let mut quoted: bool = false;
    while at < text.len()
        invariant
            start <= at <= text.len(),
            depth <= at,
            end_of_block(text@, start as int) == close_from(text@, at as int, depth as int, quoted),
            start < text@.len() ==> start < end_of_block(text@, start as int) <= text@.len(),
        decreases text.len() - at,
    {
        let c: char = text[at];
        if quoted {
            if c == '\\' {
                if text.len() - at <= 2 {
                    proof {
                        assert(close_from(text@, at + 2, depth as int, true) == text@.len());
                    }
                    return text.len();
                }
                at += 2;
            } else {
                if c == '"' {
                    quoted = false;
                }
                at += 1;
            }
        } else if c == '"' {
            quoted = true;
            at += 1;
        } else if c == '(' {
            depth += 1;
            at += 1;
        } else if c == ')' {
            if depth <= 1 {
                return at + 1;
            }
            depth -= 1;
            at += 1;
        } else {
            at += 1;
        }
    }
    text.len()
}

/// Whether a block that opens at `at` is one indent deep.
pub fn top_level_at(text: &[char], at: usize) -> (yes: bool)
    requires
        at <= text@.len(),
    ensures
        yes == is_top_level(text@, at as int),
{
    let start: usize = start_of_line(text, at);
    let ghost indent = text@.subrange(start as int, at as int);
    if at - start == 1 {
        proof {
            assert(indent[0] == text@[start as int]);
            assert(text@[start as int] == '\t' ==> indent =~= seq!['\t']);
            assert(indent.len() == 1);
        }
        text[start] == '\t'
    } else if at - start == 2 {
        proof {
            assert(indent[0] == text@[start as int]);
            assert(indent[1] == text@[start + 1]);
            assert(indent[0] == ' ' && indent[1] == ' ' ==> indent =~= seq![' ', ' ']);
            assert(indent.len() == 2);
        }
        text[start] == ' ' && text[start + 1] == ' '
    } else {
        proof {
            assert(indent.len() == at - start);
        }
        false
    }
}

/// The blocks one indent deep that open with `keyword`.
pub fn top_level_blocks(text: &[char], keyword: &str) -> (blocks: Vec<Span>)
    requires
        keyword@.len() > 0,
    ensures
        pairs(blocks@) == top_level(text@, keyword@, 0),
        forall|i: int|
            0 <= i < blocks@.len() ==> (#[trigger] blocks@[i]).start < blocks@[i].end
                <= text@.len(),
{
    let wanted = to_chars(keyword);
    let mut blocks: Vec<Span> = Vec::new();
    let mut from: usize = 0;
    proof {
        assert(pairs(blocks@) =~= Seq::<(int, int)>::empty());
        assert(Seq::<(int, int)>::empty() + top_level(text@, keyword@, 0) =~= top_level(
            text@,
            keyword@,
            0,
        ));
    }
    loop
        invariant
            wanted@ == keyword@,
            keyword@.len() > 0,
            from <= text.len(),
            top_level(text@, keyword@, 0) == pairs(blocks@) + top_level(
                text@,
                keyword@,
                from as int,
            ),
            forall|i: int|
                0 <= i < blocks@.len() ==> (#[trigger] blocks@[i]).start < blocks@[i].end
                    <= text@.len(),
        decreases text.len() - from,
    {
        match find_from(text, wanted.as_slice(), from) {
            None => {
                proof {
                    assert(pairs(blocks@) + Seq::<(int, int)>::empty() =~= pairs(blocks@));
                }
                return blocks;
            },
            Some(at) => {
                if top_level_at(text, at) {
                    let end: usize = block_end(text, at);
                    let block = Span { start: at, end };
                    let ghost done = blocks@;
                    blocks.push(block);
                    proof {
                        assert(pairs(blocks@) =~= pairs(done).push(pair(block)));
                        assert(pairs(done) + (seq![pair(block)] + top_level(
                            text@,
                            keyword@,
                            end as int,
                        )) =~= pairs(blocks@) + top_level(text@, keyword@, end as int));
                    }
                    from = end;
                } else {
                    from = at + 1;
                }
            },
        }
    }
}

/// What stands between the first occurrence of `marker` and the next quotation mark.
pub open spec fn quoted_after(text: Seq<char>, marker: Seq<char>) -> Option<Seq<char>> {
    match find(text, marker, 0) {
        None => None,
        Some(at) => match find(text, seq!['"'], at + marker.len()) {
            None => None,
            Some(end) => Some(text.subrange(at + marker.len(), end)),
        },
    }
}

/// What stands between the first occurrence of `marker` and the next quotation mark.
pub fn quoted(text: &[char], marker: &[char]) -> (value: Option<Vec<char>>)
    ensures
        value is Some == quoted_after(text@, marker@) is Some,
        value matches Some(v) ==> quoted_after(text@, marker@) == Some(v@),
{
    match find_from(text, marker, 0) {
        None => None,
        Some(at) => {
            let start: usize = at + marker.len();
            let mark: Vec<char> = vec!['"'];
            proof {
                assert(mark@ =~= seq!['"']);
            }
            match find_from(text, mark.as_slice(), start) {
                None => None,
                Some(end) => {
                    let mut value: Vec<char> = Vec::new();
                    extend(&mut value, slice_subrange(text, start, end));
                    proof {
                        assert(value@ =~= text@.subrange(start as int, end as int));
                    }
                    Some(value)
                },
            }
        },
    }
}

/// The text without the run from `start` to `end`, and without one line break: the
/// one that follows the run, or else the one that stands before it.
pub open spec fn cut(text: Seq<char>, start: int, end: int) -> Seq<char> {
    text.take(cut_start(text, start, end)) + text.skip(cut_end(text, end))
}

/// Where cutting a run out begins: one earlier if a line break stands before it and
/// none follows.
pub open spec fn cut_start(text: Seq<char>, start: int, end: int) -> int {
    if 0 <= end < text.len() && text[end] == '\n' {
        start
    } else if 0 < start <= text.len() && text[start - 1] == '\n' {
        start - 1
    } else {
        start
    }
}

/// Where cutting a run out ends: one later if a line break follows it, and never
/// past the end of the text.
pub open spec fn cut_end(text: Seq<char>, end: int) -> int {
    if 0 <= end < text.len() && text[end] == '\n' {
        end + 1
    } else if end > text.len() {
        text.len() as int
    } else {
        end
    }
}

/// The list with `run` put in front of the first run that starts before it.
pub open spec fn insert_desc(runs: Seq<(int, int)>, run: (int, int)) -> Seq<(int, int)>
    decreases runs.len(),
{
    if runs.len() == 0 || runs.last().0 >= run.0 {
        runs.push(run)
    } else {
        insert_desc(runs.drop_last(), run).push(runs.last())
    }
}

/// The runs in the order in which they are cut: the one that starts last comes
/// first, and runs that start together keep their order.
pub open spec fn last_first(runs: Seq<(int, int)>) -> Seq<(int, int)>
    decreases runs.len(),
{
    if runs.len() == 0 {
        runs
    } else {
        insert_desc(last_first(runs.drop_last()), runs.last())
    }
}

/// The text after cutting the runs out, one after another.
pub open spec fn cut_each(text: Seq<char>, runs: Seq<(int, int)>) -> Seq<char>
    decreases runs.len(),
{
    if runs.len() == 0 {
        text
    } else {
        cut_each(cut(text, runs[0].0, runs[0].1), runs.drop_first())
    }
}

/// Whether each run still stands in the text when its turn comes.
pub open spec fn cuts_fit(text: Seq<char>, runs: Seq<(int, int)>) -> bool
    decreases runs.len(),
{
    runs.len() > 0 ==> {
        &&& 0 <= cut_start(text, runs[0].0, runs[0].1) <= cut_end(text, runs[0].1)
        &&& cuts_fit(cut(text, runs[0].0, runs[0].1), runs.drop_first())
    }
}

/// The text without the given runs.
pub open spec fn without(text: Seq<char>, runs: Seq<(int, int)>) -> Seq<char> {
    cut_each(text, last_first(runs))
}

/// Whether each run holds something and stands in a text of the given length, and
/// no two of them start together.
pub open spec fn proper(runs: Seq<(int, int)>, len: int) -> bool {
    &&& forall|i: int| 0 <= i < runs.len() ==> 0 <= (#[trigger] runs[i]).0 < runs[i].1 <= len
    &&& forall|i: int, j: int|
        0 <= i < j < runs.len() ==> (#[trigger] runs[i]).0 != (#[trigger] runs[j]).0
}

spec fn descending(runs: Seq<(int, int)>) -> bool {
    forall|i: int, j: int|
        0 <= i < j < runs.len() ==> (#[trigger] runs[i]).0 > (#[trigger] runs[j]).0
}

proof fn lemma_insert_desc_at(runs: Seq<(int, int)>, run: (int, int), k: int)
    requires
        0 <= k <= runs.len(),
        k > 0 ==> runs[k - 1].0 >= run.0,
        forall|j: int| k <= j < runs.len() ==> (#[trigger] runs[j]).0 < run.0,
    ensures
        insert_desc(runs, run) == runs.insert(k, run),
    decreases runs.len(),
{
    if k == runs.len() {
        assert(runs.insert(k, run) =~= runs.push(run));
        if runs.len() > 0 {
            assert(runs.last() == runs[k - 1]);
        }
    } else {
        assert(runs.last().0 < run.0);
        lemma_insert_desc_at(runs.drop_last(), run, k);
        assert(runs.drop_last().insert(k, run).push(runs.last()) =~= runs.insert(k, run));
    }
}

/// Inserting keeps a list of runs proper and descending.
proof fn lemma_insert_desc_keeps(runs: Seq<(int, int)>, run: (int, int), len: int)
    requires
        proper(runs, len),
        descending(runs),
        0 <= run.0 < run.1 <= len,
        forall|i: int| 0 <= i < runs.len() ==> (#[trigger] runs[i]).0 != run.0,
    ensures
        proper(insert_desc(runs, run), len),
        descending(insert_desc(runs, run)),
        forall|i: int|
            0 <= i < insert_desc(runs, run).len() ==> #[trigger] insert_desc(runs, run)[i] == run
                || runs.contains(insert_desc(runs, run)[i]),
    decreases runs.len(),
{
    let out = insert_desc(runs, run);
    if runs.len() == 0 || runs.last().0 >= run.0 {
        assert forall|i: int| 0 <= i < out.len() implies #[trigger] out[i] == run || runs.contains(
            out[i],
        ) by {
            if i < runs.len() {
                assert(out[i] == runs[i]);
            }
        }
    } else {
        let front = runs.drop_last();
        assert forall|i: int| 0 <= i < front.len() implies (#[trigger] front[i]).0 != run.0 by {
            assert(front[i] == runs[i]);
        }
        lemma_insert_desc_keeps(front, run, len);
        let mid = insert_desc(front, run);
        assert(out == mid.push(runs.last()));
        assert forall|i: int| 0 <= i < out.len() implies #[trigger] out[i] == run || runs.contains(
            out[i],
        ) by {
            if i < mid.len() {
                assert(out[i] == mid[i]);
                if mid[i] != run {
                    let j = choose|j: int| 0 <= j < front.len() && front[j] == mid[i];
                    assert(runs[j] == mid[i]);
                }
            } else {
                assert(out[i] == runs[runs.len() - 1]);
            }
        }
        assert forall|i: int| 0 <= i < mid.len() implies (#[trigger] mid[i]).0 > runs.last().0 by {
            if mid[i] != run {
                let j = choose|j: int| 0 <= j < front.len() && front[j] == mid[i];
                assert(runs[j] == mid[i]);
            }
        }
    }
}

proof fn lemma_last_first_keeps(runs: Seq<(int, int)>, len: int)
    requires
        proper(runs, len),
    ensures
        proper(last_first(runs), len),
        descending(last_first(runs)),
        forall|i: int|
            0 <= i < last_first(runs).len() ==> runs.contains(#[trigger] last_first(runs)[i]),
    decreases runs.len(),
{
    if runs.len() > 0 {
        let front = runs.drop_last();
        lemma_last_first_keeps(front, len);
        let mid = last_first(front);
        assert forall|i: int| 0 <= i < mid.len() implies (#[trigger] mid[i]).0
            != runs.last().0 by {
            let j = choose|j: int| 0 <= j < front.len() && front[j] == mid[i];
            assert(runs[j] == mid[i]);
        }
        lemma_insert_desc_keeps(mid, runs.last(), len);
        let out = insert_desc(mid, runs.last());
        assert forall|i: int| 0 <= i < out.len() implies runs.contains(#[trigger] out[i]) by {
            if out[i] == runs.last() {
                assert(runs[runs.len() - 1] == out[i]);
            } else {
                assert(mid.contains(out[i]));
                let k = choose|k: int| 0 <= k < mid.len() && mid[k] == out[i];
                assert(front.contains(mid[k]));
                let j = choose|j: int| 0 <= j < front.len() && front[j] == mid[k];
                assert(runs[j] == out[i]);
            }
        }
    }
}

proof fn lemma_descending_fit(text: Seq<char>, runs: Seq<(int, int)>, bound: int)
    requires
        descending(runs),
        forall|i: int| 0 <= i < runs.len() ==> 0 <= (#[trigger] runs[i]).0 < runs[i].1,
        forall|i: int| 0 <= i < runs.len() ==> (#[trigger] runs[i]).0 <= bound,
        bound <= text.len(),
    ensures
        cuts_fit(text, runs),
    decreases runs.len(),
{
    if runs.len() > 0 {
        let rest = runs.drop_first();
        let after = cut(text, runs[0].0, runs[0].1);
        assert(after.len() >= runs[0].0 - 1);
        assert forall|i: int| 0 <= i < rest.len() implies 0 <= (#[trigger] rest[i]).0 < rest[i].1
            && rest[i].0 <= runs[0].0 - 1 by {
            assert(rest[i] == runs[i + 1]);
        }
        assert forall|i: int, j: int| 0 <= i < j < rest.len() implies (#[trigger] rest[i]).0 > (
        #[trigger] rest[j]).0 by {
            assert(rest[i] == runs[i + 1]);
            assert(rest[j] == runs[j + 1]);
        }
        lemma_descending_fit(after, rest, runs[0].0 - 1);
    }
}

/// Runs that hold something and start apart can always be cut out.
pub proof fn lemma_proper_cuts_fit(text: Seq<char>, runs: Seq<(int, int)>)
    requires
        proper(runs, text.len() as int),
    ensures
        cuts_fit(text, last_first(runs)),
{
    lemma_last_first_keeps(runs, text.len() as int);
    lemma_descending_fit(text, last_first(runs), text.len() as int);
}

/// The runs in the order in which they are cut.
fn sort_last_first(runs: &Vec<Span>) -> (out: Vec<Span>)
    ensures
        pairs(out@) == last_first(pairs(runs@)),
{
    let mut out: Vec<Span> = Vec::new();
    let mut i: usize = 0;
    proof {
        assert(pairs(runs@).take(0) =~= Seq::<(int, int)>::empty());
        assert(pairs(out@) =~= Seq::<(int, int)>::empty());
    }
    while i < runs.len()
        invariant
            i <= runs.len(),
            pairs(out@) == last_first(pairs(runs@).take(i as int)),
        decreases runs.len() - i,
    {
        let run: Span = runs[i];
        let mut k: usize = out.len();
        while k > 0 && out[k - 1].start < run.start
            invariant
                k <= out.len(),
                forall|j: int| k <= j < out@.len() ==> (#[trigger] out@[j]).start < run.start,
            decreases k,
        {
            k -= 1;
        }
        proof {
            let all = pairs(runs@);
            assert(all.take(i + 1).drop_last() =~= all.take(i as int));
            assert(all.take(i + 1).last() == pair(run));
            assert forall|j: int| k <= j < pairs(out@).len() implies (#[trigger] pairs(out@)[j]).0
                < pair(run).0 by {
                assert(out@[j].start < run.start);
            }
            lemma_insert_desc_at(pairs(out@), pair(run), k as int);
            assert(pairs(out@.insert(k as int, run)) =~= pairs(out@).insert(k as int, pair(run)));
        }
        out.insert(k, run);
        i += 1;
    }
    proof {
        assert(pairs(runs@).take(runs@.len() as int) =~= pairs(runs@));
    }
    out
}

/// The characters of `text` without the given runs; see `without`.
pub fn cut_runs(text: &[char], runs: &Vec<Span>) -> (out: Vec<char>)
    requires
        cuts_fit(text@, last_first(pairs(runs@))),
    ensures
        out@ == without(text@, pairs(runs@)),
{
    let order = sort_last_first(runs);
    let mut out: Vec<char> = Vec::new();
    extend(&mut out, text);
    proof {
        assert(out@ =~= text@);
        assert(pairs(order@).skip(0) =~= pairs(order@));
    }
    let mut i: usize = 0;
    while i < order.len()
        invariant
            i <= order.len(),
            cuts_fit(out@, pairs(order@).skip(i as int)),
            cut_each(out@, pairs(order@).skip(i as int)) == cut_each(text@, pairs(order@)),
        decreases order.len() - i,
    {
        let run: Span = order[i];
        let len: usize = out.len();
        let end: usize = if run.end < len && out[run.end] == '\n' {
            run.end + 1
        } else if run.end > len {
            len
        } else {
            run.end
        };
        let breaks: bool = run.end < len && out[run.end] == '\n';
        let start: usize = if !breaks && run.start > 0 && run.start <= len && out[run.start - 1]
            == '\n' {
            run.start - 1
        } else {
            run.start
        };
        proof {
            let left = pairs(order@).skip(i as int);
            assert(left[0] == pair(run));
            assert(left.drop_first() =~= pairs(order@).skip(i + 1));
        }
        let kept = crate::text::splice(out.as_slice(), start, end, &[]);
        proof {
            assert(kept@ =~= cut(out@, run.start as int, run.end as int));
        }
        out = kept;
        i += 1;
    }
    proof {
        assert(pairs(order@).skip(order@.len() as int) =~= Seq::<(int, int)>::empty());
    }
    out
}

/// The text without the given runs. With each run one line break goes: the one that
/// follows it, or else the one that stands before it.
pub fn splice_out_ranges(content: &str, ranges: Vec<Span>) -> (out: String)
    requires
        cuts_fit(content@, last_first(pairs(ranges@))),
    ensures
        out@ == without(content@, pairs(ranges@)),
{
    let text = to_chars(content);
    let kept = cut_runs(text.as_slice(), &ranges);
    crate::text::to_text(kept.as_slice())
}

/// Those of the runs that are to be kept.
pub open spec fn filtered(
    runs: Seq<(int, int)>,
    keep: spec_fn((int, int)) -> bool,
) -> Seq<(int, int)>
    decreases runs.len(),
{
    if runs.len() == 0 {
        Seq::empty()
    } else if keep(runs.last()) {
        filtered(runs.drop_last(), keep).push(runs.last())
    } else {
        filtered(runs.drop_last(), keep)
    }
}

/// Whether the runs stand in a text of the given length one behind another.
pub open spec fn ascending(runs: Seq<(int, int)>, len: int) -> bool {
    &&& forall|i: int| 0 <= i < runs.len() ==> 0 <= (#[trigger] runs[i]).0 < runs[i].1 <= len
    &&& forall|i: int, j: int|
        0 <= i < j < runs.len() ==> (#[trigger] runs[i]).1 <= (#[trigger] runs[j]).0
}

/// Runs that are kept still stand one behind another.
pub proof fn lemma_filtered_ascending(
    runs: Seq<(int, int)>,
    keep: spec_fn((int, int)) -> bool,
    len: int,
)
    requires
        ascending(runs, len),
    ensures
        ascending(filtered(runs, keep), len),
        forall|i: int|
            0 <= i < filtered(runs, keep).len() ==> runs.contains(
                #[trigger] filtered(runs, keep)[i],
            ) && keep(filtered(runs, keep)[i]),
        filtered(runs, keep).len() <= runs.len(),
    decreases runs.len(),
{
    if runs.len() > 0 {
        let front = runs.drop_last();
        assert forall|i: int, j: int| 0 <= i < j < front.len() implies (#[trigger] front[i]).1 <= (
        #[trigger] front[j]).0 by {
            assert(front[i] == runs[i]);
            assert(front[j] == runs[j]);
        }
        assert forall|i: int| 0 <= i < front.len() implies 0 <= (#[trigger] front[i]).0
            < front[i].1 <= len by {
            assert(front[i] == runs[i]);
        }
        lemma_filtered_ascending(front, keep, len);
        let rest = filtered(front, keep);
        let out = filtered(runs, keep);
        let last = runs[runs.len() - 1];
        assert(0 <= last.0 < last.1 <= len);
        assert forall|i: int| 0 <= i < rest.len() implies runs.contains(#[trigger] rest[i])
            && rest[i].1 <= last.0 by {
            assert(front.contains(rest[i]));
            let j = choose|j: int| 0 <= j < front.len() && front[j] == rest[i];
            assert(runs[j] == rest[i]);
        }
        assert forall|i: int| 0 <= i < out.len() implies runs.contains(#[trigger] out[i]) && keep(
            out[i],
        ) by {
            if i < rest.len() {
                assert(out[i] == rest[i]);
            } else {
                assert(out[i] == last);
            }
        }
        assert forall|i: int, j: int| 0 <= i < j < out.len() implies (#[trigger] out[i]).1 <= (
        #[trigger] out[j]).0 by {
            assert(out[i] == rest[i]);
            if j < rest.len() {
                assert(out[j] == rest[j]);
            }
        }
        assert forall|i: int| 0 <= i < out.len() implies 0 <= (#[trigger] out[i]).0 < out[i].1
            <= len by {
            if i < rest.len() {
                assert(out[i] == rest[i]);
            }
        }
    }
}

/// Runs that stand one behind another start apart.
pub proof fn lemma_ascending_proper(runs: Seq<(int, int)>, len: int)
    requires
        ascending(runs, len),
    ensures
        proper(runs, len),
{
    assert forall|i: int, j: int| 0 <= i < j < runs.len() implies (#[trigger] runs[i]).0 != (
    #[trigger] runs[j]).0 by {
        assert(runs[i].0 < runs[i].1);
    }
}

/// The text without the run from `start` to `end` and without a line break that
/// follows it.
pub open spec fn cut_line(text: Seq<char>, start: int, end: int) -> Seq<char> {
    text.take(start) + text.skip(cut_end(text, end))
}

/// The text without the given runs, which stand one behind another, and without a
/// line break that follows a run.
pub open spec fn without_lines(text: Seq<char>, runs: Seq<(int, int)>) -> Seq<char>
    decreases runs.len(),
{
    if runs.len() == 0 {
        text
    } else {
        without_lines(cut_line(text, runs.last().0, runs.last().1), runs.drop_last())
    }
}

/// The text without the given runs; see `without_lines`.
pub fn cut_lines(text: &[char], runs: &Vec<Span>) -> (out: Vec<char>)
    requires
        ascending(pairs(runs@), text@.len() as int),
    ensures
        out@ == without_lines(text@, pairs(runs@)),
{
    let ghost all = pairs(runs@);
    let mut out: Vec<char> = Vec::new();
    extend(&mut out, text);
    let mut n: usize = runs.len();
    proof {
        assert(out@ =~= text@);
        assert(all.take(n as int) =~= all);
    }
    while n > 0
        invariant
            n <= runs.len(),
            all == pairs(runs@),
            ascending(all, text@.len() as int),
            n > 0 ==> all[n - 1].1 <= out@.len(),
            without_lines(text@, all) == without_lines(out@, all.take(n as int)),
        decreases n,
    {
        let run: Span = runs[n - 1];
        proof {
            assert(all[n - 1] == pair(run));
            assert(all.take(n as int).last() == pair(run));
            assert(all.take(n as int).drop_last() =~= all.take(n - 1));
            if n > 1 {
                assert(all[n - 2].1 <= all[n - 1].0);
            }
        }
        let end: usize = if run.end < out.len() && out[run.end] == '\n' {
            run.end + 1
        } else {
            run.end
        };
        let kept = crate::text::splice(out.as_slice(), run.start, end, &[]);
        proof {
            assert(kept@ =~= cut_line(out@, run.start as int, run.end as int));
        }
        out = kept;
        n -= 1;
    }
    out
}

/// Whether a word ends at a place: white space or a bracket follows.
pub open spec fn word_ends(text: Seq<char>, at: int) -> bool {
    0 <= at < text.len() && (is_space(text[at]) || text[at] == '(')
}

/// Whether a word ends at a place.
pub fn ends_word(text: &[char], at: usize) -> (yes: bool)
    ensures
        yes == word_ends(text@, at as int),
{
    at < text.len() && (space(text[at]) || text[at] == '(')
}

/// The blocks one indent deep that open with the word `keyword`, whether the block goes
/// on in the same line or in the next.
pub open spec fn named(text: Seq<char>, keyword: Seq<char>) -> Seq<(int, int)> {
    filtered(
        top_level(text, keyword, 0),
        |b: (int, int)| word_ends(text, b.0 + keyword.len()),
    )
}

/// Named blocks stand in the text, one after another, each where its keyword stands
/// one indent deep.
pub proof fn lemma_named(text: Seq<char>, keyword: Seq<char>)
    requires
        keyword.len() > 0,
    ensures
        ascending(named(text, keyword), text.len() as int),
        forall|i: int|
            0 <= i < named(text, keyword).len() ==> {
                &&& matches_at(text, keyword, (#[trigger] named(text, keyword)[i]).0)
                &&& is_top_level(text, named(text, keyword)[i].0)
                &&& named(text, keyword)[i].1 == end_of_block(text, named(text, keyword)[i].0)
                &&& word_ends(text, named(text, keyword)[i].0 + keyword.len())
            },
{
    let blocks = top_level(text, keyword, 0);
    let keep = |b: (int, int)| word_ends(text, b.0 + keyword.len());
    lemma_top_level_blocks(text, keyword, 0);
    lemma_filtered_ascending(blocks, keep, text.len() as int);
    let list = named(text, keyword);
    assert forall|i: int| 0 <= i < list.len() implies {
        &&& matches_at(text, keyword, (#[trigger] list[i]).0)
        &&& is_top_level(text, list[i].0)
        &&& list[i].1 == end_of_block(text, list[i].0)
        &&& word_ends(text, list[i].0 + keyword.len())
    } by {
        assert(blocks.contains(list[i]) && keep(list[i]));
        let j = choose|j: int| 0 <= j < blocks.len() && blocks[j] == list[i];
        assert(matches_at(text, keyword, blocks[j].0));
    }
}

/// The blocks one indent deep that open with the word `keyword`.
pub fn named_blocks(text: &[char], keyword: &str) -> (out: Vec<Span>)
    requires
        keyword@.len() > 0,
    ensures
        pairs(out@) == named(text@, keyword@),
        forall|i: int|
            0 <= i < out@.len() ==> (#[trigger] out@[i]).start < out@[i].end <= text@.len(),
{
    let blocks = top_level_blocks(text, keyword);
    let wanted = to_chars(keyword);
    let n: usize = text.len();
    let ghost all = pairs(blocks@);
    let ghost keep = |b: (int, int)| word_ends(text@, b.0 + keyword@.len());
    let mut out: Vec<Span> = Vec::new();
    let mut i: usize = 0;
    proof {
        lemma_top_level_blocks(text@, keyword@, 0);
        assert(all.take(0).len() == 0);
        assert(pairs(out@) =~= Seq::<(int, int)>::empty());
    }
    while i < blocks.len()
        invariant
            i <= blocks@.len(),
            n == text@.len(),
            wanted@ == keyword@,
            keyword@.len() > 0,
            all == pairs(blocks@),
            all == top_level(text@, keyword@, 0),
            keep == (|b: (int, int)| word_ends(text@, b.0 + keyword@.len())),
            forall|j: int| 0 <= j < all.len() ==> matches_at(text@, keyword@, (#[trigger] all[j]).0),
            forall|j: int|
                0 <= j < blocks@.len() ==> (#[trigger] blocks@[j]).start < blocks@[j].end
                    <= text@.len(),
            forall|j: int|
                0 <= j < out@.len() ==> (#[trigger] out@[j]).start < out@[j].end <= text@.len(),
            pairs(out@) == filtered(all.take(i as int), keep),
        decreases blocks@.len() - i,
    {
        let b: Span = blocks[i];
        proof {
            assert(all[i as int] == pair(b));
            assert(matches_at(text@, keyword@, all[i as int].0));
            assert(all.take(i + 1).drop_last() =~= all.take(i as int));
            assert(all.take(i + 1).last() == pair(b));
        }
        let past: usize = b.start + wanted.len();
        if ends_word(text, past) {
            let ghost done = out@;
            out.push(b);
            proof {
                assert(pairs(out@) =~= pairs(done).push(pair(b)));
            }
        }
        i += 1;
    }
    proof {
        assert(all.take(all.len() as int) =~= all);
    }
    out
}

/// A text without its line breaks.
pub open spec fn unbroken(text: Seq<char>) -> Seq<char>
    decreases text.len(),
{
    if text.len() == 0 {
        Seq::empty()
    } else if text.last() == '\n' {
        unbroken(text.drop_last())
    } else {
        unbroken(text.drop_last()).push(text.last())
    }
}

/// Whether a place is in one of the runs.
pub open spec fn in_runs(runs: Seq<(int, int)>, at: int) -> bool {
    exists|i: int| 0 <= i < runs.len() && (#[trigger] runs[i]).0 <= at < runs[i].1
}

/// The first `n` characters of a text without those in the runs.
pub open spec fn outside(text: Seq<char>, runs: Seq<(int, int)>, n: int) -> Seq<char>
    decreases n,
{
    if n <= 0 {
        Seq::empty()
    } else if in_runs(runs, n - 1) {
        outside(text, runs, n - 1)
    } else {
        outside(text, runs, n - 1).push(text[n - 1])
    }
}

/// Whether runs keep apart: no two overlap, and no run begins where another ends in a
/// line break.
pub open spec fn kept_apart(text: Seq<char>, runs: Seq<(int, int)>) -> bool {
    forall|i: int, j: int|
        0 <= i < runs.len() && 0 <= j < runs.len() && (#[trigger] runs[i]).0 < (
        #[trigger] runs[j]).0 ==> runs[i].1 <= runs[j].0 && (runs[i].1 == runs[j].0
            ==> text[runs[j].0 - 1] != '\n')
}

proof fn lemma_unbroken_join(a: Seq<char>, b: Seq<char>)
    ensures
        unbroken(a + b) == unbroken(a) + unbroken(b),
    decreases b.len(),
{
    if b.len() == 0 {
        assert(a + b =~= a);
        assert(unbroken(a) + unbroken(b) =~= unbroken(a));
    } else {
        lemma_unbroken_join(a, b.drop_last());
        assert((a + b).drop_last() =~= a + b.drop_last());
        assert((a + b).last() == b.last());
        assert(unbroken(a) + unbroken(b.drop_last()).push(b.last()) =~= (unbroken(a) + unbroken(
            b.drop_last(),
        )).push(b.last()));
    }
}

proof fn lemma_outside_agrees(
    text: Seq<char>,
    runs: Seq<(int, int)>,
    other: Seq<char>,
    fewer: Seq<(int, int)>,
    n: int,
)
    requires
        n <= text.len(),
        n <= other.len(),
        forall|k: int| 0 <= k < n ==> text[k] == other[k],
        forall|k: int| 0 <= k < n ==> in_runs(runs, k) == in_runs(fewer, k),
    ensures
        outside(text, runs, n) == outside(other, fewer, n),
    decreases n,
{
    if n > 0 {
        lemma_outside_agrees(text, runs, other, fewer, n - 1);
        assert(in_runs(runs, n - 1) == in_runs(fewer, n - 1));
    }
}

proof fn lemma_outside_free(text: Seq<char>, runs: Seq<(int, int)>, a: int, b: int)
    requires
        0 <= a <= b <= text.len(),
        forall|k: int| a <= k < b ==> !in_runs(runs, k),
    ensures
        outside(text, runs, b) == outside(text, runs, a) + text.subrange(a, b),
    decreases b - a,
{
    if a < b {
        lemma_outside_free(text, runs, a, b - 1);
        assert(!in_runs(runs, b - 1));
        assert(text.subrange(a, b) =~= text.subrange(a, b - 1).push(text[b - 1]));
        assert((outside(text, runs, a) + text.subrange(a, b - 1)).push(text[b - 1])
            =~= outside(text, runs, a) + text.subrange(a, b));
    } else {
        assert(text.subrange(a, b) =~= Seq::<char>::empty());
        assert(outside(text, runs, a) + Seq::<char>::empty() =~= outside(text, runs, a));
    }
}

proof fn lemma_outside_run(text: Seq<char>, runs: Seq<(int, int)>, a: int, b: int)
    requires
        0 <= a <= b,
        forall|k: int| a <= k < b ==> in_runs(runs, k),
    ensures
        outside(text, runs, b) == outside(text, runs, a),
    decreases b - a,
{
    if a < b {
        lemma_outside_run(text, runs, a, b - 1);
        assert(in_runs(runs, b - 1));
    }
}

proof fn lemma_unbroken_outside(text: Seq<char>, runs: Seq<(int, int)>, n: int)
    requires
        0 < n <= text.len(),
        text[n - 1] == '\n',
    ensures
        unbroken(outside(text, runs, n)) == unbroken(outside(text, runs, n - 1)),
{
    if !in_runs(runs, n - 1) {
        let front = outside(text, runs, n - 1);
        assert(outside(text, runs, n).drop_last() =~= front);
    }
}

proof fn lemma_cut_each_keeps(text: Seq<char>, runs: Seq<(int, int)>)
    requires
        descending(runs),
        forall|i: int| 0 <= i < runs.len() ==> 0 <= (#[trigger] runs[i]).0 < runs[i].1 <= text.len(),
        kept_apart(text, runs),
    ensures
        unbroken(cut_each(text, runs)) == unbroken(outside(text, runs, text.len() as int)),
    decreases runs.len(),
{
    if runs.len() == 0 {
        lemma_outside_free(text, runs, 0, text.len() as int);
        assert(outside(text, runs, 0) + text.subrange(0, text.len() as int) =~= text);
    } else {
        let run = runs[0];
        let rest = runs.drop_first();
        let a = cut_start(text, run.0, run.1);
        let b = cut_end(text, run.1);
        let after = cut(text, run.0, run.1);
        let n = text.len() as int;
        assert(run == runs[0] && run.1 <= n);
        assert(after =~= text.take(a) + text.skip(b));
        assert forall|i: int| 0 <= i < rest.len() implies 0 <= (#[trigger] rest[i]).0 < rest[i].1
            && rest[i].1 <= a by {
            assert(rest[i] == runs[i + 1]);
            assert(runs[0].0 > runs[i + 1].0);
            assert(runs[i + 1].1 <= runs[0].0);
        }
        assert forall|i: int, j: int|
            0 <= i < rest.len() && 0 <= j < rest.len() && (#[trigger] rest[i]).0 < (
            #[trigger] rest[j]).0 implies rest[i].1 <= rest[j].0 && (rest[i].1 == rest[j].0
            ==> after[rest[j].0 - 1] != '\n') by {
            assert(rest[i] == runs[i + 1]);
            assert(rest[j] == runs[j + 1]);
            assert(after[rest[j].0 - 1] == text[rest[j].0 - 1]);
        }
        assert forall|i: int, j: int| 0 <= i < j < rest.len() implies (#[trigger] rest[i]).0 > (
        #[trigger] rest[j]).0 by {
            assert(rest[i] == runs[i + 1]);
            assert(rest[j] == runs[j + 1]);
        }
        lemma_cut_each_keeps(after, rest);
        assert forall|k: int| 0 <= k < a implies in_runs(runs, k) == in_runs(rest, k) by {
            if in_runs(runs, k) {
                let i = choose|i: int|
                    0 <= i < runs.len() && (#[trigger] runs[i]).0 <= k < runs[i].1;
                assert(rest[i - 1] == runs[i]);
            }
            if in_runs(rest, k) {
                let i = choose|i: int|
                    0 <= i < rest.len() && (#[trigger] rest[i]).0 <= k < rest[i].1;
                assert(runs[i + 1] == rest[i]);
            }
        }
        lemma_outside_agrees(text, runs, after, rest, a);
        assert forall|k: int| a <= k < after.len() implies !in_runs(rest, k) by {
            if in_runs(rest, k) {
                let i = choose|i: int|
                    0 <= i < rest.len() && (#[trigger] rest[i]).0 <= k < rest[i].1;
                assert(rest[i].1 <= a);
            }
        }
        lemma_outside_free(after, rest, a, after.len() as int);
        assert(after.subrange(a, after.len() as int) =~= text.skip(b));
        assert forall|k: int| run.0 <= k < run.1 implies in_runs(runs, k) by {
            assert(runs[0].0 <= k < runs[0].1);
        }
        lemma_outside_run(text, runs, run.0, run.1);
        assert forall|k: int| run.1 <= k < n implies !in_runs(runs, k) by {
            if in_runs(runs, k) {
                let i = choose|i: int|
                    0 <= i < runs.len() && (#[trigger] runs[i]).0 <= k < runs[i].1;
                if i > 0 {
                    assert(runs[0].0 > runs[i].0);
                    assert(runs[i].1 <= runs[0].0);
                }
            }
        }
        lemma_outside_free(text, runs, b, n);
        if a < run.0 {
            lemma_unbroken_outside(text, runs, run.0);
        }
        if b > run.1 {
            lemma_unbroken_outside(text, runs, b);
        }
        assert(text.subrange(b, n) =~= text.skip(b));
        lemma_unbroken_join(outside(after, rest, a), text.skip(b));
        lemma_unbroken_join(outside(text, runs, b), text.skip(b));
    }
}

/// Cutting runs out loses what is in them and line breaks, and nothing else, in
/// whatever order the runs are given.
pub proof fn lemma_cutting_keeps(text: Seq<char>, runs: Seq<(int, int)>)
    requires
        proper(runs, text.len() as int),
        kept_apart(text, runs),
    ensures
        unbroken(without(text, runs)) == unbroken(outside(text, runs, text.len() as int)),
{
    let order = last_first(runs);
    lemma_last_first_keeps(runs, text.len() as int);
    lemma_last_first_members(runs);
    assert forall|i: int| 0 <= i < order.len() implies 0 <= (#[trigger] order[i]).0 < order[i].1
        <= text.len() && runs.contains(order[i]) by {
        assert(order.contains(order[i]));
        let k = choose|k: int| 0 <= k < runs.len() && runs[k] == order[i];
        assert(0 <= runs[k].0 < runs[k].1 <= text.len());
    }
    assert forall|i: int, j: int|
        0 <= i < order.len() && 0 <= j < order.len() && (#[trigger] order[i]).0 < (
        #[trigger] order[j]).0 implies order[i].1 <= order[j].0 && (order[i].1 == order[j].0
        ==> text[order[j].0 - 1] != '\n') by {
        let a = choose|k: int| 0 <= k < runs.len() && runs[k] == order[i];
        let b = choose|k: int| 0 <= k < runs.len() && runs[k] == order[j];
        assert(runs[a].0 < runs[b].0);
    }
    lemma_cut_each_keeps(text, order);
    assert forall|k: int| 0 <= k < text.len() implies in_runs(order, k) == in_runs(runs, k) by {
        if in_runs(order, k) {
            let i = choose|i: int| 0 <= i < order.len() && (#[trigger] order[i]).0 <= k < order[i].1;
            let a = choose|a: int| 0 <= a < runs.len() && runs[a] == order[i];
            assert(runs[a].0 <= k < runs[a].1);
        }
        if in_runs(runs, k) {
            let i = choose|i: int| 0 <= i < runs.len() && (#[trigger] runs[i]).0 <= k < runs[i].1;
            assert(order.contains(runs[i]));
            let a = choose|a: int| 0 <= a < order.len() && order[a] == runs[i];
            assert(order[a].0 <= k < order[a].1);
        }
    }
    lemma_outside_agrees(text, order, text, runs, text.len() as int);
}

proof fn lemma_insert_members(runs: Seq<(int, int)>, run: (int, int), x: (int, int))
    ensures
        insert_desc(runs, run).contains(x) == (runs.contains(x) || x == run),
    decreases runs.len(),
{
    if runs.len() == 0 || runs.last().0 >= run.0 {
        let out = runs.push(run);
        assert(out[runs.len() as int] == run);
        if runs.contains(x) {
            let k = choose|k: int| 0 <= k < runs.len() && runs[k] == x;
            assert(out[k] == x);
        }
    } else {
        let front = runs.drop_last();
        let mid = insert_desc(front, run);
        lemma_insert_members(front, run, x);
        let out = mid.push(runs.last());
        assert(out[mid.len() as int] == runs.last());
        if mid.contains(x) {
            let k = choose|k: int| 0 <= k < mid.len() && mid[k] == x;
            assert(out[k] == x);
        }
        if runs.contains(x) {
            let k = choose|k: int| 0 <= k < runs.len() && runs[k] == x;
            if k < front.len() {
                assert(front[k] == x);
            }
        }
        if front.contains(x) {
            let k = choose|k: int| 0 <= k < front.len() && front[k] == x;
            assert(runs[k] == x);
        }
    }
}

proof fn lemma_last_first_members(runs: Seq<(int, int)>)
    ensures
        forall|x: (int, int)| #[trigger] last_first(runs).contains(x) == runs.contains(x),
    decreases runs.len(),
{
    if runs.len() > 0 {
        let front = runs.drop_last();
        lemma_last_first_members(front);
        assert forall|x: (int, int)| #[trigger] last_first(runs).contains(x) == runs.contains(
            x,
        ) by {
            lemma_insert_members(last_first(front), runs.last(), x);
            if runs.contains(x) {
                let k = choose|k: int| 0 <= k < runs.len() && runs[k] == x;
                if k < front.len() {
                    assert(front[k] == x);
                }
            }
            if front.contains(x) {
                let k = choose|k: int| 0 <= k < front.len() && front[k] == x;
                assert(runs[k] == x);
            }
            assert(runs[runs.len() - 1] == runs.last());
        }
    }
}

proof fn lemma_one_order(a: Seq<(int, int)>, b: Seq<(int, int)>)
    requires
        forall|i: int, j: int| 0 <= i < j < a.len() ==> (#[trigger] a[i]).0 > (#[trigger] a[j]).0,
        forall|i: int, j: int| 0 <= i < j < b.len() ==> (#[trigger] b[i]).0 > (#[trigger] b[j]).0,
        forall|x: (int, int)| #[trigger] a.contains(x) == b.contains(x),
    ensures
        a == b,
    decreases a.len(),
{
    if a.len() == 0 {
        if b.len() > 0 {
            assert(a.contains(b[0]) == b.contains(b[0]));
        }
        assert(a =~= b);
    } else {
        assert(a.contains(a[0]) == b.contains(a[0]));
        let k = choose|k: int| 0 <= k < b.len() && b[k] == a[0];
        assert(a.contains(b[0]) == b.contains(b[0]));
        let m = choose|m: int| 0 <= m < a.len() && a[m] == b[0];
        assert(k == 0 && m == 0) by {
            if k > 0 {
                assert(b[0].0 > b[k].0);
                if m > 0 {
                    assert(a[0].0 > a[m].0);
                }
            } else if m > 0 {
                assert(a[0].0 > a[m].0);
            }
        }
        let c = a.drop_first();
        let d = b.drop_first();
        assert forall|i: int, j: int| 0 <= i < j < c.len() implies (#[trigger] c[i]).0 > (
        #[trigger] c[j]).0 by {
            assert(c[i] == a[i + 1] && c[j] == a[j + 1]);
        }
        assert forall|i: int, j: int| 0 <= i < j < d.len() implies (#[trigger] d[i]).0 > (
        #[trigger] d[j]).0 by {
            assert(d[i] == b[i + 1] && d[j] == b[j + 1]);
        }
        assert forall|x: (int, int)| #[trigger] c.contains(x) == d.contains(x) by {
            assert(a.contains(x) == b.contains(x));
            if c.contains(x) {
                let i = choose|i: int| 0 <= i < c.len() && c[i] == x;
                assert(a[i + 1] == x);
                assert(a[0].0 > a[i + 1].0);
                assert(a.contains(x));
                let j = choose|j: int| 0 <= j < b.len() && b[j] == x;
                assert(d[j - 1] == x);
            }
            if d.contains(x) {
                let i = choose|i: int| 0 <= i < d.len() && d[i] == x;
                assert(b[i + 1] == x);
                assert(b[0].0 > b[i + 1].0);
                assert(b.contains(x));
                let j = choose|j: int| 0 <= j < a.len() && a[j] == x;
                assert(c[j - 1] == x);
            }
        }
        lemma_one_order(c, d);
        assert(a =~= seq![a[0]] + c);
        assert(b =~= seq![b[0]] + d);
    }
}

/// Cutting the same runs out gives the same text in whatever order they are given, and
/// cutting none out changes nothing.
pub proof fn lemma_cutting_in_any_order(
    text: Seq<char>,
    runs: Seq<(int, int)>,
    others: Seq<(int, int)>,
)
    requires
        proper(runs, text.len() as int),
        proper(others, text.len() as int),
        forall|x: (int, int)| #[trigger] runs.contains(x) == others.contains(x),
    ensures
        without(text, runs) == without(text, others),
        runs.len() == 0 ==> without(text, runs) == text,
{
    let n = text.len() as int;
    lemma_last_first_keeps(runs, n);
    lemma_last_first_keeps(others, n);
    lemma_last_first_members(runs);
    lemma_last_first_members(others);
    let a = last_first(runs);
    let b = last_first(others);
    assert forall|x: (int, int)| #[trigger] a.contains(x) == b.contains(x) by {
        assert(runs.contains(x) == others.contains(x));
    }
    lemma_strictly_descending(a, n);
    lemma_strictly_descending(b, n);
    lemma_one_order(a, b);
}

proof fn lemma_strictly_descending(runs: Seq<(int, int)>, len: int)
    requires
        proper(runs, len),
        descending(runs),
    ensures
        forall|i: int, j: int|
            0 <= i < j < runs.len() ==> (#[trigger] runs[i]).0 > (#[trigger] runs[j]).0,
{
}

} // verus!
