//! Editing a board: its outline, its drawings, its traces and its components.

use crate::footprints::{footprint_table, footprints, lemma_footprints, span_list};
use crate::sexpr::{
    cut_runs, lemma_named, lemma_proper_cuts_fit, named, named_blocks, pair, pairs, proper, without,
    Span,
};
use crate::tables::TextMap;
use crate::text::{contains, holds, matches_at, to_chars, to_text};
use vstd::prelude::*;
use vstd::slice::slice_subrange;

verus! {

/// Whether a block holds every one of the given texts.
pub open spec fn holds_all(block: Seq<char>, needles: Seq<Seq<char>>) -> bool {
    forall|i: int| 0 <= i < needles.len() ==> contains(block, #[trigger] needles[i])
}

/// Those of the runs whose text holds every one of the given texts.
pub open spec fn holding(
    text: Seq<char>,
    runs: Seq<(int, int)>,
    needles: Seq<Seq<char>>,
) -> Seq<(int, int)>
    decreases runs.len(),
{
    if runs.len() == 0 {
        Seq::empty()
    } else {
        let rest = holding(text, runs.drop_last(), needles);
        let run = runs.last();
        if holds_all(text.subrange(run.0, run.1), needles) {
            rest.push(run)
        } else {
            rest
        }
    }
}

proof fn lemma_holding(text: Seq<char>, runs: Seq<(int, int)>, needles: Seq<Seq<char>>)
    ensures
        forall|i: int|
            0 <= i < holding(text, runs, needles).len() ==> runs.contains(
                #[trigger] holding(text, runs, needles)[i],
            ),
    decreases runs.len(),
{
    if runs.len() > 0 {
        let front = runs.drop_last();
        lemma_holding(text, front, needles);
        let rest = holding(text, front, needles);
        let out = holding(text, runs, needles);
        assert forall|i: int| 0 <= i < out.len() implies runs.contains(#[trigger] out[i]) by {
            if i < rest.len() {
                assert(out[i] == rest[i]);
                let j = choose|j: int| 0 <= j < front.len() && front[j] == rest[i];
                assert(runs[j] == out[i]);
            } else {
                assert(runs[runs.len() - 1] == out[i]);
            }
        }
    }
}

proof fn lemma_holding_proper(
    text: Seq<char>,
    runs: Seq<(int, int)>,
    needles: Seq<Seq<char>>,
    len: int,
)
    requires
        proper(runs, len),
    ensures
        proper(holding(text, runs, needles), len),
    decreases runs.len(),
{
    if runs.len() > 0 {
        let front = runs.drop_last();
        assert forall|i: int, j: int| 0 <= i < j < front.len() implies (#[trigger] front[i]).0 != (
        #[trigger] front[j]).0 by {
            assert(front[i] == runs[i]);
            assert(front[j] == runs[j]);
        }
        assert forall|i: int| 0 <= i < front.len() implies 0 <= (#[trigger] front[i]).0
            < front[i].1 <= len by {
            assert(front[i] == runs[i]);
        }
        lemma_holding_proper(text, front, needles, len);
        lemma_holding(text, front, needles);
        let rest = holding(text, front, needles);
        let out = holding(text, runs, needles);
        assert(0 <= runs[runs.len() - 1].0 < runs[runs.len() - 1].1 <= len);
        assert forall|i: int, j: int| 0 <= i < j < out.len() implies (#[trigger] out[i]).0 != (
        #[trigger] out[j]).0 by {
            if j < rest.len() {
                assert(out[i] == rest[i]);
                assert(out[j] == rest[j]);
            } else {
                assert(out[i] == rest[i]);
                assert(front.contains(rest[i]));
                let k = choose|k: int| 0 <= k < front.len() && front[k] == rest[i];
                assert(runs[k] == out[i]);
                assert(runs[runs.len() - 1] == out[j]);
            }
        }
    }
}

/// The texts of a list.
pub open spec fn needle_views(list: Seq<Vec<char>>) -> Seq<Seq<char>> {
    list.map_values(|t: Vec<char>| t@)
}

fn block_holds_all(block: &[char], needles: &Vec<Vec<char>>) -> (yes: bool)
    ensures
        yes == holds_all(block@, needle_views(needles@)),
{
    let mut i: usize = 0;
    while i < needles.len()
        invariant
            i <= needles.len(),
            forall|j: int|
                0 <= j < i ==> contains(block@, #[trigger] needle_views(needles@)[j]),
        decreases needles.len() - i,
    {
        if !holds(block, needles[i].as_slice()) {
            proof {
                assert(needle_views(needles@)[i as int] == needles@[i as int]@);
            }
            return false;
        }
        i += 1;
    }
    true
}

/// Adds to `out` those of the runs whose text holds every one of the given texts.
fn add_holding(text: &[char], runs: &Vec<Span>, needles: &Vec<Vec<char>>, out: &mut Vec<Span>)
    requires
        forall|j: int|
            0 <= j < runs@.len() ==> (#[trigger] runs@[j]).start <= runs@[j].end <= text@.len(),
    ensures
        pairs(final(out)@) == pairs(old(out)@) + holding(
            text@,
            pairs(runs@),
            needle_views(needles@),
        ),
{
    let ghost all = pairs(runs@);
    let ghost want = needle_views(needles@);
    let mut i: usize = 0;
    proof {
        assert(all.take(0).len() == 0);
        assert(pairs(out@) =~= pairs(old(out)@) + holding(text@, all.take(0), want));
    }
    while i < runs.len()
        invariant
            i <= runs.len(),
            all == pairs(runs@),
            want == needle_views(needles@),
            forall|j: int|
                0 <= j < runs@.len() ==> (#[trigger] runs@[j]).start <= runs@[j].end <= text@.len(),
            pairs(out@) == pairs(old(out)@) + holding(text@, all.take(i as int), want),
        decreases runs.len() - i,
    {
        let run: Span = runs[i];
        proof {
            assert(all.take(i + 1).drop_last() =~= all.take(i as int));
            assert(all.take(i + 1).last() == pair(run));
        }
        if block_holds_all(slice_subrange(text, run.start, run.end), needles) {
            let ghost done = out@;
            out.push(run);
            proof {
                assert(pairs(out@) =~= pairs(done).push(pair(run)));
                assert(pairs(out@) =~= pairs(old(out)@) + holding(text@, all.take(i + 1), want));
            }
        }
        i += 1;
    }
    proof {
        assert(all.take(all.len() as int) =~= all);
    }
}

/// Whether the runs stand where the keyword stands.
spec fn at_keyword(text: Seq<char>, runs: Seq<(int, int)>, keyword: Seq<char>) -> bool {
    forall|i: int| 0 <= i < runs.len() ==> matches_at(text, keyword, (#[trigger] runs[i]).0)
}

proof fn lemma_blocks_proper(text: Seq<char>, keyword: Seq<char>, needles: Seq<Seq<char>>)
    requires
        keyword.len() > 0,
    ensures
        proper(holding(text, named(text, keyword), needles), text.len() as int),
        at_keyword(text, holding(text, named(text, keyword), needles), keyword),
{
    let blocks = named(text, keyword);
    lemma_named(text, keyword);
    assert(proper(blocks, text.len() as int)) by {
        assert forall|i: int, j: int| 0 <= i < j < blocks.len() implies (#[trigger] blocks[i]).0
            != (#[trigger] blocks[j]).0 by {
            assert(blocks[i].1 <= blocks[j].0);
            assert(blocks[i].0 < blocks[i].1);
        }
    }
    lemma_holding_proper(text, blocks, needles, text.len() as int);
    lemma_holding(text, blocks, needles);
    let out = holding(text, blocks, needles);
    assert forall|i: int| 0 <= i < out.len() implies matches_at(
        text,
        keyword,
        (#[trigger] out[i]).0,
    ) by {
        assert(blocks.contains(out[i]));
        let j = choose|j: int| 0 <= j < blocks.len() && blocks[j] == out[i];
        assert(matches_at(text, keyword, blocks[j].0));
    }
}

/// Two keywords that differ somewhere never stand at the same place.
proof fn lemma_keywords_apart(text: Seq<char>, a: Seq<char>, b: Seq<char>, at: int, k: int)
    requires
        0 <= k < a.len(),
        k < b.len(),
        a[k] != b[k],
    ensures
        !(matches_at(text, a, at) && matches_at(text, b, at)),
{
    if matches_at(text, a, at) && matches_at(text, b, at) {
        assert(text.subrange(at, at + a.len())[k] == text[at + k]);
        assert(text.subrange(at, at + b.len())[k] == text[at + k]);
    }
}

proof fn lemma_proper_join(a: Seq<(int, int)>, b: Seq<(int, int)>, len: int)
    requires
        proper(a, len),
        proper(b, len),
        forall|i: int, j: int|
            0 <= i < a.len() && 0 <= j < b.len() ==> (#[trigger] a[i]).0 != (#[trigger] b[j]).0,
    ensures
        proper(a + b, len),
{
    let out = a + b;
    assert forall|i: int, j: int| 0 <= i < j < out.len() implies (#[trigger] out[i]).0 != (
    #[trigger] out[j]).0 by {
        if j < a.len() {
            assert(out[i] == a[i] && out[j] == a[j]);
        } else if i < a.len() {
            assert(out[i] == a[i] && out[j] == b[j - a.len()]);
        } else {
            assert(out[i] == b[i - a.len()] && out[j] == b[j - a.len()]);
        }
    }
    assert forall|i: int| 0 <= i < out.len() implies 0 <= (#[trigger] out[i]).0 < out[i].1
        <= len by {
        if i < a.len() {
            assert(out[i] == a[i]);
        } else {
            assert(out[i] == b[i - a.len()]);
        }
    }
}

proof fn lemma_keyword_lists_apart(
    text: Seq<char>,
    a: Seq<(int, int)>,
    x: Seq<char>,
    b: Seq<(int, int)>,
    y: Seq<char>,
    k: int,
)
    requires
        at_keyword(text, a, x),
        at_keyword(text, b, y),
        0 <= k < x.len(),
        k < y.len(),
        x[k] != y[k],
    ensures
        forall|i: int, j: int|
            0 <= i < a.len() && 0 <= j < b.len() ==> (#[trigger] a[i]).0 != (#[trigger] b[j]).0,
{
    assert forall|i: int, j: int| 0 <= i < a.len() && 0 <= j < b.len() implies (
    #[trigger] a[i]).0 != (#[trigger] b[j]).0 by {
        if a[i].0 == b[j].0 {
            lemma_keywords_apart(text, x, y, a[i].0, k);
        }
    }
}

/// The lines and rectangles that draw the outline of a board.
pub open spec fn outline_runs(text: Seq<char>) -> Seq<(int, int)> {
    let needles = seq!["Edge.Cuts"@];
    holding(text, named(text, "(gr_line"@), needles) + holding(
        text,
        named(text, "(gr_rect"@),
        needles,
    )
}

proof fn lemma_outline_proper(text: Seq<char>)
    ensures
        proper(outline_runs(text), text.len() as int),
{
    reveal_strlit("(gr_line");
    reveal_strlit("(gr_rect");
    let needles = seq!["Edge.Cuts"@];
    lemma_blocks_proper(text, "(gr_line"@, needles);
    lemma_blocks_proper(text, "(gr_rect"@, needles);
    let a = holding(text, named(text, "(gr_line"@), needles);
    let b = holding(text, named(text, "(gr_rect"@), needles);
    lemma_keyword_lists_apart(text, a, "(gr_line"@, b, "(gr_rect"@, 4);
    lemma_proper_join(a, b, text.len() as int);
}

/// The board without the lines and rectangles that draw its outline.
pub fn remove_edge_cuts_lines(content: &str) -> (out: String)
    ensures
        out@ == without(content@, outline_runs(content@)),
{
    let text = to_chars(content);
    proof {
        reveal_strlit("(gr_line");
        reveal_strlit("(gr_rect");
        lemma_outline_proper(text@);
        lemma_proper_cuts_fit(text@, outline_runs(text@));
    }
    let needles: Vec<Vec<char>> = vec![to_chars("Edge.Cuts")];
    proof {
        assert(needle_views(needles@) =~= seq!["Edge.Cuts"@]);
    }
    let lines = named_blocks(text.as_slice(), "(gr_line");
    let rects = named_blocks(text.as_slice(), "(gr_rect");
    let mut runs: Vec<Span> = Vec::new();
    proof {
        assert(pairs(runs@) =~= Seq::<(int, int)>::empty());
    }
    add_holding(text.as_slice(), &lines, &needles, &mut runs);
    add_holding(text.as_slice(), &rects, &needles, &mut runs);
    proof {
        assert(pairs(runs@) =~= outline_runs(text@));
    }
    let kept = cut_runs(text.as_slice(), &runs);
    to_text(kept.as_slice())
}

/// What an optional text asks for: itself, or nothing.
pub open spec fn asked(text: Option<&str>) -> Seq<Seq<char>> {
    match text {
        Some(t) => seq![t@],
        None => Seq::empty(),
    }
}

/// The blocks of the second parts of a list.
pub open spec fn places(list: Seq<(Seq<char>, (int, int))>) -> Seq<(int, int)> {
    list.map_values(|e: (Seq<char>, (int, int))| e.1)
}

/// The drawings of a board that hold the given texts.
pub open spec fn drawings(text: Seq<char>, needles: Seq<Seq<char>>) -> Seq<(int, int)> {
    holding(text, named(text, "(gr_text"@), needles) + holding(
        text,
        named(text, "(gr_line"@),
        needles,
    ) + holding(text, named(text, "(gr_rect"@), needles) + holding(
        text,
        named(text, "(gr_circle"@),
        needles,
    )
}

/// The drawings that match the given filters and, if asked for, the footprints
/// that hold the wanted text and match the others.
pub open spec fn graphics(
    text: Seq<char>,
    text_contains: Option<&str>,
    layer: Option<&str>,
    tstamp: Option<&str>,
    include_footprints: bool,
) -> Seq<(int, int)> {
    let needles = asked(text_contains) + asked(layer) + asked(tstamp);
    if include_footprints && text_contains is Some {
        drawings(text, needles) + holding(text, places(footprints(text)), needles)
    } else {
        drawings(text, needles)
    }
}

proof fn lemma_join_keyword(
    text: Seq<char>,
    a: Seq<(int, int)>,
    x: Seq<char>,
    b: Seq<(int, int)>,
)
    requires
        at_keyword(text, a, x),
        at_keyword(text, b, x),
    ensures
        at_keyword(text, a + b, x),
{
    let out = a + b;
    assert forall|i: int| 0 <= i < out.len() implies matches_at(
        text,
        x,
        (#[trigger] out[i]).0,
    ) by {
        if i < a.len() {
            assert(out[i] == a[i]);
        } else {
            assert(out[i] == b[i - a.len()]);
        }
    }
}

proof fn lemma_shorter_keyword(
    text: Seq<char>,
    runs: Seq<(int, int)>,
    long: Seq<char>,
    short: Seq<char>,
)
    requires
        at_keyword(text, runs, long),
        short.len() <= long.len(),
        long.take(short.len() as int) == short,
    ensures
        at_keyword(text, runs, short),
{
    assert forall|i: int| 0 <= i < runs.len() implies matches_at(
        text,
        short,
        (#[trigger] runs[i]).0,
    ) by {
        let at = runs[i].0;
        assert(matches_at(text, long, at));
        assert(text.subrange(at, at + long.len()).take(short.len() as int) =~= text.subrange(
            at,
            at + short.len(),
        ));
    }
}

proof fn lemma_drawings_proper(text: Seq<char>, needles: Seq<Seq<char>>)
    ensures
        proper(drawings(text, needles), text.len() as int),
        at_keyword(text, drawings(text, needles), seq!['(', 'g']),
{
    reveal_strlit("(gr_text");
    reveal_strlit("(gr_line");
    reveal_strlit("(gr_rect");
    reveal_strlit("(gr_circle");
    lemma_blocks_proper(text, "(gr_text"@, needles);
    lemma_blocks_proper(text, "(gr_line"@, needles);
    lemma_blocks_proper(text, "(gr_rect"@, needles);
    lemma_blocks_proper(text, "(gr_circle"@, needles);
    let a = holding(text, named(text, "(gr_text"@), needles);
    let b = holding(text, named(text, "(gr_line"@), needles);
    let c = holding(text, named(text, "(gr_rect"@), needles);
    let d = holding(text, named(text, "(gr_circle"@), needles);
    let len = text.len() as int;
    lemma_keyword_lists_apart(text, a, "(gr_text"@, b, "(gr_line"@, 4);
    lemma_keyword_lists_apart(text, a, "(gr_text"@, c, "(gr_rect"@, 4);
    lemma_keyword_lists_apart(text, a, "(gr_text"@, d, "(gr_circle"@, 4);
    lemma_keyword_lists_apart(text, b, "(gr_line"@, c, "(gr_rect"@, 4);
    lemma_keyword_lists_apart(text, b, "(gr_line"@, d, "(gr_circle"@, 4);
    lemma_keyword_lists_apart(text, c, "(gr_rect"@, d, "(gr_circle"@, 4);
    lemma_proper_join(a, b, len);
    let ab = a + b;
    assert forall|i: int, j: int| 0 <= i < ab.len() && 0 <= j < c.len() implies (
    #[trigger] ab[i]).0 != (#[trigger] c[j]).0 by {
        if i < a.len() {
            assert(ab[i] == a[i]);
        } else {
            assert(ab[i] == b[i - a.len()]);
        }
    }
    lemma_proper_join(ab, c, len);
    let abc = ab + c;
    assert forall|i: int, j: int| 0 <= i < abc.len() && 0 <= j < d.len() implies (
    #[trigger] abc[i]).0 != (#[trigger] d[j]).0 by {
        if i < a.len() {
            assert(abc[i] == a[i]);
        } else if i < ab.len() {
            assert(abc[i] == b[i - a.len()]);
        } else {
            assert(abc[i] == c[i - ab.len()]);
        }
    }
    lemma_proper_join(abc, d, len);
    let g = seq!['(', 'g'];
    assert("(gr_text"@.take(2) =~= g);
    assert("(gr_line"@.take(2) =~= g);
    assert("(gr_rect"@.take(2) =~= g);
    assert("(gr_circle"@.take(2) =~= g);
    lemma_shorter_keyword(text, a, "(gr_text"@, g);
    lemma_shorter_keyword(text, b, "(gr_line"@, g);
    lemma_shorter_keyword(text, c, "(gr_rect"@, g);
    lemma_shorter_keyword(text, d, "(gr_circle"@, g);
    lemma_join_keyword(text, a, g, b);
    lemma_join_keyword(text, ab, g, c);
    lemma_join_keyword(text, abc, g, d);
}

proof fn lemma_graphics_proper(
    text: Seq<char>,
    text_contains: Option<&str>,
    layer: Option<&str>,
    tstamp: Option<&str>,
    include_footprints: bool,
)
    ensures
        proper(
            graphics(text, text_contains, layer, tstamp, include_footprints),
            text.len() as int,
        ),
{
    let needles = asked(text_contains) + asked(layer) + asked(tstamp);
    lemma_drawings_proper(text, needles);
    if include_footprints && text_contains is Some {
        reveal_strlit("(footprint \"");
        lemma_footprints(text);
        let list = footprints(text);
        let spots = places(list);
        let len = text.len() as int;
        assert(proper(spots, len)) by {
            assert forall|i: int| 0 <= i < spots.len() implies 0 <= (#[trigger] spots[i]).0
                < spots[i].1 <= len by {
                assert(spots[i] == list[i].1);
            }
            assert forall|i: int, j: int| 0 <= i < j < spots.len() implies (
            #[trigger] spots[i]).0 != (#[trigger] spots[j]).0 by {
                assert(spots[i] == list[i].1);
                assert(spots[j] == list[j].1);
            }
        }
        lemma_holding_proper(text, spots, needles, len);
        lemma_holding(text, spots, needles);
        let found = holding(text, spots, needles);
        assert(at_keyword(text, found, "(footprint \""@)) by {
            assert forall|i: int| 0 <= i < found.len() implies matches_at(
                text,
                "(footprint \""@,
                (#[trigger] found[i]).0,
            ) by {
                assert(spots.contains(found[i]));
                let j = choose|j: int| 0 <= j < spots.len() && spots[j] == found[i];
                assert(list[j].1 == found[i]);
            }
        }
        lemma_keyword_lists_apart(
            text,
            drawings(text, needles),
            seq!['(', 'g'],
            found,
            "(footprint \""@,
            1,
        );
        lemma_proper_join(drawings(text, needles), found, len);
    }
}

fn add_needle(needles: &mut Vec<Vec<char>>, text: Option<&str>)
    ensures
        needle_views(final(needles)@) == needle_views(old(needles)@) + asked(text),
{
    match text {
        Some(t) => {
            let chars = to_chars(t);
            needles.push(chars);
            proof {
                assert(needle_views(needles@) =~= needle_views(old(needles)@) + seq![t@]);
            }
        },
        None => {
            proof {
                assert(needle_views(needles@) =~= needle_views(old(needles)@)
                    + Seq::<Seq<char>>::empty());
            }
        },
    }
}

/// Removes the texts, lines, rectangles and circles drawn on a board that hold
/// every given text: the wanted text, the layer, the time stamp. Footprints that
/// hold them all go too if asked for, provided a text is wanted. Gives the board
/// that is left and how many blocks went.
pub fn remove_matching_graphics(
    content: &str,
    text_contains: Option<&str>,
    layer: Option<&str>,
    tstamp: Option<&str>,
    include_footprints: bool,
) -> (out: (String, usize))
    ensures
        out.0@ == without(
            content@,
            graphics(content@, text_contains, layer, tstamp, include_footprints),
        ),
        out.1 == graphics(content@, text_contains, layer, tstamp, include_footprints).len(),
{
    let text = to_chars(content);
    let ghost wanted = asked(text_contains) + asked(layer) + asked(tstamp);
    proof {
        reveal_strlit("(gr_text");
        reveal_strlit("(gr_line");
        reveal_strlit("(gr_rect");
        reveal_strlit("(gr_circle");
        lemma_graphics_proper(text@, text_contains, layer, tstamp, include_footprints);
        lemma_proper_cuts_fit(
            text@,
            graphics(text@, text_contains, layer, tstamp, include_footprints),
        );
    }
    let mut needles: Vec<Vec<char>> = Vec::new();
    proof {
        assert(needle_views(needles@) =~= Seq::<Seq<char>>::empty());
    }
    add_needle(&mut needles, text_contains);
    add_needle(&mut needles, layer);
    add_needle(&mut needles, tstamp);
    proof {
        assert(needle_views(needles@) =~= wanted);
    }
    let mut runs: Vec<Span> = Vec::new();
    proof {
        assert(pairs(runs@) =~= Seq::<(int, int)>::empty());
    }
    let texts = named_blocks(text.as_slice(), "(gr_text");
    add_holding(text.as_slice(), &texts, &needles, &mut runs);
    let lines = named_blocks(text.as_slice(), "(gr_line");
    add_holding(text.as_slice(), &lines, &needles, &mut runs);
    let rects = named_blocks(text.as_slice(), "(gr_rect");
    add_holding(text.as_slice(), &rects, &needles, &mut runs);
    let circles = named_blocks(text.as_slice(), "(gr_circle");
    add_holding(text.as_slice(), &circles, &needles, &mut runs);
    proof {
        assert(pairs(runs@) =~= drawings(text@, wanted));
    }
    if include_footprints && text_contains.is_some() {
        let table = footprint_table(text.as_slice());
        let spots = table_spans(&table);
        proof {
            lemma_footprints(text@);
            assert(pairs(spots@) =~= places(footprints(text@)));
            assert forall|j: int| 0 <= j < spots@.len() implies (#[trigger] spots@[j]).start
                <= spots@[j].end <= text@.len() by {
                assert(pairs(spots@)[j] == pair(spots@[j]));
                assert(footprints(text@)[j].1 == pair(spots@[j]));
            }
        }
        add_holding(text.as_slice(), &spots, &needles, &mut runs);
    }
    proof {
        assert(pairs(runs@).len() == runs@.len());
    }
    let kept = cut_runs(text.as_slice(), &runs);
    (to_text(kept.as_slice()), runs.len())
}

/// The runs of a table, in the order of its entries.
fn table_spans(table: &TextMap<Span>) -> (out: Vec<Span>)
    ensures
        pairs(out@) == places(span_list(table.entries@)),
{
    let mut out: Vec<Span> = Vec::new();
    let mut i: usize = 0;
    while i < table.entries.len()
        invariant
            i <= table.entries.len(),
            out@.len() == i,
            forall|j: int| 0 <= j < i ==> (#[trigger] out@[j]) == table.entries@[j].1,
        decreases table.entries.len() - i,
    {
        out.push(table.entries[i].1);
        i += 1;
    }
    proof {
        assert(pairs(out@) =~= places(span_list(table.entries@)));
    }
    out
}

} // verus!
