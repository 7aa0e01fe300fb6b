//! Looking into files by lines, and changing a text in them.

use crate::strings::{
    count, count_of, decimal, extend_right, lines, lines_of, number, replace, replace_once,
    replaced, replaced_once, right, texts,
};
use crate::text::{
    contains, extend, extend_str, find, find_from, holds, lemma_find_is_first, to_chars, to_text,
};
use vstd::prelude::*;

verus! {

/// The numbers of the lines that hold a text, among the first ones.
pub open spec fn hits(list: Seq<Seq<char>>, query: Seq<char>, upto: nat) -> Seq<int>
    decreases upto,
{
    if upto == 0 {
        Seq::empty()
    } else {
        let front = hits(list, query, (upto - 1) as nat);
        if contains(list[upto - 1], query) {
            front.push(upto - 1)
        } else {
            front
        }
    }
}

pub open spec fn first_of(list: Seq<int>, most: nat) -> Seq<int> {
    if list.len() <= most {
        list
    } else {
        list.take(most as int)
    }
}

/// A line with its number.
pub open spec fn numbered(list: Seq<Seq<char>>, i: int, mark: Seq<char>, width: int) -> Seq<char> {
    mark + right(decimal((i + 1) as nat), width) + ": "@ + list[i]
}

/// Lines with their numbers; the one that was found is marked.
pub open spec fn window(list: Seq<Seq<char>>, from: int, to: int, hit: int) -> Seq<char>
    decreases to - from,
{
    if from >= to {
        Seq::empty()
    } else {
        window(list, from, to - 1, hit) + numbered(
            list,
            to - 1,
            if to - 1 == hit {
                "> "@
            } else {
                "  "@
            },
            4,
        ) + "\n"@
    }
}

/// Where the lines shown round a found one start.
pub open spec fn window_start(hit: int, context: int) -> int {
    if hit > context {
        hit - context
    } else {
        0
    }
}

/// Where the lines shown round a found one end.
pub open spec fn window_end(hit: int, context: int, total: int) -> int {
    if hit + context + 1 < total {
        hit + context + 1
    } else {
        total
    }
}

/// The first found lines with the lines round them, none twice, and up to where lines
/// are shown.
pub open spec fn found_texts(
    list: Seq<Seq<char>>,
    found: Seq<int>,
    context: int,
    upto: nat,
) -> (Seq<char>, int)
    decreases upto,
{
    if upto == 0 {
        (Seq::empty(), 0)
    } else {
        let front = found_texts(list, found, context, (upto - 1) as nat);
        let hit = found[upto - 1];
        let start = window_start(hit, context);
        let from = if start < front.1 {
            front.1
        } else {
            start
        };
        let end = window_end(hit, context, list.len() as int);
        (
            front.0 + "\nMatch "@ + decimal(upto) + " (line "@ + decimal((hit + 1) as nat) + "):\n"@
                + window(list, from, end, hit),
            end,
        )
    }
}

/// What is said of a search.
pub open spec fn search_report(
    text: Seq<char>,
    path: Seq<char>,
    query: Seq<char>,
    context: nat,
    most: nat,
) -> Seq<char> {
    let list = lines_of(text);
    let found = first_of(hits(list, query, list.len()), most);
    if found.len() == 0 {
        "No matches for '"@ + query + "' in "@ + path
    } else {
        let shown = found_texts(list, found, context as int, found.len()).0;
        if found.len() >= most {
            shown + "\n(showing first "@ + decimal(most)
                + " matches — use a more specific query to narrow results)"@
        } else {
            shown
        }
    }
}

fn extend_window(out: &mut Vec<char>, list: &Vec<Vec<char>>, from: usize, to: usize, hit: usize)
    requires
        to <= list@.len(),
    ensures
        final(out)@ == old(out)@ + window(texts(list@), from as int, to as int, hit as int),
{
    let ghost all = texts(list@);
    if from >= to {
        proof {
            assert(out@ =~= old(out)@ + window(all, from as int, to as int, hit as int));
        }
        return;
    }
    let mut i: usize = from;
    proof {
        assert(out@ =~= old(out)@ + window(all, from as int, from as int, hit as int));
    }
    while i < to
        invariant
            from <= i <= to <= list@.len(),
            all == texts(list@),
            out@ == old(out)@ + window(all, from as int, i as int, hit as int),
        decreases to - i,
    {
        let ghost before = out@;
        if i == hit {
            extend_str(out, "> ");
        } else {
            extend_str(out, "  ");
        }
        let digits = number(i + 1);
        extend_right(out, digits.as_slice(), 4);
        extend_str(out, ": ");
        extend(out, list[i].as_slice());
        extend_str(out, "\n");
        proof {
            assert(all[i as int] == list@[i as int]@);
            assert(out@ =~= old(out)@ + window(all, from as int, i + 1, hit as int));
        }
        i += 1;
    }
}

/// Searches a file for a text, and shows the lines that hold it with the lines round
/// them.
pub fn grep_kicad_file(content: &str, path: &str, query: &str, context: usize, most: usize) -> (out:
    String)
    ensures
        out@ == search_report(content@, path@, query@, context as nat, most as nat),
{
    let text = to_chars(content);
    let wanted = to_chars(query);
    let list = lines(text.as_slice());
    let ghost all = texts(list@);
    let ghost every = hits(all, query@, all.len());
    let mut found: Vec<usize> = Vec::new();
    let ghost mut numbers: Seq<int> = Seq::empty();
    let mut i: usize = 0;
    proof {
        assert(first_of(hits(all, query@, 0), most as nat) =~= Seq::empty());
    }
    while i < list.len()
        invariant
            i <= list@.len(),
            all == texts(list@),
            wanted@ == query@,
            numbers == first_of(hits(all, query@, i as nat), most as nat),
            found@.len() == numbers.len(),
            forall|k: int|
                0 <= k < found@.len() ==> #[trigger] found@[k] == numbers[k] && found@[k] < i,
        decreases list@.len() - i,
    {
        let ghost front = hits(all, query@, i as nat);
        assert(all[i as int] == list@[i as int]@);
        if holds(list[i].as_slice(), wanted.as_slice()) && found.len() < most {
            found.push(i);
            proof {
                numbers = numbers.push(i as int);
            }
        }
        i += 1;
        proof {
            let now = hits(all, query@, i as nat);
            assert((i as nat - 1) as nat == (i - 1) as nat);
            assert(numbers =~= first_of(now, most as nat));
        }
    }
    proof {
        assert(all.len() == list@.len());
    }
    if found.len() == 0 {
        let mut out = to_chars("No matches for '");
        extend_str(&mut out, query);
        extend_str(&mut out, "' in ");
        extend_str(&mut out, path);
        return to_text(out.as_slice());
    }
    let mut out: Vec<char> = Vec::new();
    let mut printed: usize = 0;
    let mut k: usize = 0;
    let total: usize = list.len();
    proof {
        assert(out@ =~= Seq::empty());
    }
    while k < found.len()
        invariant
            k <= found@.len(),
            total == list@.len(),
            all == texts(list@),
            all.len() == list@.len(),
            found@.len() == numbers.len(),
            forall|j: int|
                0 <= j < found@.len() ==> #[trigger] found@[j] == numbers[j] && found@[j] < total,
            printed <= total,
            (out@, printed as int) == found_texts(all, numbers, context as int, k as nat),
        decreases found@.len() - k,
    {
        let hit: usize = found[k];
        assert(found@[k as int] == numbers[k as int]);
        let start: usize = if hit > context {
            hit - context
        } else {
            0
        };
        let end: usize = if context < total - hit - 1 {
            hit + context + 1
        } else {
            total
        };
        let from: usize = if start < printed {
            printed
        } else {
            start
        };
        let ghost before = out@;
        extend_str(&mut out, "\nMatch ");
        let digits = number(k + 1);
        extend(&mut out, digits.as_slice());
        extend_str(&mut out, " (line ");
        let digits = number(hit + 1);
        extend(&mut out, digits.as_slice());
        extend_str(&mut out, "):\n");
        extend_window(&mut out, &list, from, end, hit);
        printed = end;
        k += 1;
        proof {
            assert((k as nat - 1) as nat == (k - 1) as nat);
        }
    }
    if found.len() >= most {
        extend_str(&mut out, "\n(showing first ");
        let digits = number(most);
        extend(&mut out, digits.as_slice());
        extend_str(&mut out, " matches — use a more specific query to narrow results)");
    }
    to_text(out.as_slice())
}

/// Lines with their numbers.
pub open spec fn section_lines(list: Seq<Seq<char>>, from: int, to: int) -> Seq<char>
    decreases to - from,
{
    if from >= to {
        Seq::empty()
    } else {
        section_lines(list, from, to - 1) + numbered(list, to - 1, Seq::empty(), 6) + "\n"@
    }
}

pub open spec fn at_most(n: int, most: int) -> int {
    if n < most {
        n
    } else {
        most
    }
}

/// A part of a file by lines. Lines count from one.
pub open spec fn section(text: Seq<char>, offset: nat, limit: nat) -> Seq<char> {
    let list = lines_of(text);
    let first = if offset < 1 {
        1
    } else {
        offset as int
    };
    let start = at_most(first - 1, list.len() as int);
    let end = at_most(start + limit, list.len() as int);
    let last = if end - start > 1 {
        first + (end - start - 1)
    } else {
        first
    };
    "Lines "@ + decimal(first as nat) + "–"@ + decimal(last as nat) + " of "@ + decimal(list.len())
        + " total\n"@ + section_lines(list, start, end)
}

/// Shows a part of a file by lines.
pub fn read_kicad_section(content: &str, offset: usize, limit: usize) -> (out: String)
    ensures
        out@ == section(content@, offset as nat, limit as nat),
{
    let text = to_chars(content);
    let list = lines(text.as_slice());
    let ghost all = texts(list@);
    proof {
        assert(all.len() == list@.len());
    }
    let total: usize = list.len();
    let first: usize = if offset < 1 {
        1
    } else {
        offset
    };
    let start: usize = if first - 1 < total {
        first - 1
    } else {
        total
    };
    let end: usize = if limit < total - start {
        start + limit
    } else {
        total
    };
    let mut out = to_chars("Lines ");
    let digits = number(first);
    extend(&mut out, digits.as_slice());
    extend_str(&mut out, "–");
    let last: u128 = if end - start > 1 {
        first as u128 + (end - start - 1) as u128
    } else {
        first as u128
    };
    crate::units::extend_decimal(&mut out, last);
    extend_str(&mut out, " of ");
    let digits = number(total);
    extend(&mut out, digits.as_slice());
    extend_str(&mut out, " total\n");
    let ghost head = out@;
    let mut i: usize = start;
    proof {
        assert(out@ =~= head + section_lines(all, start as int, start as int));
    }
    while i < end
        invariant
            start <= i <= end <= list@.len(),
            all == texts(list@),
            out@ == head + section_lines(all, start as int, i as int),
        decreases end - i,
    {
        let digits = number(i + 1);
        extend_right(&mut out, digits.as_slice(), 6);
        extend_str(&mut out, ": ");
        extend(&mut out, list[i].as_slice());
        extend_str(&mut out, "\n");
        proof {
            assert(all[i as int] == list@[i as int]@);
            assert(out@ =~= head + section_lines(all, start as int, i + 1));
        }
        i += 1;
    }
    to_text(out.as_slice())
}

/// How many lines end before a place.
pub open spec fn line_ends(text: Seq<char>, upto: int) -> nat
    decreases upto,
{
    if upto <= 0 {
        0
    } else {
        line_ends(text, upto - 1) + if text[upto - 1] == '\n' {
            1nat
        } else {
            0nat
        }
    }
}

/// The lines round a change, with their numbers.
pub open spec fn context_lines(list: Seq<Seq<char>>, from: int, to: int) -> Seq<char>
    decreases to - from,
{
    if from >= to {
        Seq::empty()
    } else if to - from == 1 {
        numbered(list, from, "  "@, 4)
    } else {
        context_lines(list, from, to - 1) + "\n"@ + numbered(list, to - 1, "  "@, 4)
    }
}

/// The lines round the first place where a text stood, in the file as it is now.
pub open spec fn change_context(was: Seq<char>, now: Seq<char>, old: Seq<char>) -> Seq<char> {
    let at = match find(was, old, 0) {
        Some(at) => at,
        None => 0,
    };
    let hit = line_ends(was, at) as int;
    let list = lines_of(now);
    context_lines(list, if hit > 3 {
        hit - 3
    } else {
        0
    }, at_most(hit + 4, list.len() as int))
}

/// What came of changing a text.
pub enum Patch {
    /// The text does not stand in the file; nothing is touched.
    NotFound { message: String },
    /// The text stands in the file more than once; nothing is touched.
    Ambiguous { message: String },
    /// The file with the text changed.
    Done { content: String, summary: String },
}

fn count_line_ends(text: &[char], upto: usize) -> (n: usize)
    requires
        upto <= text@.len(),
    ensures
        n == line_ends(text@, upto as int),
        n <= upto,
{
    let mut n: usize = 0;
    let mut i: usize = 0;
    while i < upto
        invariant
            i <= upto <= text@.len(),
            n == line_ends(text@, i as int),
            n <= i,
        decreases upto - i,
    {
        if text[i] == '\n' {
            n += 1;
        }
        i += 1;
    }
    n
}

fn show_context(was: &[char], now: &[char], old: &[char]) -> (out: Vec<char>)
    ensures
        out@ == change_context(was@, now@, old@),
{
    proof {
        lemma_find_is_first(was@, old@, 0);
    }
    let at: usize = match find_from(was, old, 0) {
        Some(at) => at,
        None => 0,
    };
    let hit: usize = count_line_ends(was, at);
    let list = lines(now);
    let ghost all = texts(list@);
    proof {
        assert(all.len() == list@.len());
    }
    let from: usize = if hit > 3 {
        hit - 3
    } else {
        0
    };
    let to: usize = if list.len() >= 4 && hit < list.len() - 4 {
        hit + 4
    } else {
        list.len()
    };
    let mut out: Vec<char> = Vec::new();
    let mut i: usize = from;
    proof {
        assert(out@ =~= context_lines(all, from as int, from as int));
        assert(to == at_most(hit + 4, all.len() as int));
    }
    while i < to
        invariant
            from <= i,
            from < to ==> i <= to,
            from >= to ==> i == from,
            to <= list@.len(),
            all == texts(list@),
            out@ == context_lines(all, from as int, i as int),
        decreases to - i,
    {
        if i > from {
            extend_str(&mut out, "\n");
        }
        extend_str(&mut out, "  ");
        let digits = number(i + 1);
        extend_right(&mut out, digits.as_slice(), 4);
        extend_str(&mut out, ": ");
        extend(&mut out, list[i].as_slice());
        proof {
            assert(all[i as int] == list@[i as int]@);
            assert(out@ =~= context_lines(all, from as int, i + 1));
        }
        i += 1;
    }
    proof {
        assert(all == lines_of(now@));
        assert(hit == line_ends(was@, at as int));
        if from >= to {
            assert(context_lines(all, from as int, to as int) == Seq::<char>::empty());
        } else {
            assert(i == to);
        }
        assert(out@ == context_lines(all, from as int, to as int));
    }
    out
}

/// What is said of a change.
pub open spec fn patch_summary(
    path: Seq<char>,
    times: nat,
    was: Seq<char>,
    now: Seq<char>,
    old: Seq<char>,
) -> Seq<char> {
    "Patched "@ + path + " — "@ + decimal(times) + " replacement(s) made.\n\nContext after edit:\n"@
        + change_context(was, now, old)
}

/// A number as far as it can be counted.
pub open spec fn counted(n: nat) -> nat {
    if n > usize::MAX {
        usize::MAX as nat
    } else {
        n
    }
}

/// Changes a text in a file: everywhere if that is asked for, else only if it stands
/// there once.
pub fn patch_kicad_file(
    content: &str,
    path: &str,
    old_string: &str,
    new_string: &str,
    replace_all: bool,
) -> (out: Patch)
    ensures
        ({
            let times = counted(count_of(content@, old_string@));
            let now = if replace_all {
                replaced(content@, old_string@, new_string@)
            } else {
                replaced_once(content@, old_string@, new_string@)
            };
            if times == 0 {
                out matches Patch::NotFound { message } && message@ == "old_string not found in "@
                    + path@
                    + "\nUse grep_kicad_file to locate the exact text (including whitespace)."@
            } else if times > 1 && !replace_all {
                out matches Patch::Ambiguous { message } && message@ == "old_string matches "@
                    + decimal(times) + " times in "@ + path@
                    + " — provide more context to make it unique, or set replace_all=true"@
            } else {
                out matches Patch::Done { content: new, summary } && new@ == now && summary@
                    == patch_summary(
                    path@,
                    if replace_all {
                        times
                    } else {
                        1
                    },
                    content@,
                    now,
                    old_string@,
                )
            }
        }),
{
    let text = to_chars(content);
    let old = to_chars(old_string);
    let new = to_chars(new_string);
    let times: usize = count(text.as_slice(), old.as_slice());
    if times == 0 {
        let mut message = to_chars("old_string not found in ");
        extend_str(&mut message, path);
        extend_str(
            &mut message,
            "\nUse grep_kicad_file to locate the exact text (including whitespace).",
        );
        return Patch::NotFound { message: to_text(message.as_slice()) };
    }
    if times > 1 && !replace_all {
        let mut message = to_chars("old_string matches ");
        let digits = number(times);
        extend(&mut message, digits.as_slice());
        extend_str(&mut message, " times in ");
        extend_str(&mut message, path);
        extend_str(
            &mut message,
            " — provide more context to make it unique, or set replace_all=true",
        );
        proof {
            assert(message@ =~= "old_string matches "@ + decimal(times as nat) + " times in "@
                + path@
                + " — provide more context to make it unique, or set replace_all=true"@);
        }
        return Patch::Ambiguous { message: to_text(message.as_slice()) };
    }
    let now: Vec<char> = if replace_all {
        replace(text.as_slice(), old.as_slice(), new.as_slice())
    } else {
        replace_once(text.as_slice(), old.as_slice(), new.as_slice())
    };
    let made: usize = if replace_all {
        times
    } else {
        1
    };
    let mut summary = to_chars("Patched ");
    extend_str(&mut summary, path);
    extend_str(&mut summary, " — ");
    let digits = number(made);
    extend(&mut summary, digits.as_slice());
    extend_str(&mut summary, " replacement(s) made.\n\nContext after edit:\n");
    let context = show_context(text.as_slice(), now.as_slice(), old.as_slice());
    extend(&mut summary, context.as_slice());
    proof {
        assert(summary@ =~= patch_summary(path@, made as nat, content@, now@, old_string@));
    }
    Patch::Done { content: to_text(now.as_slice()), summary: to_text(summary.as_slice()) }
}

} // verus!
