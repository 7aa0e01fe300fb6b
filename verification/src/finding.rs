//! What is found in texts: the lines, footprints and parts that hold what is looked for,
//! and what changing a text leaves of it.

use crate::listing::{lemma_picked_next, picked_next, picks};
use crate::lookup::{section_lines, window_end, window_start};
use crate::netlist::{or_empty, parts_among};
use crate::strings::{count_of, decimal, lines_from, lines_of, occurrences, replaced, replaced_from, replaced_once, right};
use crate::tables::{lemma_place_bounds, place, put};
use crate::text::{contains, find, lemma_find_is_first, matches_at};
use crate::choices::lowercase;
use crate::tree::{field, is_headed, Tree};
use vstd::prelude::*;

verus! {

/// Whether a text stands somewhere in another.
pub open spec fn is_in(text: Seq<char>, part: Seq<char>) -> bool {
    exists|front: Seq<char>, back: Seq<char>| text == #[trigger] (front + part + back)
}

/// Finding a text is the same as its standing somewhere.
pub proof fn lemma_is_in(text: Seq<char>, part: Seq<char>)
    ensures
        contains(text, part) == is_in(text, part),
{
    lemma_find_is_first(text, part, 0);
    if let Some(at) = find(text, part, 0) {
        let front = text.take(at);
        let back = text.skip(at + part.len());
        assert(text =~= front + part + back);
    }
    if is_in(text, part) {
        let (front, back) = choose|front: Seq<char>, back: Seq<char>|
            text == #[trigger] (front + part + back);
        let at = front.len() as int;
        assert(text.subrange(at, at + part.len()) =~= part);
        assert(matches_at(text, part, at));
        assert(find(text, part, 0) is Some);
    }
}

/// The lines that hold a text.
pub open spec fn lines_with(list: Seq<Seq<char>>, query: Seq<char>) -> spec_fn(int) -> bool {
    |i: int| is_in(list[i], query)
}

/// A search finds all lines that hold the text, in their order.
pub proof fn lemma_search_finds_its_lines(list: Seq<Seq<char>>, query: Seq<char>, upto: nat)
    requires
        upto <= list.len(),
    ensures
        picks(crate::lookup::hits(list, query, upto), upto as int, lines_with(list, query)),
    decreases upto,
{
    if upto > 0 {
        let n = (upto - 1) as nat;
        let p = lines_with(list, query);
        lemma_search_finds_its_lines(list, query, n);
        lemma_is_in(list[n as int], query);
        lemma_picked_next(crate::lookup::hits(list, query, n), n as int, p, p);
        assert(crate::lookup::hits(list, query, upto) == picked_next(
            crate::lookup::hits(list, query, n),
            n as int,
            p,
        ));
    }
}

/// The lines shown round a found one are those no further from it than asked for.
pub proof fn lemma_lines_round_a_hit(hit: int, context: int, total: int, i: int)
    requires
        0 <= hit < total,
        0 <= context,
        0 <= i < total,
    ensures
        (window_start(hit, context) <= i < window_end(hit, context, total)) == (-context <= i - hit
            <= context),
{
}

/// The lines of a text, put one after another with line breaks between, are the text, if it
/// has no carriage returns and ends in a line break.
pub proof fn lemma_lines_make_the_text(text: Seq<char>)
    requires
        text.len() > 0 ==> text.last() == '\n',
        !text.contains('\r'),
    ensures
        lines_of(text).map_values(|l: Seq<char>| l.push('\n')).flatten() == text,
        forall|i: int| 0 <= i < lines_of(text).len() ==> !(#[trigger] lines_of(text)[i]).contains('\n'),
{
    lemma_lines_from(text, 0);
    assert(text.skip(0) =~= text);
}

#[verifier::rlimit(40)]
proof fn lemma_lines_from(text: Seq<char>, from: int)
    requires
        text.len() > 0 ==> text.last() == '\n',
        !text.contains('\r'),
        0 <= from <= text.len(),
    ensures
        lines_from(text, from).map_values(|l: Seq<char>| l.push('\n')).flatten() == text.skip(from),
        forall|i: int|
            0 <= i < lines_from(text, from).len() ==> !(#[trigger] lines_from(
                text,
                from,
            )[i]).contains('\n'),
    decreases text.len() - from,
{
    let all = lines_from(text, from);
    let ended = all.map_values(|l: Seq<char>| l.push('\n'));
    if from >= text.len() {
        assert(ended.flatten() =~= text.skip(from));
    } else {
        let mark = seq!['\n'];
        lemma_find_is_first(text, mark, from);
        let last = text.len() - 1;
        assert(text.subrange(last, last + 1) =~= mark);
        assert(matches_at(text, mark, last));
        let at = find(text, mark, from)->0;
        let line = text.subrange(from, at);
        assert(text.subrange(at, at + 1)[0] == '\n');
        assert(!(line.len() > 0 && line.last() == '\r')) by {
            if line.len() > 0 && line.last() == '\r' {
                assert(text[at - 1] == '\r');
            }
        }
        lemma_lines_from(text, at + 1);
        let rest = lines_from(text, at + 1);
        assert(all == seq![line] + rest);
        assert(all.drop_first() =~= rest);
        assert(ended.drop_first() =~= rest.map_values(|l: Seq<char>| l.push('\n')));
        assert(ended.first() == line.push('\n'));
        assert(line.push('\n') + text.skip(at + 1) =~= text.skip(from));
        assert forall|i: int| 0 <= i < all.len() implies !(#[trigger] all[i]).contains('\n') by {
            if i == 0 {
                if line.contains('\n') {
                    let k = choose|k: int| 0 <= k < line.len() && line[k] == '\n';
                    assert(text.subrange(from + k, from + k + 1) =~= mark);
                    assert(matches_at(text, mark, from + k));
                }
            } else {
                assert(all[i] == rest[i - 1]);
            }
        }
    }
}

/// The lines of a section come one after another, each behind its number; numbers count
/// from one.
pub proof fn lemma_section_gives_its_lines(list: Seq<Seq<char>>, from: int, to: int)
    requires
        0 <= from <= to <= list.len(),
    ensures
        section_lines(list, from, to) == Seq::new(
            (to - from) as nat,
            |k: int| right(decimal((from + k + 1) as nat), 6) + seq![':', ' '] + list[from + k] + seq!['\n'],
        ).flatten_alt(),
    decreases to - from,
{
    let shown = Seq::new(
        (to - from) as nat,
        |k: int| right(decimal((from + k + 1) as nat), 6) + seq![':', ' '] + list[from + k] + seq!['\n'],
    );
    if from < to {
        lemma_section_gives_its_lines(list, from, to - 1);
        reveal_strlit(": ");
        reveal_strlit("\n");
        assert(": "@ =~= seq![':', ' ']);
        assert("\n"@ =~= seq!['\n']);
        assert(shown.drop_last() =~= Seq::new(
            (to - 1 - from) as nat,
            |k: int| right(decimal((from + k + 1) as nat), 6) + seq![':', ' '] + list[from + k] + seq!['\n'],
        ));
        let number = right(decimal(to as nat), 6);
        assert(Seq::<char>::empty() + number =~= number);
        assert(shown.last() == number + seq![':', ' '] + list[to - 1] + seq!['\n']);
        assert(section_lines(list, from, to) =~= section_lines(list, from, to - 1) + shown.last());
    } else {
        assert(shown.flatten_alt() =~= Seq::<char>::empty());
    }
}

/// A text that stands nowhere in another is counted no times and changes nothing.
pub proof fn lemma_absent_text_changes_nothing(text: Seq<char>, old: Seq<char>, new: Seq<char>)
    requires
        old.len() > 0,
    ensures
        (count_of(text, old) == 0) == !is_in(text, old),
        !is_in(text, old) ==> replaced(text, old, new) == text && replaced_once(text, old, new) == text,
{
    lemma_is_in(text, old);
    if !is_in(text, old) {
        assert(text.skip(0) =~= text);
    }
}

/// A text that stands at one place only is counted once. Changing it there, or everywhere,
/// leaves what is before and behind.
pub proof fn lemma_single_text_is_changed(
    front: Seq<char>,
    old: Seq<char>,
    back: Seq<char>,
    new: Seq<char>,
)
    requires
        old.len() > 0,
        forall|k: int| #[trigger] matches_at(front + old + back, old, k) ==> k == front.len(),
    ensures
        count_of(front + old + back, old) == 1,
        replaced_once(front + old + back, old, new) == front + new + back,
        replaced(front + old + back, old, new) == front + new + back,
{
    let text = front + old + back;
    let n = front.len() as int;
    assert(text.subrange(n, n + old.len()) =~= old);
    assert(matches_at(text, old, n));
    lemma_find_is_first(text, old, 0);
    assert(find(text, old, 0) == Some(n));
    lemma_find_is_first(text, old, n + old.len());
    assert(find(text, old, n + old.len()) is None);
    assert(occurrences(text, old, n + old.len()) == 0);
    assert(text.take(n) =~= front);
    assert(text.subrange(0, n) =~= front);
    assert(text.skip(n + old.len()) =~= back);
    assert(replaced_from(text, old, new, n + old.len()) == back);
}

/// A text that stands at two places, one behind the other, is counted twice at least.
pub proof fn lemma_two_places_are_counted(text: Seq<char>, old: Seq<char>, i: int, j: int)
    requires
        old.len() > 0,
        matches_at(text, old, i),
        matches_at(text, old, j),
        i + old.len() <= j,
    ensures
        count_of(text, old) >= 2,
{
    lemma_find_is_first(text, old, 0);
    let at = find(text, old, 0)->0;
    lemma_find_is_first(text, old, at + old.len());
    assert(find(text, old, at + old.len()) is Some);
    assert(occurrences(text, old, at + old.len()) >= 1);
}

/// Whether a node of a netlist is a part of a reference.
pub open spec fn is_part(node: Tree, reference: Seq<char>) -> bool {
    is_headed(node, "comp"@) && field(node, "ref"@) == Some(reference)
}

/// Whether a part among nodes has a reference.
pub open spec fn has_part(items: Seq<Tree>, reference: Seq<char>) -> bool {
    exists|i: int| 0 <= i < items.len() && #[trigger] is_part(items[i], reference)
}

/// The parts of a netlist: each reference is listed once, with what the last part that has
/// it says; and no reference is listed that no part has.
#[verifier::rlimit(40)]
pub proof fn lemma_netlist_tells_its_parts(items: Seq<Tree>)
    ensures
        forall|j: int, k: int|
            0 <= j < k < parts_among(items).len() ==> (#[trigger] parts_among(items)[j]).0 != (
            #[trigger] parts_among(items)[k]).0,
        forall|i: int, reference: Seq<char>|
            0 <= i < items.len() && #[trigger] is_part(items[i], reference) && (forall|j: int|
                i < j < items.len() ==> !is_part(#[trigger] items[j], reference))
                ==> parts_among(items).contains(
                (reference, (or_empty(field(items[i], "footprint"@)), or_empty(field(items[i], "value"@)))),
            ),
        forall|k: int|
            0 <= k < parts_among(items).len() ==> has_part(items, (#[trigger] parts_among(items)[k]).0),
    decreases items.len(),
{
    if items.len() > 0 {
        let front = items.drop_last();
        let known = parts_among(front);
        let all = parts_among(items);
        let node = items.last();
        lemma_netlist_tells_its_parts(front);
        if is_headed(node, "comp"@) && field(node, "ref"@) is Some {
            let r = field(node, "ref"@)->0;
            let said = (or_empty(field(node, "footprint"@)), or_empty(field(node, "value"@)));
            assert(is_part(node, r));
            lemma_place_bounds(known, r);
            lemma_place_found(known, r);
            assert(all == put(known, r, said));
            let spot = match place(known, r) {
                Some(i) => i,
                None => known.len() as int,
            };
            assert(all[spot] == (r, said));
            assert(forall|k: int| 0 <= k < all.len() && k != spot ==> all[k] == known[k]);
            assert forall|i: int, reference: Seq<char>|
                0 <= i < items.len() && #[trigger] is_part(items[i], reference) && (forall|j: int|
                    i < j < items.len() ==> !is_part(#[trigger] items[j], reference)) implies all.contains(
                (reference, (or_empty(field(items[i], "footprint"@)), or_empty(field(items[i], "value"@)))),
            ) by {
                if i < front.len() {
                    assert(!is_part(items[items.len() - 1], reference));
                    assert(reference != r);
                    assert(is_part(front[i], reference));
                    assert forall|j: int| i < j < front.len() implies !is_part(
                        #[trigger] front[j],
                        reference,
                    ) by {
                        assert(!is_part(items[j], reference));
                    }
                    let e = (
                        reference,
                        (or_empty(field(items[i], "footprint"@)), or_empty(field(items[i], "value"@))),
                    );
                    assert(known.contains(e));
                    let k = choose|k: int| 0 <= k < known.len() && known[k] == e;
                    assert(all[k] == e);
                } else {
                    assert(all[spot] == (r, said));
                }
            }
            assert forall|k: int| 0 <= k < all.len() implies has_part(
                items,
                (#[trigger] all[k]).0,
            ) by {
                if k == spot {
                    assert(is_part(items[items.len() - 1], all[k].0));
                } else {
                    assert(has_part(front, known[k].0));
                    let i = choose|i: int|
                        0 <= i < front.len() && #[trigger] is_part(front[i], known[k].0);
                    assert(is_part(items[i], all[k].0));
                }
            }
        } else {
            assert(all == known);
            assert forall|i: int, reference: Seq<char>|
                0 <= i < items.len() && #[trigger] is_part(items[i], reference) && (forall|j: int|
                    i < j < items.len() ==> !is_part(#[trigger] items[j], reference)) implies all.contains(
                (reference, (or_empty(field(items[i], "footprint"@)), or_empty(field(items[i], "value"@)))),
            ) by {
                assert(is_part(front[i], reference));
                assert forall|j: int| i < j < front.len() implies !is_part(
                    #[trigger] front[j],
                    reference,
                ) by {
                    assert(!is_part(items[j], reference));
                }
            }
            assert forall|k: int| 0 <= k < all.len() implies has_part(
                items,
                (#[trigger] all[k]).0,
            ) by {
                assert(has_part(front, known[k].0));
                let i = choose|i: int|
                    0 <= i < front.len() && #[trigger] is_part(front[i], known[k].0);
                assert(is_part(items[i], all[k].0));
            }
        }
    }
}

proof fn lemma_place_found<V>(list: Seq<(Seq<char>, V)>, key: Seq<char>)
    ensures
        place(list, key) is None ==> forall|i: int| 0 <= i < list.len() ==> (#[trigger] list[i]).0 != key,
    decreases list.len(),
{
    if list.len() > 0 && list.last().0 != key {
        lemma_place_found(list.drop_last(), key);
        assert forall|i: int|
            0 <= i < list.len() && place(list, key) is None implies (#[trigger] list[i]).0 != key by {
            if i < list.len() - 1 {
                assert(list.drop_last()[i] == list[i]);
            }
        }
    }
}

/// The footprints whose name and library hold a text, however it is spelt.
pub open spec fn footprints_with(
    list: Seq<(Seq<char>, Seq<char>)>,
    query: Seq<char>,
) -> spec_fn(int) -> bool {
    |i: int| is_in(lowercase(list[i].0 + seq![':'] + list[i].1), lowercase(query))
}

/// A search for footprints finds all that hold the text, in their order, up to the number
/// that is asked for.
pub proof fn lemma_search_finds_its_footprints(
    list: Seq<(Seq<char>, Seq<char>)>,
    query: Seq<char>,
    most: nat,
) -> (at: Seq<int>)
    ensures
        picks(at, list.len() as int, footprints_with(list, query)),
        crate::tools::hits(list, query, most).len() == if at.len() < most {
            at.len()
        } else {
            most
        },
        forall|k: int|
            0 <= k < crate::tools::hits(list, query, most).len() ==> #[trigger] crate::tools::hits(
                list,
                query,
                most,
            )[k] == list[at[k]].0 + seq![':'] + list[at[k]].1,
    decreases list.len(),
{
    if list.len() == 0 {
        Seq::empty()
    } else {
        let front = list.drop_last();
        let at = lemma_search_finds_its_footprints(front, query, most);
        let n = list.len() - 1;
        let p = footprints_with(list, query);
        let e = list.last();
        reveal_strlit(":");
        assert(":"@ =~= seq![':']);
        lemma_is_in(lowercase(e.0 + seq![':'] + e.1), lowercase(query));
        lemma_picked_next(at, n, footprints_with(front, query), p);
        let more = picked_next(at, n, p);
        let old = crate::tools::hits(front, query, most);
        let new = crate::tools::hits(list, query, most);
        assert forall|k: int| 0 <= k < new.len() implies #[trigger] new[k] == list[more[k]].0 + seq![':']
            + list[more[k]].1 by {
            if k < old.len() {
                assert(new[k] == old[k]);
                assert(front[at[k]] == list[at[k]]);
            }
        }
        more
    }
}

} // verus!
