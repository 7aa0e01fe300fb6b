//! What bringing a board up to date is for: a part that differs from its schematic is
//! found, and reads as the schematic says afterwards.

use crate::footprints::{
    footprint_name, footprints, lemma_footprints, value_of, with_footprint_name, with_value,
};
use crate::schematic::{lemma_property_read_back, property, property_marker, quoted_value, value_end};
use crate::strings::{lemma_sorted, sorted, strings};
use crate::sync::{
    debug_text, is_plan, part_change, parts_of, parts_standing, references, standing, unknown_references,
    updated_block, with_part, with_parts, Standing, SyncPlan,
};
use crate::tables::{lemma_place_bounds, place};
use crate::text::{find, lemma_find_at, lemma_find_is_first, matches_at};
use vstd::prelude::*;

verus! {

/// A part of a schematic: its reference, its footprint and its value.
pub type Part = (Seq<char>, (Seq<char>, Seq<char>));

/// Whether a footprint block says what a part is to be. An empty name or value asks for
/// nothing.
pub open spec fn says(block: Seq<char>, part: Part) -> bool {
    &&& part.1.0.len() == 0 || footprint_name(block) == Some(part.1.0)
    &&& part.1.1.len() == 0 || value_of(block) == Some(part.1.1)
}

proof fn lemma_place_of<V>(list: Seq<(Seq<char>, V)>, k: int)
    requires
        0 <= k < list.len(),
        forall|i: int, j: int| 0 <= i < j < list.len() ==> (#[trigger] list[i]).0 != (
        #[trigger] list[j]).0,
    ensures
        place(list, list[k].0) == Some(k),
    decreases list.len(),
{
    if k < list.len() - 1 {
        let front = list.drop_last();
        assert(front[k] == list[k]);
        assert(list[list.len() - 1].0 != list[k].0);
        assert forall|i: int, j: int| 0 <= i < j < front.len() implies (#[trigger] front[i]).0 != (
        #[trigger] front[j]).0 by {
            assert(front[i] == list[i] && front[j] == list[j]);
        }
        lemma_place_of(front, k);
    }
}

proof fn lemma_no_place<V>(list: Seq<(Seq<char>, V)>, key: Seq<char>)
    ensures
        place(list, key) is None == forall|i: int|
            0 <= i < list.len() ==> (#[trigger] list[i]).0 != key,
    decreases list.len(),
{
    if list.len() > 0 {
        lemma_place_bounds(list, key);
        let front = list.drop_last();
        lemma_no_place(front, key);
        if place(list, key) is None {
            assert forall|i: int| 0 <= i < list.len() implies (#[trigger] list[i]).0 != key by {
                if i < list.len() - 1 {
                    assert(front[i] == list[i]);
                }
            }
        } else {
            let i = place(list, key)->0;
            assert(list[i].0 == key);
        }
    }
}

proof fn lemma_standing(text: Seq<char>, part: Part, k: int)
    requires
        0 <= k < footprints(text).len(),
        footprints(text)[k].0 == part.0,
    ensures
        ({
            let span = footprints(text)[k].1;
            standing(text, part) == (if says(text.subrange(span.0, span.1), part) {
                Standing::Same
            } else {
                Standing::Differs
            })
        }),
{
    lemma_footprints(text);
    lemma_place_of(footprints(text), k);
    let span = footprints(text)[k].1;
    let block = text.subrange(span.0, span.1);
    if let Some(n) = footprint_name(block) {
        assert(Some(n) == Some(part.1.0) <==> n == part.1.0);
    }
    if let Some(v) = value_of(block) {
        assert(Some(v) == Some(part.1.1) <==> v == part.1.1);
    }
}

proof fn lemma_chosen(text: Seq<char>, parts: Seq<Part>, how: Standing, p: Part)
    ensures
        parts_standing(text, parts, how).contains(p) == exists|i: int|
            0 <= i < parts.len() && #[trigger] parts[i] == p && standing(text, p) == how,
    decreases parts.len(),
{
    if parts.len() > 0 {
        let front = parts.drop_last();
        lemma_chosen(text, front, how, p);
        let before = parts_standing(text, front, how);
        let now = parts_standing(text, parts, how);
        if now.contains(p) {
            let j = choose|j: int| 0 <= j < now.len() && now[j] == p;
            if j < before.len() {
                assert(before[j] == p);
                let i = choose|i: int|
                    0 <= i < front.len() && #[trigger] front[i] == p && standing(text, p) == how;
                assert(parts[i] == p);
            } else {
                assert(parts[parts.len() - 1] == p);
            }
        }
        if exists|i: int| 0 <= i < parts.len() && #[trigger] parts[i] == p && standing(text, p) == how {
            let i = choose|i: int|
                0 <= i < parts.len() && #[trigger] parts[i] == p && standing(text, p) == how;
            if i < front.len() {
                assert(front[i] == p);
                let j = choose|j: int| 0 <= j < before.len() && before[j] == p;
                assert(now[j] == p);
            } else {
                assert(now[now.len() - 1] == p);
            }
        }
    }
}

proof fn lemma_sorted_holds(list: Seq<Seq<char>>, x: Seq<char>)
    ensures
        sorted(list).contains(x) == list.contains(x),
{
    broadcast use vstd::seq_lib::group_to_multiset_ensures;

    lemma_sorted(list);
    assert(sorted(list).contains(x) <==> sorted(list).to_multiset().count(x) > 0);
    assert(list.contains(x) <==> list.to_multiset().count(x) > 0);
}

proof fn lemma_named(parts: Seq<Part>, r: Seq<char>)
    ensures
        references(parts).contains(r) == exists|i: int|
            0 <= i < parts.len() && (#[trigger] parts[i]).0 == r,
{
    let list = references(parts);
    if list.contains(r) {
        let i = choose|i: int| 0 <= i < list.len() && list[i] == r;
        assert(parts[i].0 == r);
    }
    if exists|i: int| 0 <= i < parts.len() && (#[trigger] parts[i]).0 == r {
        let i = choose|i: int| 0 <= i < parts.len() && (#[trigger] parts[i]).0 == r;
        assert(list[i] == r);
    }
}

/// A part whose footprint on the board does not say what the schematic says is to be
/// changed to just that, and one whose footprint says it is left alone. A part without a
/// footprint on the board is told as missing.
pub proof fn lemma_differing_part_is_changed(
    plan: SyncPlan,
    text: Seq<char>,
    parts: Seq<Part>,
    i: int,
)
    requires
        is_plan(plan, text, parts),
        0 <= i < parts.len(),
    ensures
        plan.updated@.len() == plan.pending@.len(),
        forall|k: int|
            0 <= k < footprints(text).len() && (#[trigger] footprints(text)[k]).0 == parts[i].0
                ==> ({
                let block = text.subrange(footprints(text)[k].1.0, footprints(text)[k].1.1);
                &&& says(block, parts[i]) ==> strings(plan.no_change@).contains(parts[i].0)
                &&& !says(block, parts[i]) ==> exists|u: int|
                    0 <= u < plan.pending@.len() && (#[trigger] plan.pending@[u]).reference@
                        == parts[i].0 && plan.pending@[u].footprint@ == parts[i].1.0
                        && plan.pending@[u].value@ == parts[i].1.1
            }),
        (forall|k: int|
            0 <= k < footprints(text).len() ==> (#[trigger] footprints(text)[k]).0 != parts[i].0)
            ==> strings(plan.missing_from_pcb@).contains(parts[i].0),
{
    let p = parts[i];
    let differing = parts_standing(text, parts, Standing::Differs);
    assert(strings(plan.updated@).len() == plan.updated@.len());
    assert(parts_of(plan.pending@).len() == plan.pending@.len());
    lemma_chosen(text, parts, Standing::Differs, p);
    lemma_chosen(text, parts, Standing::Same, p);
    lemma_chosen(text, parts, Standing::Missing, p);
    assert forall|k: int|
        0 <= k < footprints(text).len() && (#[trigger] footprints(text)[k]).0 == parts[i].0 implies ({
        let block = text.subrange(footprints(text)[k].1.0, footprints(text)[k].1.1);
        &&& says(block, parts[i]) ==> strings(plan.no_change@).contains(parts[i].0)
        &&& !says(block, parts[i]) ==> exists|u: int|
            0 <= u < plan.pending@.len() && (#[trigger] plan.pending@[u]).reference@ == parts[i].0
                && plan.pending@[u].footprint@ == parts[i].1.0 && plan.pending@[u].value@
                == parts[i].1.1
    }) by {
        lemma_standing(text, p, k);
        let block = text.subrange(footprints(text)[k].1.0, footprints(text)[k].1.1);
        if says(block, p) {
            let same = parts_standing(text, parts, Standing::Same);
            assert(same.contains(p));
            let j = choose|j: int| 0 <= j < same.len() && same[j] == p;
            assert(same[j].0 == p.0);
            lemma_named(same, p.0);
            lemma_sorted_holds(references(same), p.0);
        } else {
            assert(differing.contains(p));
            let u = choose|u: int| 0 <= u < differing.len() && differing[u] == p;
            assert(parts_of(plan.pending@)[u] == p);
            assert(plan.pending@[u].reference@ == p.0);
        }
    }
    if forall|k: int|
        0 <= k < footprints(text).len() ==> (#[trigger] footprints(text)[k]).0 != parts[i].0 {
        lemma_no_place(footprints(text), p.0);
        let gone = parts_standing(text, parts, Standing::Missing);
        assert(gone.contains(p));
        let j = choose|j: int| 0 <= j < gone.len() && gone[j] == p;
        assert(gone[j].0 == p.0);
        lemma_named(gone, p.0);
        lemma_sorted_holds(references(gone), p.0);
    }
}

/// Nothing is told without reason: a reference with nothing to change is that of a part
/// whose footprint says what the schematic says; a missing one is that of a part without
/// a footprint; and what is changed is a part whose footprint differs.
pub proof fn lemma_sync_tells_the_truth(plan: SyncPlan, text: Seq<char>, parts: Seq<Part>, r: Seq<char>)
    requires
        is_plan(plan, text, parts),
    ensures
        strings(plan.no_change@).contains(r) ==> exists|i: int, k: int|
            0 <= i < parts.len() && 0 <= k < footprints(text).len() && (#[trigger] parts[i]).0 == r
                && (#[trigger] footprints(text)[k]).0 == r && says(
                text.subrange(footprints(text)[k].1.0, footprints(text)[k].1.1),
                parts[i],
            ),
        strings(plan.missing_from_pcb@).contains(r) ==> (exists|i: int|
            0 <= i < parts.len() && (#[trigger] parts[i]).0 == r) && forall|k: int|
            0 <= k < footprints(text).len() ==> (#[trigger] footprints(text)[k]).0 != r,
        forall|u: int| #![trigger plan.pending@[u]]
            0 <= u < plan.pending@.len() ==> exists|i: int, k: int|
                0 <= i < parts.len() && 0 <= k < footprints(text).len() && (#[trigger] parts[i]).0
                    == plan.pending@[u].reference@ && (#[trigger] footprints(text)[k]).0
                    == parts[i].0 && !says(
                    text.subrange(footprints(text)[k].1.0, footprints(text)[k].1.1),
                    parts[i],
                ),
{
    lemma_footprints(text);
    let same = parts_standing(text, parts, Standing::Same);
    let gone = parts_standing(text, parts, Standing::Missing);
    let differing = parts_standing(text, parts, Standing::Differs);
    if strings(plan.no_change@).contains(r) {
        lemma_sorted_holds(references(same), r);
        lemma_named(same, r);
        let j = choose|j: int| 0 <= j < same.len() && (#[trigger] same[j]).0 == r;
        let p = same[j];
        assert(same.contains(p));
        lemma_chosen(text, parts, Standing::Same, p);
        let i = choose|i: int|
            0 <= i < parts.len() && #[trigger] parts[i] == p && standing(text, p) == Standing::Same;
        lemma_place_bounds(footprints(text), r);
        let k = place(footprints(text), r)->0;
        lemma_standing(text, p, k);
        assert(parts[i].0 == r && footprints(text)[k].0 == r);
    }
    if strings(plan.missing_from_pcb@).contains(r) {
        lemma_sorted_holds(references(gone), r);
        lemma_named(gone, r);
        let j = choose|j: int| 0 <= j < gone.len() && (#[trigger] gone[j]).0 == r;
        let p = gone[j];
        assert(gone.contains(p));
        lemma_chosen(text, parts, Standing::Missing, p);
        let i = choose|i: int|
            0 <= i < parts.len() && #[trigger] parts[i] == p && standing(text, p)
                == Standing::Missing;
        assert(parts[i].0 == r);
        lemma_no_place(footprints(text), r);
    }
    assert forall|u: int| #![trigger plan.pending@[u]] 0 <= u < plan.pending@.len() implies exists|
        i: int,
        k: int,
    |
        0 <= i < parts.len() && 0 <= k < footprints(text).len() && (#[trigger] parts[i]).0
            == plan.pending@[u].reference@ && (#[trigger] footprints(text)[k]).0 == parts[i].0 && !says(
            text.subrange(footprints(text)[k].1.0, footprints(text)[k].1.1),
            parts[i],
        ) by {
        let p = parts_of(plan.pending@)[u];
        assert(differing[u] == p);
        assert(differing.contains(p));
        lemma_chosen(text, parts, Standing::Differs, p);
        let i = choose|i: int|
            0 <= i < parts.len() && #[trigger] parts[i] == p && standing(text, p)
                == Standing::Differs;
        lemma_place_bounds(footprints(text), p.0);
        let k = place(footprints(text), p.0)->0;
        lemma_standing(text, p, k);
        assert(parts[i].0 == plan.pending@[u].reference@ && footprints(text)[k].0 == parts[i].0);
    }
}

/// A reference is told as lacking in the schematic exactly if a footprint has it and no
/// part does.
pub proof fn lemma_strangers_are_told(plan: SyncPlan, text: Seq<char>, parts: Seq<Part>, r: Seq<char>)
    requires
        is_plan(plan, text, parts),
    ensures
        strings(plan.missing_from_sch@).contains(r) == ((exists|k: int|
            0 <= k < footprints(text).len() && (#[trigger] footprints(text)[k]).0 == r) && forall|
            i: int,
        |
            0 <= i < parts.len() ==> (#[trigger] parts[i]).0 != r),
{
    lemma_unknown(footprints(text), parts, r);
    lemma_sorted_holds(unknown_references(footprints(text), parts), r);
}

proof fn lemma_unknown(list: Seq<(Seq<char>, (int, int))>, parts: Seq<Part>, r: Seq<char>)
    ensures
        unknown_references(list, parts).contains(r) == ((exists|k: int|
            0 <= k < list.len() && (#[trigger] list[k]).0 == r) && forall|i: int|
            0 <= i < parts.len() ==> (#[trigger] parts[i]).0 != r),
    decreases list.len(),
{
    if list.len() > 0 {
        let front = list.drop_last();
        lemma_unknown(front, parts, r);
        lemma_no_place(parts, r);
        let last = list.last().0;
        lemma_no_place(parts, last);
        let before = unknown_references(front, parts);
        let now = unknown_references(list, parts);
        if now.contains(r) {
            let j = choose|j: int| 0 <= j < now.len() && now[j] == r;
            if j < before.len() {
                assert(before[j] == r);
                let k = choose|k: int| 0 <= k < front.len() && (#[trigger] front[k]).0 == r;
                assert(list[k].0 == r);
            } else {
                assert(list[list.len() - 1].0 == r);
            }
        }
        if (exists|k: int| 0 <= k < list.len() && (#[trigger] list[k]).0 == r) && forall|i: int|
            0 <= i < parts.len() ==> (#[trigger] parts[i]).0 != r {
            let k = choose|k: int| 0 <= k < list.len() && (#[trigger] list[k]).0 == r;
            if k < front.len() {
                assert(front[k].0 == r);
                assert(before.contains(r));
                let j = choose|j: int| 0 <= j < before.len() && before[j] == r;
                assert(now[j] == r);
            } else {
                assert(now[now.len() - 1] == r);
            }
        }
    }
}

/// Whether a name can stand in a footprint block: it holds no quotation mark and does not
/// end like the start of a property.
pub open spec fn is_name(name: Seq<char>) -> bool {
    &&& forall|i: int| 0 <= i < name.len() ==> #[trigger] name[i] != '"'
    &&& !(name.len() >= 10 && name.skip(name.len() - 10) == "(property "@)
}

proof fn lemma_value_marker()
    ensures
        property_marker("Value"@).len() == 19,
        property_marker("Value"@).take(10) == "(property "@,
        property_marker("Value"@)[10] == '"',
        "(property "@.len() == 10,
        "(property "@[0] == '(',
        "(property "@[1] == 'p',
        forall|i: int| 0 <= i < 10 ==> #[trigger] "(property "@[i] != '"',
{
    reveal_strlit("(property \"");
    reveal_strlit("Value");
    reveal_strlit("\" \"");
    reveal_strlit("(property ");
    assert(property_marker("Value"@).take(10) =~= "(property "@);
}

/// In a block that opens with its name, no property starts before the name is closed.
proof fn lemma_no_value_in_name(block: Seq<char>, name: Seq<char>, p: int)
    requires
        block.len() > 12 + name.len(),
        block.take(12) == "(footprint \""@,
        block.subrange(12, 12 + name.len() as int) == name,
        block[12 + name.len() as int] == '"',
        is_name(name),
        0 <= p <= 12 + name.len(),
    ensures
        !matches_at(block, property_marker("Value"@), p),
{
    lemma_value_marker();
    reveal_strlit("(footprint \"");
    let marker = property_marker("Value"@);
    let c: int = 12 + name.len() as int;
    if matches_at(block, marker, p) {
        let part = block.subrange(p, p + 19);
        assert(part == marker);
        assert(part.take(10) == "(property "@);
        assert forall|i: int| 0 <= i < 10 implies #[trigger] block[p + i] == "(property "@[i] by {
            assert(part.take(10)[i] == block[p + i]);
        }
        assert(block[p + 0] == '(');
        assert(block[p + 1] == 'p');
        assert(block[p + 10] == '"') by {
            assert(part[10] == block[p + 10]);
        }
        if p < 12 {
            assert(block.take(12)[p] == block[p]);
            if p == 0 {
                assert(block.take(12)[1] == block[1]);
            }
        } else if p < c {
            if p + 10 < c {
                assert(name[p + 10 - 12] == block[p + 10]) by {
                    assert(block.subrange(12, c)[p + 10 - 12] == block[p + 10]);
                }
            } else if p + 10 > c {
                assert(block[p + (c - p)] == "(property "@[c - p]);
            } else {
                assert(name.skip(name.len() - 10) =~= "(property "@) by {
                    assert forall|i: int| 0 <= i < 10 implies name.skip(name.len() - 10)[i]
                        == "(property "@[i] by {
                        assert(block.subrange(12, c)[p - 12 + i] == block[p + i]);
                    }
                }
            }
        }
    }
}

proof fn lemma_value_shifts(a: Seq<char>, b: Seq<char>, x: int, y: int)
    requires
        0 <= x <= a.len(),
        0 <= y <= b.len(),
        a.skip(x) == b.skip(y),
    ensures
        quoted_value(a, x) == quoted_value(b, y),
    decreases a.len() - x,
{
    assert(a.len() - x == b.len() - y) by {
        assert(a.skip(x).len() == b.skip(y).len());
    }
    if x < a.len() {
        assert(a.skip(x)[0] == a[x]);
        assert(b.skip(y)[0] == b[y]);
        if a[x] == '\\' {
            if x + 2 <= a.len() {
                assert(a.skip(x + 2) =~= a.skip(x).skip(2));
                assert(b.skip(y + 2) =~= b.skip(y).skip(2));
                lemma_value_shifts(a, b, x + 2, y + 2);
            } else {
                assert(quoted_value(a, x + 2) is None);
                assert(quoted_value(b, y + 2) is None);
            }
        } else if a[x] != '"' {
            assert(a.skip(x + 1) =~= a.skip(x).skip(1));
            assert(b.skip(y + 1) =~= b.skip(y).skip(1));
            lemma_value_shifts(a, b, x + 1, y + 1);
        }
    }
}

/// What is read from a block that opens with a name.
proof fn lemma_opening_name(block: Seq<char>, name: Seq<char>)
    requires
        block.len() > 12 + name.len(),
        block.take(12) == "(footprint \""@,
        block.subrange(12, 12 + name.len() as int) == name,
        block[12 + name.len() as int] == '"',
        forall|i: int| 0 <= i < name.len() ==> #[trigger] name[i] != '"',
    ensures
        footprint_name(block) == Some(name),
        find(block, "(footprint \""@, 0) == Some(0int),
        find(block, seq!['"'], 12) == Some(12 + name.len() as int),
{
    reveal_strlit("(footprint \"");
    let mark = "(footprint \""@;
    let quote = seq!['"'];
    let c: int = 12 + name.len() as int;
    assert(block.subrange(0, 12) =~= block.take(12));
    lemma_find_at(block, mark, 0, 0);
    assert(block.subrange(c, c + 1) =~= quote);
    assert forall|q: int| 12 <= q < c implies !matches_at(block, quote, q) by {
        assert(block.subrange(q, q + 1)[0] == block[q]);
        assert(block.subrange(12, c)[q - 12] == block[q]);
        assert(name[q - 12] != '"');
        assert(quote[0] == '"');
    }
    lemma_find_at(block, quote, 12, c);
}

/// A footprint whose name and value are set says both afterwards, and keeps what it is
/// not asked to change.
pub proof fn lemma_set_part_says(block: Seq<char>, part: Part)
    requires
        matches_at(block, "(footprint \""@, 0),
        footprint_name(block) matches Some(was) && is_name(was),
        is_name(part.1.0),
        property(block, "Value"@) is Some,
        forall|i: int|
            0 <= i < part.1.1.len() ==> #[trigger] part.1.1[i] != '"' && part.1.1[i] != '\\',
    ensures
        ({
            let new = updated_block(block, part.1.0, part.1.1);
            &&& says(new, part)
            &&& part.1.0.len() == 0 ==> footprint_name(new) == footprint_name(block)
            &&& part.1.1.len() == 0 ==> value_of(new) == value_of(block)
        }),
{
    reveal_strlit("(footprint \"");
    lemma_value_marker();
    let marker = property_marker("Value"@);
    let mark = "(footprint \""@;
    let quote = seq!['"'];
    let was = footprint_name(block)->0;
    assert(block.take(12) =~= block.subrange(0, 12));
    lemma_find_at(block, mark, 0, 0);
    lemma_find_is_first(block, quote, 12);
    let e0 = find(block, quote, 12)->0;
    assert(block.subrange(e0, e0 + 1)[0] == '"');
    assert(was =~= block.subrange(12, e0));
    let name = if part.1.0.len() > 0 {
        part.1.0
    } else {
        was
    };
    let named = if part.1.0.len() > 0 {
        with_footprint_name(block, part.1.0)
    } else {
        block
    };
    let c: int = 12 + name.len() as int;
    assert(named =~= block.take(12) + name + block.skip(e0));
    assert(named.take(12) =~= block.take(12));
    assert(named.subrange(12, c) =~= name);
    assert(named[c] == block[e0]);
    lemma_opening_name(named, name);
    // the value stands behind the name
    lemma_find_is_first(block, marker, 0);
    let v0 = find(block, marker, 0)->0;
    if v0 <= e0 {
        lemma_no_value_in_name(block, was, v0);
    }
    let d = c - e0;
    assert(named.skip(c) =~= block.skip(e0));
    assert forall|q: int| 0 <= q < v0 + d implies !matches_at(named, marker, q) by {
        if q <= c {
            lemma_no_value_in_name(named, name, q);
        } else if q + 19 <= named.len() {
            assert(named.subrange(q, q + 19) =~= block.subrange(q - d, q - d + 19)) by {
                assert forall|k: int| q <= k < q + 19 implies named[k] == block[k - d] by {
                    assert(named.skip(c)[k - c] == block.skip(e0)[k - c]);
                }
            }
            assert(!matches_at(block, marker, q - d));
        }
    }
    assert(named.subrange(v0 + d, v0 + d + 19) =~= block.subrange(v0, v0 + 19)) by {
        assert forall|k: int| v0 <= k < v0 + 19 implies named[k + d] == block[k] by {
            assert(named.skip(c)[k - e0] == block.skip(e0)[k - e0]);
        }
    }
    lemma_find_at(named, marker, 0, v0 + d);
    assert(named.skip(v0 + d + 19) =~= named.skip(c).skip(v0 + 19 - e0));
    assert(block.skip(v0 + 19) =~= block.skip(e0).skip(v0 + 19 - e0));
    lemma_value_shifts(named, block, v0 + d + 19, v0 + 19);
    assert(property(named, "Value"@) == property(block, "Value"@));
    if part.1.1.len() > 0 {
        let new = with_value(named, part.1.1);
        lemma_property_read_back(named, "Value"@, part.1.1);
        lemma_value_ends(named, v0 + d + 19);
        assert(new.take(c + 1) =~= named.take(c + 1));
        assert(new.take(12) =~= new.take(c + 1).take(12));
        assert(new.take(12) =~= named.take(12));
        assert(new.subrange(12, c) =~= new.take(c + 1).subrange(12, c));
        assert(new.subrange(12, c) =~= name);
        assert(new[c] == new.take(c + 1)[c]);
        lemma_opening_name(new, name);
    }
}

proof fn lemma_value_ends(text: Seq<char>, at: int)
    requires
        0 <= at,
        quoted_value(text, at) is Some,
    ensures
        value_end(text, at) matches Some(end) && at <= end < text.len(),
    decreases text.len() + 1 - at,
{
    if at < text.len() && text[at] != '"' {
        if text[at] == '\\' {
            lemma_value_ends(text, at + 2);
        } else {
            lemma_value_ends(text, at + 1);
        }
    }
}

/// The parts of a plan are set one after the other, each in its own block: what stands
/// before and behind the block stays, and the block says what the part is to be.
pub proof fn lemma_every_part_is_set(text: Seq<char>, parts: Seq<Part>, k: int, f: int)
    requires
        0 <= k < parts.len(),
        ({
            let t = with_parts(text, parts.take(k));
            let span = footprints(t)[f].1;
            let block = t.subrange(span.0, span.1);
            &&& 0 <= f < footprints(t).len()
            &&& footprints(t)[f].0 == parts[k].0
            &&& footprint_name(block) matches Some(was) && is_name(was)
            &&& property(block, "Value"@) is Some
        }),
        is_name(parts[k].1.0),
        forall|i: int|
            0 <= i < parts[k].1.1.len() ==> #[trigger] parts[k].1.1[i] != '"' && parts[k].1.1[i]
                != '\\',
    ensures
        with_parts(text, parts.take(0)) == text,
        with_parts(text, parts.take(parts.len() as int)) == with_parts(text, parts),
        ({
            let t = with_parts(text, parts.take(k));
            let span = footprints(t)[f].1;
            let next = with_parts(text, parts.take(k + 1));
            let end = next.len() - (t.len() - span.1);
            &&& 0 <= span.0 < end <= next.len()
            &&& next.take(span.0) == t.take(span.0)
            &&& next.skip(end) == t.skip(span.1)
            &&& says(next.subrange(span.0, end), parts[k])
        }),
{
    let t = with_parts(text, parts.take(k));
    let span = footprints(t)[f].1;
    let block = t.subrange(span.0, span.1);
    let next = with_parts(text, parts.take(k + 1));
    assert(parts.take(parts.len() as int) =~= parts);
    assert(parts.take(k + 1).drop_last() =~= parts.take(k));
    assert(parts.take(k + 1).last() == parts[k]);
    assert(next == with_part(t, parts[k]));
    lemma_footprints(t);
    lemma_place_of(footprints(t), f);
    reveal_strlit("(footprint \"");
    assert(block.subrange(0, 12) =~= t.subrange(span.0, span.0 + 12)) by {
        lemma_find_is_first(block, "(footprint \""@, 0);
        assert(block.len() >= 12);
    }
    lemma_set_part_says(block, parts[k]);
    let new = updated_block(block, parts[k].1.0, parts[k].1.1);
    let end = span.0 + new.len();
    assert(next =~= t.take(span.0) + new + t.skip(span.1));
    assert(next.take(span.0) =~= t.take(span.0));
    assert(next.skip(end) =~= t.skip(span.1));
    assert(next.subrange(span.0, end) =~= new);
    if new.len() == 0 {
        lemma_find_is_first(new, "(footprint \""@, 0);
    }
}

/// What is said of a change names the part, and what its footprint and its value were and
/// are to be, each if it is to change.
pub proof fn lemma_change_is_told(text: Seq<char>, part: Part, k: int)
    requires
        0 <= k < footprints(text).len(),
        footprints(text)[k].0 == part.0,
        ({
            let block = text.subrange(footprints(text)[k].1.0, footprints(text)[k].1.1);
            footprint_name(block) is Some && value_of(block) is Some
        }),
    ensures
        ({
            let block = text.subrange(footprints(text)[k].1.0, footprints(text)[k].1.1);
            let was = footprint_name(block)->0;
            let had = value_of(block)->0;
            let names = if part.1.0.len() > 0 && was != part.1.0 {
                "\n    footprint: "@ + debug_text(was) + " → "@ + debug_text(part.1.0)
            } else {
                Seq::empty()
            };
            let values = if part.1.1.len() > 0 && had != part.1.1 {
                "\n    value:     "@ + debug_text(had) + " → "@ + debug_text(part.1.1)
            } else {
                Seq::empty()
            };
            part_change(text, part) == "  "@ + part.0 + ":"@ + names + values
        }),
{
    lemma_footprints(text);
    lemma_place_of(footprints(text), k);
    let block = text.subrange(footprints(text)[k].1.0, footprints(text)[k].1.1);
    let was = footprint_name(block)->0;
    let had = value_of(block)->0;
    let names = if part.1.0.len() > 0 && was != part.1.0 {
        "\n    footprint: "@ + debug_text(was) + " → "@ + debug_text(part.1.0)
    } else {
        Seq::empty()
    };
    let values = if part.1.1.len() > 0 && had != part.1.1 {
        "\n    value:     "@ + debug_text(had) + " → "@ + debug_text(part.1.1)
    } else {
        Seq::empty()
    };
    assert(part_change(text, part) =~= "  "@ + part.0 + ":"@ + names + values);
}

} // verus!
