//! Pins: reading them, carrying their identifiers over to another symbol, and
//! rewriting the symbol that holds them.

use crate::decimal::{digits_end, digits_value};
use crate::schematic::{definition, definition_span};
use crate::sexpr::{block_end, end_of_block, lemma_close_bounds, quoted, quoted_after};
use crate::strings::{before, comes_before, strings};
use crate::tables::{listed, lookup, place, put, TextMap};
use crate::text::{find, find_from, lemma_find_is_first, to_chars, to_text};
use vstd::prelude::*;
use vstd::slice::slice_subrange;

verus! {

/// The names of a table of texts.
pub open spec fn text_map(table: Map<Seq<char>, String>) -> Map<Seq<char>, Seq<char>> {
    table.map_values(|s: String| s@)
}

/// The pairs of a list of pairs of texts.
pub open spec fn text_pairs(list: Seq<(String, String)>) -> Seq<(Seq<char>, Seq<char>)> {
    list.map_values(|p: (String, String)| (p.0@, p.1@))
}

/// What a list of numbers and names holds, as a map.
pub open spec fn list_map(list: Seq<(Seq<char>, Seq<char>)>) -> Map<Seq<char>, Seq<char>> {
    Map::new(|k: Seq<char>| place(list, k) is Some, |k: Seq<char>| list[place(list, k)->0].1)
}

proof fn lemma_place_texts(entries: Seq<(String, String)>, key: Seq<char>)
    ensures
        place(text_pairs(entries), key) == place(listed(entries), key),
        lookup(entries, key) is Some == place(text_pairs(entries), key) is Some,
        place(text_pairs(entries), key) matches Some(i) ==> {
            &&& 0 <= i < entries.len()
            &&& lookup(entries, key) == Some(entries[i].1)
        },
    decreases entries.len(),
{
    if entries.len() > 0 {
        lemma_place_texts(entries.drop_last(), key);
        assert(text_pairs(entries).drop_last() =~= text_pairs(entries.drop_last()));
        assert(listed(entries).drop_last() =~= listed(entries.drop_last()));
    }
}

/// A table of texts holds what the list of its entries holds.
proof fn lemma_list_map(table: &TextMap<String>)
    ensures
        text_map(table@) == list_map(text_pairs(table.entries@)),
{
    assert forall|k: Seq<char>| #[trigger]
        text_map(table@).contains_key(k) == list_map(text_pairs(table.entries@)).contains_key(
            k,
        ) by {
        lemma_place_texts(table.entries@, k);
    }
    assert forall|k: Seq<char>| text_map(table@).contains_key(k) implies #[trigger] text_map(
        table@,
    )[k] == list_map(text_pairs(table.entries@))[k] by {
        lemma_place_texts(table.entries@, k);
    }
    assert(text_map(table@) =~= list_map(text_pairs(table.entries@)));
}

proof fn lemma_put_texts(
    before: Seq<(String, String)>,
    after: Seq<(String, String)>,
    key: Seq<char>,
    value: String,
)
    requires
        listed(after) == put(listed(before), key, value),
    ensures
        text_pairs(after) == put(text_pairs(before), key, value@),
{
    lemma_place_texts(before, key);
    assert(text_pairs(after).len() == listed(after).len());
    assert forall|i: int| 0 <= i < after.len() implies #[trigger] text_pairs(after)[i] == put(
        text_pairs(before),
        key,
        value@,
    )[i] by {
        assert(listed(after)[i] == (after[i].0@, after[i].1));
        if i < before.len() {
            assert(listed(before)[i] == (before[i].0@, before[i].1));
        }
    }
    assert(text_pairs(after) =~= put(text_pairs(before), key, value@));
}

/// The number and name of each pin that `known` and the pins from `from` on give.
/// A later pin takes the place of an earlier one with the same number.
pub open spec fn pin_list_from(
    text: Seq<char>,
    from: int,
    known: Seq<(Seq<char>, Seq<char>)>,
) -> Seq<(Seq<char>, Seq<char>)>
    decreases text.len() - from,
    when 0 <= from
    via pin_list_decreases
{
    match find(text, "(pin "@, from) {
        None => known,
        Some(at) => {
            let end = end_of_block(text, at);
            let block = text.subrange(at, end);
            match (quoted_after(block, "(number \""@), quoted_after(block, "(name \""@)) {
                (Some(number), Some(name)) => pin_list_from(text, end, put(known, number, name)),
                _ => pin_list_from(text, end, known),
            }
        },
    }
}

#[via_fn]
proof fn pin_list_decreases(text: Seq<char>, from: int, known: Seq<(Seq<char>, Seq<char>)>) {
    reveal_strlit("(pin ");
    lemma_find_is_first(text, "(pin "@, from);
    match find(text, "(pin "@, from) {
        None => {},
        Some(at) => {
            crate::sexpr::lemma_close_bounds(text, at, 0, false);
        },
    }
}

/// The number and name of each pin of the symbol `lib_id`.
pub open spec fn pin_list(library: Seq<char>, lib_id: Seq<char>) -> Seq<(Seq<char>, Seq<char>)> {
    match definition(library, lib_id) {
        None => Seq::empty(),
        Some((start, end)) => pin_list_from(library.subrange(start, end), 0, Seq::empty()),
    }
}

/// The name of each pin of the symbol `lib_id`, by its number.
pub fn extract_symbol_pins(lib_symbols_block: &str, lib_id: &str) -> (table: TextMap<String>)
    ensures
        table.well_formed(),
        text_pairs(table.entries@) == pin_list(lib_symbols_block@, lib_id@),
{
    let library = to_chars(lib_symbols_block);
    let mut table: TextMap<String> = TextMap::new();
    proof {
        assert(text_pairs(table.entries@) =~= Seq::<(Seq<char>, Seq<char>)>::empty());
        reveal_strlit("(pin ");
    }
    let span = match definition_span(library.as_slice(), lib_id) {
        Some(s) => s,
        None => {
            return table;
        },
    };
    let text = slice_subrange(library.as_slice(), span.start, span.end);
    let mark = to_chars("(pin ");
    let number_mark = to_chars("(number \"");
    let name_mark = to_chars("(name \"");
    let mut from: usize = 0;
    loop
        invariant
            from <= text.len(),
            mark@ == "(pin "@,
            mark@.len() == 5,
            number_mark@ == "(number \""@,
            name_mark@ == "(name \""@,
            table.well_formed(),
            pin_list(lib_symbols_block@, lib_id@) == pin_list_from(
                text@,
                from as int,
                text_pairs(table.entries@),
            ),
        decreases text.len() - from,
    {
        match find_from(text, mark.as_slice(), from) {
            None => {
                return table;
            },
            Some(at) => {
                let end: usize = block_end(text, at);
                let block = slice_subrange(text, at, end);
                let name = quoted(block, name_mark.as_slice());
                let number = quoted(block, number_mark.as_slice());
                match (name, number) {
                    (Some(n), Some(num)) => {
                        let ghost known = table.entries@;
                        let key = to_text(num.as_slice());
                        let value = to_text(n.as_slice());
                        table.insert(key, value);
                        proof {
                            lemma_put_texts(known, table.entries@, num@, value);
                        }
                    },
                    _ => {},
                }
                from = end;
            },
        }
    }
}

/// The number and identifier of each pin listed in `text` from `from` on. A pin
/// stands on a line of its own, four spaces deep.
pub open spec fn instance_pins_from(text: Seq<char>, from: int) -> Seq<(Seq<char>, Seq<char>)>
    decreases text.len() - from,
    when 0 <= from
    via instance_pins_decreases
{
    match find(text, "\n    (pin \""@, from) {
        None => Seq::empty(),
        Some(at) => {
            let end = match find(text, seq!['\n'], at + 1) {
                Some(p) => p,
                None => text.len() as int,
            };
            let line = text.subrange(at + 1, end);
            match (quoted_after(line, "(pin \""@), quoted_after(line, "(uuid \""@)) {
                (Some(number), Some(uuid)) => seq![(number, uuid)] + instance_pins_from(text, end),
                _ => instance_pins_from(text, end),
            }
        },
    }
}

#[via_fn]
proof fn instance_pins_decreases(text: Seq<char>, from: int) {
    reveal_strlit("\n    (pin \"");
    lemma_find_is_first(text, "\n    (pin \""@, from);
    match find(text, "\n    (pin \""@, from) {
        None => {},
        Some(at) => {
            lemma_find_is_first(text, seq!['\n'], at + 1);
        },
    }
}

fn read_line_pins(block: &str) -> (pins: Vec<(String, String)>)
    ensures
        text_pairs(pins@) == instance_pins_from(block@, 0),
{
    let text = to_chars(block);
    let mark = to_chars("\n    (pin \"");
    let newline: Vec<char> = vec!['\n'];
    let pin_mark = to_chars("(pin \"");
    let uuid_mark = to_chars("(uuid \"");
    let mut pins: Vec<(String, String)> = Vec::new();
    let mut from: usize = 0;
    proof {
        reveal_strlit("\n    (pin \"");
        assert(newline@ =~= seq!['\n']);
        assert(text_pairs(pins@) + instance_pins_from(block@, 0) =~= instance_pins_from(block@, 0));
    }
    loop
        invariant
            from <= text.len(),
            text@ == block@,
            newline@ == seq!['\n'],
            mark@ == "\n    (pin \""@,
            mark@.len() == 11,
            pin_mark@ == "(pin \""@,
            uuid_mark@ == "(uuid \""@,
            instance_pins_from(block@, 0) == text_pairs(pins@) + instance_pins_from(
                block@,
                from as int,
            ),
        decreases text.len() - from,
    {
        match find_from(text.as_slice(), mark.as_slice(), from) {
            None => {
                proof {
                    assert(text_pairs(pins@) + Seq::<(Seq<char>, Seq<char>)>::empty()
                        =~= text_pairs(pins@));
                }
                return pins;
            },
            Some(at) => {
                let end: usize = match find_from(text.as_slice(), newline.as_slice(), at + 1) {
                    Some(p) => p,
                    None => text.len(),
                };
                let line = slice_subrange(text.as_slice(), at + 1, end);
                let number = quoted(line, pin_mark.as_slice());
                let uuid = quoted(line, uuid_mark.as_slice());
                match (number, uuid) {
                    (Some(n), Some(u)) => {
                        let ghost done = text_pairs(pins@);
                        let pin = (to_text(n.as_slice()), to_text(u.as_slice()));
                        pins.push(pin);
                        proof {
                            let rest = instance_pins_from(block@, end as int);
                            assert(done + (seq![(n@, u@)] + rest) =~= text_pairs(pins@) + rest);
                        }
                    },
                    _ => {},
                }
                from = end;
            },
        }
    }
}

/// The number and identifier of each pin listed in `text` from `from` on, where a pin
/// is a block two tabs deep.
pub open spec fn tabbed_pins_from(text: Seq<char>, from: int) -> Seq<(Seq<char>, Seq<char>)>
    decreases text.len() - from,
    when 0 <= from
    via tabbed_pins_decreases
{
    match find(text, "\n\t\t(pin \""@, from) {
        None => Seq::empty(),
        Some(at) => {
            let end = end_of_block(text, at + 3);
            let pin = text.subrange(at + 3, end);
            match (quoted_after(pin, "(pin \""@), quoted_after(pin, "(uuid \""@)) {
                (Some(number), Some(uuid)) => seq![(number, uuid)] + tabbed_pins_from(text, end),
                _ => tabbed_pins_from(text, end),
            }
        },
    }
}

#[via_fn]
proof fn tabbed_pins_decreases(text: Seq<char>, from: int) {
    reveal_strlit("\n\t\t(pin \"");
    lemma_find_is_first(text, "\n\t\t(pin \""@, from);
    if let Some(at) = find(text, "\n\t\t(pin \""@, from) {
        lemma_close_bounds(text, at + 3, 0, false);
    }
}

fn read_tabbed_pins(block: &str) -> (pins: Vec<(String, String)>)
    ensures
        text_pairs(pins@) == tabbed_pins_from(block@, 0),
{
    let text = to_chars(block);
    let mark = to_chars("\n\t\t(pin \"");
    let pin_mark = to_chars("(pin \"");
    let uuid_mark = to_chars("(uuid \"");
    let mut pins: Vec<(String, String)> = Vec::new();
    let mut from: usize = 0;
    proof {
        reveal_strlit("\n\t\t(pin \"");
        assert(text_pairs(pins@) + tabbed_pins_from(block@, 0) =~= tabbed_pins_from(block@, 0));
    }
    loop
        invariant
            from <= text.len(),
            text@ == block@,
            mark@ == "\n\t\t(pin \""@,
            mark@.len() == 9,
            pin_mark@ == "(pin \""@,
            uuid_mark@ == "(uuid \""@,
            tabbed_pins_from(block@, 0) == text_pairs(pins@) + tabbed_pins_from(
                block@,
                from as int,
            ),
        decreases text.len() - from,
    {
        match find_from(text.as_slice(), mark.as_slice(), from) {
            None => {
                proof {
                    assert(text_pairs(pins@) + Seq::<(Seq<char>, Seq<char>)>::empty()
                        =~= text_pairs(pins@));
                }
                return pins;
            },
            Some(at) => {
                let end: usize = block_end(text.as_slice(), at + 3);
                let pin = slice_subrange(text.as_slice(), at + 3, end);
                let number = quoted(pin, pin_mark.as_slice());
                let uuid = quoted(pin, uuid_mark.as_slice());
                match (number, uuid) {
                    (Some(n), Some(u)) => {
                        let ghost done = text_pairs(pins@);
                        let pin = (to_text(n.as_slice()), to_text(u.as_slice()));
                        pins.push(pin);
                        proof {
                            let rest = tabbed_pins_from(block@, end as int);
                            assert(done + (seq![(n@, u@)] + rest) =~= text_pairs(pins@) + rest);
                        }
                    },
                    _ => {},
                }
                from = end;
            },
        }
    }
}

/// The number and identifier of each pin of a symbol instance: those on lines four
/// spaces deep if there are any, else those two tabs deep.
pub open spec fn instance_pins(text: Seq<char>) -> Seq<(Seq<char>, Seq<char>)> {
    if find(text, "\n    (pin \""@, 0) is Some {
        instance_pins_from(text, 0)
    } else {
        tabbed_pins_from(text, 0)
    }
}

/// The number and identifier of each pin of a symbol instance.
pub fn extract_instance_pins(block: &str) -> (pins: Vec<(String, String)>)
    ensures
        text_pairs(pins@) == instance_pins(block@),
{
    let text = to_chars(block);
    let mark = to_chars("\n    (pin \"");
    match find_from(text.as_slice(), mark.as_slice(), 0) {
        Some(_) => read_line_pins(block),
        None => read_tabbed_pins(block),
    }
}

/// The whole number that a text denotes, if it is one that fits 64 bits.
pub open spec fn whole_number(text: Seq<char>) -> Option<int> {
    let signed = text.len() > 0 && (text[0] == '-' || text[0] == '+');
    let digits = if signed {
        text.skip(1)
    } else {
        text
    };
    if digits.len() == 0 || digits_end(digits, 0) != digits.len() {
        None
    } else {
        let v = if text[0] == '-' {
            -(digits_value(digits) as int)
        } else {
            digits_value(digits) as int
        };
        if i64::MIN <= v <= i64::MAX {
            Some(v)
        } else {
            None
        }
    }
}

/// The whole number that a text denotes, if it is one that fits 64 bits.
pub fn read_whole_number(text: &[char]) -> (v: Option<i64>)
    ensures
        v is Some == whole_number(text@) is Some,
        v matches Some(n) ==> whole_number(text@) == Some(n as int),
{
    let signed: bool = text.len() > 0 && (text[0] == '-' || text[0] == '+');
    let digits = if signed {
        slice_subrange(text, 1, text.len())
    } else {
        text
    };
    proof {
        if signed {
            assert(digits@ =~= text@.skip(1));
        }
    }
    if digits.len() == 0 {
        return None;
    }
    let mut v: u128 = 0;
    let mut i: usize = 0;
    proof {
        assert(digits@.take(0) =~= Seq::<char>::empty());
    }
    while i < digits.len() && '0' <= digits[i] && digits[i] <= '9'
        invariant
            i <= digits.len(),
            digits_end(digits@, 0) == digits_end(digits@, i as int),
            v <= 0x1_0000_0000_0000_0000,
            v == digits_value(digits@.take(i as int)) || (v == 0x1_0000_0000_0000_0000
                && digits_value(digits@.take(i as int)) >= v),
        decreases digits.len() - i,
    {
        proof {
            assert(digits@.take(i + 1).drop_last() =~= digits@.take(i as int));
        }
        v = v * 10 + (digits[i] as u32 - '0' as u32) as u128;
        if v > 0x1_0000_0000_0000_0000 {
            v = 0x1_0000_0000_0000_0000;
        }
        i += 1;
    }
    if i < digits.len() {
        return None;
    }
    proof {
        assert(digits@.take(digits@.len() as int) =~= digits@);
    }
    if text[0] == '-' {
        if v > 0x8000_0000_0000_0000 {
            None
        } else if v == 0x8000_0000_0000_0000 {
            Some(i64::MIN)
        } else {
            Some(-(v as i64))
        }
    } else if v > 0x7fff_ffff_ffff_ffff {
        None
    } else {
        Some(v as i64)
    }
}

/// Whether one pin number comes before another: by value if both are whole
/// numbers, else as in a dictionary.
pub open spec fn pin_before(a: Seq<char>, b: Seq<char>) -> bool {
    match (whole_number(a), whole_number(b)) {
        (Some(x), Some(y)) => x < y,
        _ => before(a, b),
    }
}

/// The list with `number` put behind every number that does not come after it.
pub open spec fn insert_pin(list: Seq<Seq<char>>, number: Seq<char>) -> Seq<Seq<char>>
    decreases list.len(),
{
    if list.len() == 0 || !pin_before(number, list.last()) {
        list.push(number)
    } else {
        insert_pin(list.drop_last(), number).push(list.last())
    }
}

/// The pin numbers in order.
pub open spec fn pin_order(list: Seq<Seq<char>>) -> Seq<Seq<char>>
    decreases list.len(),
{
    if list.len() == 0 {
        list
    } else {
        insert_pin(pin_order(list.drop_last()), list.last())
    }
}

proof fn lemma_insert_pin_at(list: Seq<Seq<char>>, number: Seq<char>, k: int)
    requires
        0 <= k <= list.len(),
        k > 0 ==> !pin_before(number, list[k - 1]),
        forall|j: int| k <= j < list.len() ==> pin_before(number, #[trigger] list[j]),
    ensures
        insert_pin(list, number) == list.insert(k, number),
    decreases list.len(),
{
    if k == list.len() {
        assert(list.insert(k, number) =~= list.push(number));
        if list.len() > 0 {
            assert(list.last() == list[k - 1]);
        }
    } else {
        assert(pin_before(number, list[list.len() - 1]));
        lemma_insert_pin_at(list.drop_last(), number, k);
        assert(list.drop_last().insert(k, number).push(list.last()) =~= list.insert(k, number));
    }
}

fn pin_comes_before(a: &str, b: &str) -> (yes: bool)
    ensures
        yes == pin_before(a@, b@),
{
    let left = to_chars(a);
    let right = to_chars(b);
    match (read_whole_number(left.as_slice()), read_whole_number(right.as_slice())) {
        (Some(x), Some(y)) => x < y,
        _ => comes_before(left.as_slice(), right.as_slice()),
    }
}

/// The texts that a table holds something for, in the order of its entries.
pub open spec fn keys<V>(entries: Seq<(String, V)>) -> Seq<Seq<char>> {
    entries.map_values(|e: (String, V)| e.0@)
}

/// The values of a table of texts, in the order of its entries.
pub open spec fn values(entries: Seq<(String, String)>) -> Seq<Seq<char>> {
    entries.map_values(|e: (String, String)| e.1@)
}

fn ordered_numbers(table: &TextMap<String>) -> (out: Vec<String>)
    ensures
        strings(out@) == pin_order(keys(table.entries@)),
{
    let mut out: Vec<String> = Vec::new();
    let mut i: usize = 0;
    proof {
        assert(keys(table.entries@).take(0) =~= Seq::<Seq<char>>::empty());
        assert(strings(out@) =~= Seq::<Seq<char>>::empty());
    }
    while i < table.entries.len()
        invariant
            i <= table.entries.len(),
            strings(out@) == pin_order(keys(table.entries@).take(i as int)),
        decreases table.entries.len() - i,
    {
        let number: String = table.entries[i].0.clone();
        proof {
            let next = keys(table.entries@).take(i + 1);
            assert(next.drop_last() =~= keys(table.entries@).take(i as int));
            assert(next.last() == number@);
        }
        let mut k: usize = out.len();
        while k > 0
            invariant
                k <= out.len(),
                forall|j: int|
                    k <= j < out@.len() ==> pin_before(number@, #[trigger] out@[j]@),
            ensures
                k <= out.len(),
                k > 0 ==> !pin_before(number@, out@[k - 1]@),
            decreases k,
        {
            if !pin_comes_before(number.as_str(), out[k - 1].as_str()) {
                break;
            }
            k -= 1;
        }
        proof {
            let all = strings(out@);
            assert forall|j: int| k <= j < all.len() implies pin_before(
                number@,
                #[trigger] all[j],
            ) by {
                assert(pin_before(number@, out@[j]@));
            }
            if k > 0 {
                assert(all[k - 1] == out@[k - 1]@);
            }
            lemma_insert_pin_at(all, number@, k as int);
            assert(strings(out@.insert(k as int, number)) =~= all.insert(k as int, number@));
        }
        out.insert(k, number);
        i += 1;
    }
    proof {
        assert(keys(table.entries@).take(table.entries@.len() as int) =~= keys(table.entries@));
    }
    out
}

/// The identifier that an instance gives the pin of each name. Where two pins
/// share a name, the later one counts.
pub open spec fn uuid_by_name(
    names: Map<Seq<char>, Seq<char>>,
    pins: Seq<(Seq<char>, Seq<char>)>,
) -> Map<Seq<char>, Seq<char>>
    decreases pins.len(),
{
    if pins.len() == 0 {
        Map::empty()
    } else {
        let known = uuid_by_name(names, pins.drop_last());
        if names.contains_key(pins.last().0) {
            known.insert(names[pins.last().0], pins.last().1)
        } else {
            known
        }
    }
}

/// The names, among `old`, that are not among `new`.
pub open spec fn unmatched(old: Seq<Seq<char>>, new: Seq<Seq<char>>) -> Seq<Seq<char>>
    decreases old.len(),
{
    if old.len() == 0 {
        Seq::empty()
    } else if new.contains(old.last()) {
        unmatched(old.drop_last(), new)
    } else {
        unmatched(old.drop_last(), new).push(old.last())
    }
}

/// The pins of a symbol with the pins `new` that takes the place of one with the
/// pins `old`, of which the instance lists `pins`.
///
/// The new pins come in the order of their numbers. A pin keeps the identifier
/// that the instance gave the old pin of the same name; the pin in place `i` gets
/// `fresh[i]` if there is none.
pub open spec fn remapped(
    old: Seq<(Seq<char>, Seq<char>)>,
    new: Seq<(Seq<char>, Seq<char>)>,
    pins: Seq<(Seq<char>, Seq<char>)>,
    fresh: Seq<Seq<char>>,
) -> Seq<(Seq<char>, Seq<char>)> {
    let order = pin_order(firsts(new));
    let known = uuid_by_name(list_map(old), pins);
    Seq::new(
        order.len(),
        |i: int|
            {
                let name = list_map(new)[order[i]];
                (
                    order[i],
                    if known.contains_key(name) {
                        known[name]
                    } else {
                        fresh[i]
                    },
                )
            },
    )
}

/// The first parts of a list of pairs.
pub open spec fn firsts(list: Seq<(Seq<char>, Seq<char>)>) -> Seq<Seq<char>> {
    list.map_values(|p: (Seq<char>, Seq<char>)| p.0)
}

/// The second parts of a list of pairs.
pub open spec fn seconds(list: Seq<(Seq<char>, Seq<char>)>) -> Seq<Seq<char>> {
    list.map_values(|p: (Seq<char>, Seq<char>)| p.1)
}

fn has_value(table: &TextMap<String>, name: &str) -> (yes: bool)
    ensures
        yes == values(table.entries@).contains(name@),
{
    let mut i: usize = 0;
    while i < table.entries.len()
        invariant
            i <= table.entries.len(),
            forall|j: int| 0 <= j < i ==> (#[trigger] table.entries@[j]).1@ != name@,
        decreases table.entries.len() - i,
    {
        if crate::text::same_str(table.entries[i].1.as_str(), name) {
            proof {
                assert(values(table.entries@)[i as int] == name@);
            }
            return true;
        }
        i += 1;
    }
    proof {
        assert forall|j: int| 0 <= j < values(table.entries@).len() implies values(
            table.entries@,
        )[j] != name@ by {
            assert(table.entries@[j].1@ != name@);
        }
    }
    false
}

/// The pins of a symbol that takes the place of another, and the names of the old
/// pins that it lacks.
///
/// The new pins come in the order of their numbers. A pin keeps the identifier
/// that the instance gave the old pin of the same name; the pin in place `i` gets
/// `fresh[i]` if there is none.
pub fn remap_pin_uuids(
    old_pins_by_num: &TextMap<String>,
    new_pins_by_num: &TextMap<String>,
    old_instance_pins: &Vec<(String, String)>,
    fresh: &Vec<String>,
) -> (out: (Vec<(String, String)>, Vec<String>))
    requires
        old_pins_by_num.well_formed(),
        new_pins_by_num.well_formed(),
        new_pins_by_num.entries@.len() <= fresh@.len(),
    ensures
        text_pairs(out.0@) == remapped(
            text_pairs(old_pins_by_num.entries@),
            text_pairs(new_pins_by_num.entries@),
            text_pairs(old_instance_pins@),
            strings(fresh@),
        ),
        strings(out.1@) == unmatched(
            seconds(text_pairs(old_pins_by_num.entries@)),
            seconds(text_pairs(new_pins_by_num.entries@)),
        ),
{
    let ghost names = text_map(old_pins_by_num@);
    let mut known: TextMap<String> = TextMap::new();
    let mut i: usize = 0;
    proof {
        assert(text_map(known@) =~= Map::empty());
        assert(text_pairs(old_instance_pins@).take(0).len() == 0);
    }
    while i < old_instance_pins.len()
        invariant
            i <= old_instance_pins.len(),
            old_pins_by_num.well_formed(),
            known.well_formed(),
            names == text_map(old_pins_by_num@),
            text_map(known@) == uuid_by_name(
                names,
                text_pairs(old_instance_pins@).take(i as int),
            ),
        decreases old_instance_pins.len() - i,
    {
        proof {
            let next = text_pairs(old_instance_pins@).take(i + 1);
            assert(next.drop_last() =~= text_pairs(old_instance_pins@).take(i as int));
            assert(next.last() == (old_instance_pins@[i as int].0@, old_instance_pins@[i as int].1@));
        }
        match old_pins_by_num.get(old_instance_pins[i].0.as_str()) {
            Some(name) => {
                let ghost before_insert = known@;
                let uuid: String = old_instance_pins[i].1.clone();
                known.insert(name.clone(), uuid);
                proof {
                    assert(text_map(known@) =~= text_map(before_insert).insert(name@, uuid@));
                }
            },
            None => {},
        }
        i += 1;
    }
    proof {
        assert(text_pairs(old_instance_pins@).take(old_instance_pins@.len() as int)
            =~= text_pairs(old_instance_pins@));
    }
    let order = ordered_numbers(new_pins_by_num);
    let mut pins: Vec<(String, String)> = Vec::new();
    let ghost new_names = text_map(new_pins_by_num@);
    proof {
        lemma_pin_order_known(new_pins_by_num);
        assert forall|j: int| 0 <= j < order@.len() implies new_pins_by_num@.contains_key(
            #[trigger] order@[j]@,
        ) by {
            assert(strings(order@)[j] == order@[j]@);
        }
    }
    let mut k: usize = 0;
    while k < order.len()
        invariant
            k <= order.len(),
            new_pins_by_num.well_formed(),
            known.well_formed(),
            new_names == text_map(new_pins_by_num@),
            order@.len() <= fresh@.len(),
            strings(order@) == pin_order(keys(new_pins_by_num.entries@)),
            forall|j: int|
                0 <= j < order@.len() ==> new_pins_by_num@.contains_key(#[trigger] order@[j]@),
            pins@.len() == k,
            forall|j: int|
                0 <= j < k ==> {
                    &&& (#[trigger] pins@[j]).0@ == order@[j]@
                    &&& pins@[j].1@ == (if text_map(known@).contains_key(new_names[order@[j]@]) {
                        text_map(known@)[new_names[order@[j]@]]
                    } else {
                        fresh@[j]@
                    })
                },
        decreases order.len() - k,
    {
        let number: String = order[k].clone();
        match new_pins_by_num.get(number.as_str()) {
            Some(name) => {
                let uuid: String = match known.get(name.as_str()) {
                    Some(u) => u.clone(),
                    None => fresh[k].clone(),
                };
                pins.push((number, uuid));
            },
            None => {
                proof {
                    assert(new_pins_by_num@.contains_key(order@[k as int]@));
                }
            },
        }
        k += 1;
    }
    let mut lost: Vec<String> = Vec::new();
    let mut m: usize = 0;
    let ghost old_values = values(old_pins_by_num.entries@);
    proof {
        assert(old_values.take(0).len() == 0);
        assert(strings(lost@) =~= Seq::<Seq<char>>::empty());
    }
    while m < old_pins_by_num.entries.len()
        invariant
            m <= old_pins_by_num.entries.len(),
            old_values == values(old_pins_by_num.entries@),
            strings(lost@) == unmatched(
                old_values.take(m as int),
                values(new_pins_by_num.entries@),
            ),
        decreases old_pins_by_num.entries.len() - m,
    {
        let name: String = old_pins_by_num.entries[m].1.clone();
        proof {
            assert(old_values.take(m + 1).drop_last() =~= old_values.take(m as int));
            assert(old_values.take(m + 1).last() == name@);
        }
        if !has_value(new_pins_by_num, name.as_str()) {
            let ghost done = lost@;
            lost.push(name);
            proof {
                assert(strings(lost@) =~= strings(done).push(name@));
            }
        }
        m += 1;
    }
    proof {
        assert(old_values.take(old_values.len() as int) =~= old_values);
        lemma_list_map(old_pins_by_num);
        lemma_list_map(new_pins_by_num);
        let new_pairs = text_pairs(new_pins_by_num.entries@);
        assert(firsts(new_pairs) =~= keys(new_pins_by_num.entries@));
        assert(seconds(new_pairs) =~= values(new_pins_by_num.entries@));
        assert(seconds(text_pairs(old_pins_by_num.entries@)) =~= values(old_pins_by_num.entries@));
        let want = remapped(
            text_pairs(old_pins_by_num.entries@),
            new_pairs,
            text_pairs(old_instance_pins@),
            strings(fresh@),
        );
        assert forall|j: int| 0 <= j < order@.len() implies #[trigger] text_pairs(pins@)[j]
            == want[j] by {
            assert(strings(order@)[j] == order@[j]@);
            assert(strings(fresh@)[j] == fresh@[j]@);
            assert(pins@[j].0@ == order@[j]@);
        }
        assert(text_pairs(pins@) =~= want);
    }
    (pins, lost)
}

proof fn lemma_insert_pin_members(list: Seq<Seq<char>>, number: Seq<char>)
    ensures
        insert_pin(list, number).len() == list.len() + 1,
        forall|i: int|
            0 <= i < insert_pin(list, number).len() ==> #[trigger] insert_pin(list, number)[i]
                == number || list.contains(insert_pin(list, number)[i]),
    decreases list.len(),
{
    let out = insert_pin(list, number);
    if list.len() == 0 || !pin_before(number, list.last()) {
        assert forall|i: int| 0 <= i < out.len() implies #[trigger] out[i] == number
            || list.contains(out[i]) by {
            if i < list.len() {
                assert(out[i] == list[i]);
            }
        }
    } else {
        let front = list.drop_last();
        lemma_insert_pin_members(front, number);
        let mid = insert_pin(front, number);
        assert forall|i: int| 0 <= i < out.len() implies #[trigger] out[i] == number
            || list.contains(out[i]) by {
            if i < mid.len() {
                assert(out[i] == mid[i]);
                if mid[i] != number {
                    let j = choose|j: int| 0 <= j < front.len() && front[j] == mid[i];
                    assert(list[j] == mid[i]);
                }
            } else {
                assert(out[i] == list[list.len() - 1]);
            }
        }
    }
}

proof fn lemma_pin_order_members(list: Seq<Seq<char>>)
    ensures
        pin_order(list).len() == list.len(),
        forall|i: int| 0 <= i < pin_order(list).len() ==> list.contains(#[trigger] pin_order(list)[i]),
    decreases list.len(),
{
    if list.len() > 0 {
        let front = list.drop_last();
        lemma_pin_order_members(front);
        let mid = pin_order(front);
        lemma_insert_pin_members(mid, list.last());
        let out = pin_order(list);
        assert forall|i: int| 0 <= i < out.len() implies list.contains(#[trigger] out[i]) by {
            if out[i] == list.last() {
                assert(list[list.len() - 1] == out[i]);
            } else {
                assert(mid.contains(out[i]));
                let k = choose|k: int| 0 <= k < mid.len() && mid[k] == out[i];
                assert(front.contains(mid[k]));
                let j = choose|j: int| 0 <= j < front.len() && front[j] == mid[k];
                assert(list[j] == out[i]);
            }
        }
    }
}

proof fn lemma_pin_order_known(table: &TextMap<String>)
    requires
        table.well_formed(),
    ensures
        pin_order(keys(table.entries@)).len() == table.entries@.len(),
        forall|i: int|
            0 <= i < pin_order(keys(table.entries@)).len() ==> table@.contains_key(
                #[trigger] pin_order(keys(table.entries@))[i],
            ),
{
    let all = keys(table.entries@);
    lemma_pin_order_members(all);
    assert forall|i: int| 0 <= i < pin_order(all).len() implies table@.contains_key(
        #[trigger] pin_order(all)[i],
    ) by {
        let j = choose|j: int| 0 <= j < all.len() && all[j] == pin_order(all)[i];
        assert(table.entries@[j].0@ == all[j]);
        crate::tables::lemma_lookup_found(table.entries@, j);
    }
}

} // verus!
