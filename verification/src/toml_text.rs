//! Settings as they stand in TOML texts.

use crate::decimal::{nanometres, parse_nanometres};
use crate::strings::strings;
use crate::tables::{
    changed, lemma_place_bounds, lemma_place_changed, lemma_put_changed, lemma_table_list, listed,
    place, put, TextMap,
};
use crate::text::to_chars;
use toml::{from_str, Table, Value};
use vstd::prelude::*;

verus! {

/// One item of a list.
#[derive(Debug)]
pub enum TomlItem {
    Text(String),
    /// A table, as a TOML text of its own.
    Table(String),
    /// Anything else, as it is written.
    Other(String),
}

/// The value of a key.
#[derive(Debug)]
pub enum TomlValue {
    Text(String),
    Whole(i64),
    /// A number that is not whole, in decimal digits.
    Real(String),
    Flag(bool),
    List(Vec<TomlItem>),
    /// A date or a table, as it is written.
    Other(String),
}

/// An item in texts.
pub enum ItemModel {
    Text(Seq<char>),
    Table(Seq<char>),
    Other(Seq<char>),
}

/// A value in texts and numbers.
pub enum ValueModel {
    Text(Seq<char>),
    Whole(int),
    Real(Seq<char>),
    Flag(bool),
    List(Seq<ItemModel>),
    Other(Seq<char>),
}

pub open spec fn item_model(i: TomlItem) -> ItemModel {
    match i {
        TomlItem::Text(t) => ItemModel::Text(t@),
        TomlItem::Table(t) => ItemModel::Table(t@),
        TomlItem::Other(t) => ItemModel::Other(t@),
    }
}

pub open spec fn item_models(list: Seq<TomlItem>) -> Seq<ItemModel> {
    list.map_values(|i: TomlItem| item_model(i))
}

pub open spec fn value_model(v: TomlValue) -> ValueModel {
    match v {
        TomlValue::Text(t) => ValueModel::Text(t@),
        TomlValue::Whole(n) => ValueModel::Whole(n as int),
        TomlValue::Real(t) => ValueModel::Real(t@),
        TomlValue::Flag(b) => ValueModel::Flag(b),
        TomlValue::List(l) => ValueModel::List(item_models(l@)),
        TomlValue::Other(t) => ValueModel::Other(t@),
    }
}

/// The keys and values of a table, in texts and numbers.
pub open spec fn settings(entries: Seq<(String, TomlValue)>) -> Seq<(Seq<char>, ValueModel)> {
    changed(listed(entries), |v: TomlValue| value_model(v))
}

/// The keys and values of a TOML text, or none if it is not TOML.
pub uninterp spec fn toml_table(text: Seq<char>) -> Option<Seq<(Seq<char>, ValueModel)>>;

pub open spec fn settings_of(found: Option<Vec<(String, TomlValue)>>) -> Option<
    Seq<(Seq<char>, ValueModel)>,
> {
    match found {
        Some(entries) => Some(settings(entries@)),
        None => None,
    }
}

/// `toml::from_str` for `toml::Table`: the keys and values of a TOML text, or none if
/// it is not TOML. The result is named; values that hold others come as texts.
#[verifier::external_body]
pub(crate) fn read_table(text: &str) -> (found: Option<Vec<(String, TomlValue)>>)
    ensures
        settings_of(found) == toml_table(text@),
{
    from_str::<Table>(text).ok().map(|t| t.into_iter().map(|(key, value)| (key, match value {
        Value::String(t) => TomlValue::Text(t),
        Value::Integer(n) => TomlValue::Whole(n),
        Value::Float(x) => TomlValue::Real(x.to_string()),
        Value::Boolean(b) => TomlValue::Flag(b),
        Value::Array(a) => TomlValue::List(a.into_iter().map(|item| match item {
            Value::String(t) => TomlItem::Text(t),
            Value::Table(t) => TomlItem::Table(t.to_string()),
            other => TomlItem::Other(other.to_string()),
        }).collect()),
        other => TomlValue::Other(other.to_string()),
    })).collect())
}

/// The value of a key.
pub open spec fn value_at(list: Seq<(Seq<char>, ValueModel)>, key: Seq<char>) -> Option<
    ValueModel,
> {
    match place(list, key) {
        Some(i) => Some(list[i].1),
        None => None,
    }
}

/// The table with further keys and values laid over it: a key that both have takes
/// the value of the further one.
pub open spec fn overlaid(
    list: Seq<(Seq<char>, ValueModel)>,
    over: Seq<(Seq<char>, ValueModel)>,
) -> Seq<(Seq<char>, ValueModel)>
    decreases over.len(),
{
    if over.len() == 0 {
        list
    } else {
        put(overlaid(list, over.drop_last()), over.last().0, over.last().1)
    }
}

proof fn lemma_put_value(
    list: Seq<(Seq<char>, ValueModel)>,
    key: Seq<char>,
    value: ValueModel,
    other: Seq<char>,
)
    ensures
        value_at(put(list, key, value), other) == (if other == key {
            Some(value)
        } else {
            value_at(list, other)
        }),
    decreases list.len(),
{
    let out = put(list, key, value);
    lemma_place_bounds(list, key);
    lemma_place_bounds(list, other);
    lemma_place_bounds(out, other);
    lemma_last_place(list, other);
    lemma_last_place(out, other);
    lemma_last_place(list, key);
    lemma_last_place(out, key);
    match place(list, key) {
        None => {
            assert(out[list.len() as int] == (key, value));
            assert forall|i: int| 0 <= i < list.len() implies out[i] == list[i] by {}
            if other == key {
                assert(out[list.len() as int].0 == other);
            } else if let Some(p) = place(list, other) {
                assert(out[p].0 == other);
            }
        },
        Some(k) => {
            assert(out[k] == (key, value));
            if other == key {
                assert(out[k].0 == other);
            } else if let Some(p) = place(list, other) {
                assert(out[p].0 == other);
            } else if let Some(q) = place(out, other) {
                assert(list[q].0 == other);
            }
        },
    }
}

/// A key's place is the last at which it stands.
proof fn lemma_last_place(list: Seq<(Seq<char>, ValueModel)>, key: Seq<char>)
    ensures
        match place(list, key) {
            Some(i) => forall|j: int| i < j < list.len() ==> (#[trigger] list[j]).0 != key,
            None => forall|j: int| 0 <= j < list.len() ==> (#[trigger] list[j]).0 != key,
        },
    decreases list.len(),
{
    if list.len() > 0 && list.last().0 != key {
        let front = list.drop_last();
        lemma_last_place(front, key);
        lemma_place_bounds(front, key);
        assert forall|j: int|
            0 <= j < list.len() && (place(list, key) matches Some(i) ==> i < j) implies (
        #[trigger] list[j]).0 != key by {
            if j < front.len() {
                assert(front[j] == list[j]);
            }
        }
    }
}

/// What is laid over wins; what it does not mention stays.
pub proof fn lemma_overlaid(
    list: Seq<(Seq<char>, ValueModel)>,
    over: Seq<(Seq<char>, ValueModel)>,
    key: Seq<char>,
)
    ensures
        value_at(overlaid(list, over), key) == (match value_at(over, key) {
            Some(v) => Some(v),
            None => value_at(list, key),
        }),
    decreases over.len(),
{
    if over.len() > 0 {
        let front = over.drop_last();
        lemma_overlaid(list, front, key);
        lemma_put_value(overlaid(list, front), over.last().0, over.last().1, key);
        lemma_last_place(over, key);
        lemma_last_place(front, key);
        lemma_place_bounds(over, key);
        lemma_place_bounds(front, key);
        if over.last().0 != key {
            assert(place(over, key) == place(front, key));
            if let Some(i) = place(front, key) {
                assert(over[i] == front[i]);
            }
        } else {
            assert(over[over.len() - 1].0 == key);
        }
    } else {
        assert(place(over, key) is None);
    }
}

/// Lays keys and values over a table.
pub fn lay_over(table: &mut TextMap<TomlValue>, over: Vec<(String, TomlValue)>)
    requires
        old(table).well_formed(),
    ensures
        final(table).well_formed(),
        settings(final(table).entries@) == overlaid(settings(old(table).entries@), settings(over@)),
{
    let ghost all = settings(over@);
    let ghost start = settings(table.entries@);
    let mut rest: Vec<(String, TomlValue)> = over;
    let mut forward: Vec<(String, TomlValue)> = Vec::new();
    let n: usize = rest.len();
    while rest.len() > 0
        invariant
            rest@.len() + forward@.len() == over@.len(),
            rest@ == over@.take(rest@.len() as int),
            forall|i: int|
                0 <= i < forward@.len() ==> #[trigger] forward@[i] == over@[over@.len() - 1 - i],
        decreases rest@.len(),
    {
        let ghost before = rest@;
        match rest.pop() {
            Some(entry) => {
                proof {
                    assert(entry == over@[before.len() - 1]);
                    assert(rest@ =~= over@.take(rest@.len() as int));
                }
                forward.push(entry);
            },
            None => {},
        }
    }
    let ghost reversed = forward@;
    proof {
        assert(all.take(0).len() == 0);
        assert(overlaid(start, all.take(0)) == start);
    }
    while forward.len() > 0
        invariant
            table.well_formed(),
            n == over@.len(),
            reversed.len() == n,
            all == settings(over@),
            forward@ == reversed.take(forward@.len() as int),
            forward@.len() <= n,
            forall|i: int|
                0 <= i < reversed.len() ==> #[trigger] reversed[i] == over@[over@.len() - 1 - i],
            settings(table.entries@) == overlaid(start, all.take(n - forward@.len())),
        decreases forward@.len(),
    {
        let ghost before = forward@;
        let ghost at = n - before.len();
        match forward.pop() {
            Some((key, value)) => {
                proof {
                    assert((key, value) == reversed[before.len() - 1]);
                    assert((key, value) == over@[at]);
                    assert(forward@ =~= reversed.take(forward@.len() as int));
                    assert(all.take(at + 1).drop_last() =~= all.take(at));
                    assert(all.take(at + 1).last() == (key@, value_model(value)));
                }
                let ghost known = listed(table.entries@);
                let ghost k = key@;
                table.insert(key, value);
                proof {
                    lemma_put_changed(known, |v: TomlValue| value_model(v), k, value);
                }
            },
            None => {},
        }
    }
    proof {
        assert(all.take(n as int) =~= all);
    }
}

proof fn lemma_value_at(table: &TextMap<TomlValue>, key: Seq<char>)
    ensures
        value_at(settings(table.entries@), key) == (if table@.contains_key(key) {
            Some(value_model(table@[key]))
        } else {
            None
        }),
{
    lemma_table_list(table, key);
    lemma_place_changed(listed(table.entries@), |v: TomlValue| value_model(v), key);
}

pub open spec fn value_of(found: Option<&TomlValue>) -> Option<ValueModel> {
    match found {
        Some(v) => Some(value_model(*v)),
        None => None,
    }
}

/// The value of a key.
pub fn get_value<'a>(table: &'a TextMap<TomlValue>, key: &str) -> (found: Option<&'a TomlValue>)
    requires
        table.well_formed(),
    ensures
        value_of(found) == value_at(settings(table.entries@), key@),
{
    proof {
        lemma_value_at(table, key@);
    }
    table.get(key)
}

/// A whole number in millionths, as far as 64 bits go.
pub open spec fn millionths(n: int) -> int {
    if n > 9_223_372_036_854 {
        i64::MAX as int
    } else if n < -9_223_372_036_854 {
        i64::MIN as int
    } else {
        n * 1_000_000
    }
}

/// The number that a key has, in millionths, or the usual one if it is not there.
/// None if it has something else than a number.
pub open spec fn number_at(
    list: Seq<(Seq<char>, ValueModel)>,
    key: Seq<char>,
    usual: int,
) -> Option<int> {
    match value_at(list, key) {
        None => Some(usual),
        Some(ValueModel::Real(t)) => nanometres(t),
        Some(ValueModel::Whole(n)) => Some(millionths(n)),
        Some(_) => None,
    }
}

pub open spec fn as_number(found: Option<i64>) -> Option<int> {
    match found {
        Some(n) => Some(n as int),
        None => None,
    }
}

/// The number that a key has, in millionths, or the usual one.
pub fn read_number(table: &TextMap<TomlValue>, key: &str, usual: i64) -> (found: Option<i64>)
    requires
        table.well_formed(),
    ensures
        as_number(found) == number_at(settings(table.entries@), key@, usual as int),
{
    match get_value(table, key) {
        None => Some(usual),
        Some(TomlValue::Real(t)) => {
            let chars = to_chars(t.as_str());
            parse_nanometres(chars.as_slice())
        },
        Some(TomlValue::Whole(n)) => if *n > 9_223_372_036_854 {
            Some(i64::MAX)
        } else if *n < -9_223_372_036_854 {
            Some(i64::MIN)
        } else {
            Some(*n * 1_000_000)
        },
        Some(_) => None,
    }
}

/// Whether a key is set, or what is usual if it is not there.
pub open spec fn flag_at(
    list: Seq<(Seq<char>, ValueModel)>,
    key: Seq<char>,
    usual: bool,
) -> Option<bool> {
    match value_at(list, key) {
        None => Some(usual),
        Some(ValueModel::Flag(b)) => Some(b),
        Some(_) => None,
    }
}

/// Whether a key is set, or what is usual.
pub fn read_flag(table: &TextMap<TomlValue>, key: &str, usual: bool) -> (found: Option<bool>)
    requires
        table.well_formed(),
    ensures
        found == flag_at(settings(table.entries@), key@, usual),
{
    match get_value(table, key) {
        None => Some(usual),
        Some(TomlValue::Flag(b)) => Some(*b),
        Some(_) => None,
    }
}

/// The count that a key has, or the usual one: a whole number of 32 bits.
pub open spec fn count_at(
    list: Seq<(Seq<char>, ValueModel)>,
    key: Seq<char>,
    usual: u32,
) -> Option<u32> {
    match value_at(list, key) {
        None => Some(usual),
        Some(ValueModel::Whole(n)) => if 0 <= n <= u32::MAX {
            Some(n as u32)
        } else {
            None
        },
        Some(_) => None,
    }
}

/// The count that a key has, or the usual one.
pub fn read_count(table: &TextMap<TomlValue>, key: &str, usual: u32) -> (found: Option<u32>)
    requires
        table.well_formed(),
    ensures
        found == count_at(settings(table.entries@), key@, usual),
{
    match get_value(table, key) {
        None => Some(usual),
        Some(TomlValue::Whole(n)) => if 0 <= *n && *n <= 0xffff_ffff {
            Some(*n as u32)
        } else {
            None
        },
        Some(_) => None,
    }
}

/// The text that a key has, or the usual one.
pub open spec fn text_at(
    list: Seq<(Seq<char>, ValueModel)>,
    key: Seq<char>,
    usual: Seq<char>,
) -> Option<Seq<char>> {
    match value_at(list, key) {
        None => Some(usual),
        Some(ValueModel::Text(t)) => Some(t),
        Some(_) => None,
    }
}

pub open spec fn as_text(found: Option<String>) -> Option<Seq<char>> {
    match found {
        Some(t) => Some(t@),
        None => None,
    }
}

/// The text that a key has, or the usual one.
pub fn read_text(table: &TextMap<TomlValue>, key: &str, usual: &str) -> (found: Option<String>)
    requires
        table.well_formed(),
    ensures
        as_text(found) == text_at(settings(table.entries@), key@, usual@),
{
    match get_value(table, key) {
        None => Some(usual.to_string()),
        Some(TomlValue::Text(t)) => Some(t.clone()),
        Some(_) => None,
    }
}

/// The texts of a list, if all its items are texts.
pub open spec fn all_texts(items: Seq<ItemModel>) -> Option<Seq<Seq<char>>>
    decreases items.len(),
{
    if items.len() == 0 {
        Some(Seq::empty())
    } else {
        match (all_texts(items.drop_last()), items.last()) {
            (Some(known), ItemModel::Text(t)) => Some(known.push(t)),
            _ => None,
        }
    }
}

/// The list of texts that a key has; an empty one if it is not there.
pub open spec fn texts_at(list: Seq<(Seq<char>, ValueModel)>, key: Seq<char>) -> Option<
    Seq<Seq<char>>,
> {
    match value_at(list, key) {
        None => Some(Seq::empty()),
        Some(ValueModel::List(items)) => all_texts(items),
        Some(_) => None,
    }
}

pub open spec fn as_texts(found: Option<Vec<String>>) -> Option<Seq<Seq<char>>> {
    match found {
        Some(t) => Some(strings(t@)),
        None => None,
    }
}

proof fn lemma_not_all_texts(items: Seq<ItemModel>, upto: int)
    requires
        0 <= upto <= items.len(),
        all_texts(items.take(upto)) is None,
    ensures
        all_texts(items) is None,
    decreases items.len() - upto,
{
    if upto == items.len() {
        assert(items.take(upto) =~= items);
    } else {
        assert(items.take(upto + 1).drop_last() =~= items.take(upto));
        lemma_not_all_texts(items, upto + 1);
    }
}

fn read_all_texts(items: &Vec<TomlItem>) -> (found: Option<Vec<String>>)
    ensures
        as_texts(found) == all_texts(item_models(items@)),
{
    let ghost all = item_models(items@);
    let mut out: Vec<String> = Vec::new();
    let mut i: usize = 0;
    proof {
        assert(all.take(0).len() == 0);
        assert(strings(out@) =~= Seq::<Seq<char>>::empty());
    }
    while i < items.len()
        invariant
            i <= items@.len(),
            all == item_models(items@),
            all_texts(all.take(i as int)) == Some(strings(out@)),
        decreases items@.len() - i,
    {
        proof {
            assert(all.take(i + 1).drop_last() =~= all.take(i as int));
            assert(all.take(i + 1).last() == item_model(items@[i as int]));
        }
        match &items[i] {
            TomlItem::Text(t) => {
                let ghost done = out@;
                out.push(t.clone());
                proof {
                    assert(strings(out@) =~= strings(done).push(t@));
                }
            },
            _ => {
                proof {
                    lemma_not_all_texts(all, i + 1);
                }
                return None;
            },
        }
        i += 1;
    }
    proof {
        assert(all.take(all.len() as int) =~= all);
    }
    Some(out)
}

/// The list of texts that a key has; an empty one if it is not there.
pub fn read_texts(table: &TextMap<TomlValue>, key: &str) -> (found: Option<Vec<String>>)
    requires
        table.well_formed(),
    ensures
        as_texts(found) == texts_at(settings(table.entries@), key@),
{
    match get_value(table, key) {
        None => {
            let none: Vec<String> = Vec::new();
            proof {
                assert(strings(none@) =~= Seq::<Seq<char>>::empty());
            }
            Some(none)
        },
        Some(TomlValue::List(items)) => read_all_texts(items),
        Some(_) => None,
    }
}

} // verus!
