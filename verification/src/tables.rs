//! Tables keyed by a text.

use crate::text::same_str;
use vstd::prelude::*;

verus! {

/// A table that holds at most one value for each text, in the order in which the
/// texts first came.
pub struct TextMap<V> {
    pub entries: Vec<(String, V)>,
}

/// What the entries hold for `key`.
pub open spec fn lookup<V>(entries: Seq<(String, V)>, key: Seq<char>) -> Option<V>
    decreases entries.len(),
{
    if entries.len() == 0 {
        None
    } else if entries.last().0@ == key {
        Some(entries.last().1)
    } else {
        lookup(entries.drop_last(), key)
    }
}

/// Whether no text stands twice.
pub open spec fn distinct<V>(entries: Seq<(String, V)>) -> bool {
    forall|i: int, j: int|
        0 <= i < j < entries.len() ==> (#[trigger] entries[i]).0@ != (#[trigger] entries[j]).0@
}

/// Where the list holds something for `key`.
pub open spec fn place<V>(list: Seq<(Seq<char>, V)>, key: Seq<char>) -> Option<int>
    decreases list.len(),
{
    if list.len() == 0 {
        None
    } else if list.last().0 == key {
        Some(list.len() - 1)
    } else {
        place(list.drop_last(), key)
    }
}

/// The list with `value` for `key`: in the place of what it held before, else at
/// the end.
pub open spec fn put<V>(list: Seq<(Seq<char>, V)>, key: Seq<char>, value: V) -> Seq<
    (Seq<char>, V),
> {
    match place(list, key) {
        Some(i) => list.update(i, (key, value)),
        None => list.push((key, value)),
    }
}

/// The entries of a table, as texts and values.
pub open spec fn listed<V>(entries: Seq<(String, V)>) -> Seq<(Seq<char>, V)> {
    entries.map_values(|e: (String, V)| (e.0@, e.1))
}

/// A place stands in the list and holds the key.
pub proof fn lemma_place_bounds<V>(list: Seq<(Seq<char>, V)>, key: Seq<char>)
    ensures
        place(list, key) matches Some(i) ==> 0 <= i < list.len() && list[i].0 == key,
    decreases list.len(),
{
    if list.len() > 0 && list.last().0 != key {
        lemma_place_bounds(list.drop_last(), key);
    }
}

proof fn lemma_place<V>(entries: Seq<(String, V)>, key: Seq<char>)
    requires
        distinct(entries),
    ensures
        place(listed(entries), key) is None <==> lookup(entries, key) is None,
        forall|i: int|
            0 <= i < entries.len() && (#[trigger] entries[i]).0@ == key ==> place(
                listed(entries),
                key,
            ) == Some(i),
    decreases entries.len(),
{
    if entries.len() > 0 {
        let front = entries.drop_last();
        assert forall|a: int, b: int| 0 <= a < b < front.len() implies (#[trigger] front[a]).0@ != (
        #[trigger] front[b]).0@ by {
            assert(front[a] == entries[a]);
            assert(front[b] == entries[b]);
        }
        lemma_place(front, key);
        assert(listed(entries).drop_last() =~= listed(front));
        assert(listed(entries).last().0 == entries.last().0@);
        assert forall|i: int| 0 <= i < entries.len() && (#[trigger] entries[i]).0@
            == key implies place(listed(entries), key) == Some(i) by {
            if i < entries.len() - 1 {
                assert(entries[i].0@ != entries[entries.len() - 1].0@);
                assert(front[i] == entries[i]);
            }
        }
    }
}

impl<V> View for TextMap<V> {
    type V = Map<Seq<char>, V>;

    open spec fn view(&self) -> Map<Seq<char>, V> {
        Map::new(
            |k: Seq<char>| lookup(self.entries@, k) is Some,
            |k: Seq<char>| lookup(self.entries@, k)->0,
        )
    }
}

pub proof fn lemma_lookup_found<V>(entries: Seq<(String, V)>, i: int)
    requires
        distinct(entries),
        0 <= i < entries.len(),
    ensures
        lookup(entries, entries[i].0@) == Some(entries[i].1),
    decreases entries.len(),
{
    if i < entries.len() - 1 {
        assert(entries[i].0@ != entries[entries.len() - 1].0@);
        let front = entries.drop_last();
        assert forall|a: int, b: int| 0 <= a < b < front.len() implies (#[trigger] front[a]).0@ != (
        #[trigger] front[b]).0@ by {
            assert(front[a] == entries[a]);
            assert(front[b] == entries[b]);
        }
        lemma_lookup_found(front, i);
    }
}

pub proof fn lemma_lookup_missing<V>(entries: Seq<(String, V)>, key: Seq<char>)
    ensures
        lookup(entries, key) is None <==> forall|i: int|
            0 <= i < entries.len() ==> (#[trigger] entries[i]).0@ != key,
    decreases entries.len(),
{
    if entries.len() > 0 {
        let front = entries.drop_last();
        lemma_lookup_missing(front, key);
        if lookup(entries, key) is None {
            assert forall|i: int| 0 <= i < entries.len() implies (#[trigger] entries[i]).0@
                != key by {
                if i < front.len() {
                    assert(front[i] == entries[i]);
                }
            }
        } else if forall|i: int| 0 <= i < entries.len() ==> (#[trigger] entries[i]).0@ != key {
            assert(entries[entries.len() - 1].0@ != key);
            assert forall|i: int| 0 <= i < front.len() implies (#[trigger] front[i]).0@ != key by {
                assert(front[i] == entries[i]);
            }
        }
    }
}

impl<V> TextMap<V> {
    /// Whether no text stands twice in the table.
    pub open spec fn well_formed(&self) -> bool {
        distinct(self.entries@)
    }

    /// The table that holds nothing.
    pub fn new() -> (table: Self)
        ensures
            table.well_formed(),
            table@ == Map::<Seq<char>, V>::empty(),
            table.entries@.len() == 0,
    {
        let table = TextMap { entries: Vec::new() };
        proof {
            assert(table@ =~= Map::<Seq<char>, V>::empty());
        }
        table
    }

    /// Where the entry for `key` stands.
    pub fn position(&self, key: &str) -> (found: Option<usize>)
        requires
            self.well_formed(),
        ensures
            found is Some == self@.contains_key(key@),
            found matches Some(i) ==> {
                &&& i < self.entries@.len()
                &&& self.entries@[i as int].0@ == key@
                &&& self@[key@] == self.entries@[i as int].1
            },
    {
        let mut i: usize = 0;
        while i < self.entries.len()
            invariant
                self.well_formed(),
                i <= self.entries.len(),
                forall|j: int| 0 <= j < i ==> (#[trigger] self.entries@[j]).0@ != key@,
            decreases self.entries.len() - i,
        {
            if same_str(self.entries[i].0.as_str(), key) {
                proof {
                    lemma_lookup_found(self.entries@, i as int);
                }
                return Some(i);
            }
            i += 1;
        }
        proof {
            lemma_lookup_missing(self.entries@, key@);
        }
        None
    }

    /// Whether the table holds something for `key`.
    pub fn contains_key(&self, key: &str) -> (yes: bool)
        requires
            self.well_formed(),
        ensures
            yes == self@.contains_key(key@),
    {
        self.position(key).is_some()
    }

    /// What the table holds for `key`.
    pub fn get(&self, key: &str) -> (value: Option<&V>)
        requires
            self.well_formed(),
        ensures
            value is Some == self@.contains_key(key@),
            value matches Some(v) ==> self@[key@] == *v,
    {
        match self.position(key) {
            Some(i) => Some(&self.entries[i].1),
            None => None,
        }
    }

    /// How many texts the table holds something for.
    pub fn len(&self) -> (n: usize)
        ensures
            n == self.entries@.len(),
    {
        self.entries.len()
    }

    /// Holds `value` for `key`, in the place of what was held before.
    pub fn insert(&mut self, key: String, value: V)
        requires
            old(self).well_formed(),
        ensures
            final(self).well_formed(),
            final(self)@ == old(self)@.insert(key@, value),
            listed(final(self).entries@) == put(listed(old(self).entries@), key@, value),
    {
        let found = self.position(key.as_str());
        let ghost before = self.entries@;
        proof {
            lemma_place(before, key@);
        }
        match found {
            Some(i) => {
                self.entries[i] = (key, value);
                proof {
                    let after = self.entries@;
                    assert(after =~= before.update(i as int, (key, value)));
                    assert forall|a: int, b: int| 0 <= a < b < after.len() implies (
                    #[trigger] after[a]).0@ != (#[trigger] after[b]).0@ by {
                        assert(before[a].0@ != before[b].0@);
                    }
                    lemma_lookup_found(after, i as int);
                    assert forall|k: Seq<char>| k != key@ implies lookup(after, k) == #[trigger]
                    lookup(before, k) by {
                        lemma_lookup_missing(after, k);
                        lemma_lookup_missing(before, k);
                        if lookup(before, k) is Some {
                            let j = choose|j: int|
                                0 <= j < before.len() && (#[trigger] before[j]).0@ == k;
                            assert(after[j] == before[j]);
                            lemma_lookup_found(before, j);
                            lemma_lookup_found(after, j);
                        } else {
                            assert forall|j: int| 0 <= j < after.len() implies (
                            #[trigger] after[j]).0@ != k by {
                                assert(before[j].0@ != k);
                            }
                        }
                    }
                    assert(self@ =~= old(self)@.insert(key@, value));
                    assert(before[i as int].0@ == key@);
                    assert(listed(after) =~= listed(before).update(i as int, (key@, value)));
                }
            },
            None => {
                self.entries.push((key, value));
                proof {
                    let after = self.entries@;
                    lemma_lookup_missing(before, key@);
                    assert(after.drop_last() =~= before);
                    assert forall|a: int, b: int| 0 <= a < b < after.len() implies (
                    #[trigger] after[a]).0@ != (#[trigger] after[b]).0@ by {
                        assert(after[a] == before[a]);
                        if b < before.len() {
                            assert(after[b] == before[b]);
                        }
                    }
                    assert(self@ =~= old(self)@.insert(key@, value));
                    assert(listed(after) =~= listed(before).push((key@, value)));
                }
            },
        }
    }
}

/// A list with each value changed.
pub open spec fn changed<V, W>(list: Seq<(Seq<char>, V)>, f: spec_fn(V) -> W) -> Seq<
    (Seq<char>, W),
> {
    list.map_values(|e: (Seq<char>, V)| (e.0, f(e.1)))
}

pub proof fn lemma_place_changed<V, W>(
    list: Seq<(Seq<char>, V)>,
    f: spec_fn(V) -> W,
    key: Seq<char>,
)
    ensures
        place(changed(list, f), key) == place(list, key),
    decreases list.len(),
{
    if list.len() > 0 {
        lemma_place_changed(list.drop_last(), f, key);
        assert(changed(list, f).drop_last() =~= changed(list.drop_last(), f));
    }
}

/// Putting a value in and changing the values can be done in either order.
pub proof fn lemma_put_changed<V, W>(
    list: Seq<(Seq<char>, V)>,
    f: spec_fn(V) -> W,
    key: Seq<char>,
    value: V,
)
    ensures
        changed(put(list, key, value), f) == put(changed(list, f), key, f(value)),
{
    lemma_place_changed(list, f, key);
    lemma_place_bounds(list, key);
    assert(changed(put(list, key, value), f) =~= put(changed(list, f), key, f(value)));
}

/// What a table holds is what the list of its entries holds.
pub proof fn lemma_table_list<V>(table: &TextMap<V>, key: Seq<char>)
    ensures
        table@.contains_key(key) == place(listed(table.entries@), key) is Some,
        place(listed(table.entries@), key) matches Some(i) ==> {
            &&& 0 <= i < table.entries@.len()
            &&& table@[key] == table.entries@[i].1
        },
{
    lemma_lookup_place(table.entries@, key);
}

proof fn lemma_lookup_place<V>(entries: Seq<(String, V)>, key: Seq<char>)
    ensures
        lookup(entries, key) is Some == place(listed(entries), key) is Some,
        place(listed(entries), key) matches Some(i) ==> {
            &&& 0 <= i < entries.len()
            &&& lookup(entries, key) == Some(entries[i].1)
        },
    decreases entries.len(),
{
    if entries.len() > 0 {
        lemma_lookup_place(entries.drop_last(), key);
        assert(listed(entries).drop_last() =~= listed(entries.drop_last()));
    }
}

} // verus!
