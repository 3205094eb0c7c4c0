//! Insertion-ordered tables with constant-time lookup by key.
//!
//! A table is modelled by two sequences of equal length, its keys and its
//! values, where no key occurs twice. The map that a table stands for follows
//! from the two sequences: see [`assoc`].

use crate::index::{
    derived, first_occurrences, lemma_derived_at, lemma_derived_push,
    lemma_first_occurrences_distinct, lemma_first_occurrences_push,
};
use std::collections::HashMap;
use vstd::hash_map::StringHashMap;
use vstd::prelude::*;

verus! {

broadcast use vstd::std_specs::hash::group_hash_axioms;

/// The map that sends `keys[i]` to `values[i]`.
pub open spec fn assoc<K, V>(keys: Seq<K>, values: Seq<V>) -> Map<K, V> {
    Map::new(|k: K| keys.contains(k), |k: K| values[keys.index_of(k)])
}

/// In a sequence without duplicates, an element is found where it stands.
pub proof fn lemma_index_of_unique<K>(keys: Seq<K>, i: int)
    requires
        keys.no_duplicates(),
        0 <= i < keys.len(),
    ensures
        keys.contains(keys[i]),
        keys.index_of(keys[i]) == i,
{
    assert(keys.contains(keys[i]));
    let j = keys.index_of(keys[i]);
    assert(0 <= j < keys.len() && keys[j] == keys[i]);
}

/// `assoc` maps each key to the value at the same position.
pub proof fn lemma_assoc_at<K, V>(keys: Seq<K>, values: Seq<V>, i: int)
    requires
        keys.no_duplicates(),
        0 <= i < keys.len(),
    ensures
        assoc(keys, values).contains_key(keys[i]),
        assoc(keys, values)[keys[i]] == values[i],
{
    lemma_index_of_unique(keys, i);
}

/// Appending a fresh key extends the map by one entry.
pub proof fn lemma_assoc_push<K, V>(keys: Seq<K>, values: Seq<V>, k: K, v: V)
    requires
        keys.no_duplicates(),
        keys.len() == values.len(),
        !keys.contains(k),
    ensures
        keys.push(k).no_duplicates(),
        assoc(keys.push(k), values.push(v)) == assoc(keys, values).insert(k, v),
{
    let keys2 = keys.push(k);
    let values2 = values.push(v);
    assert(keys2.no_duplicates()) by {
        assert forall|i: int, j: int|
            0 <= i < keys2.len() && 0 <= j < keys2.len() && i != j implies keys2[i] != keys2[j] by {
            if i < keys.len() {
                assert(keys.contains(keys[i]));
            }
            if j < keys.len() {
                assert(keys.contains(keys[j]));
            }
        }
    }
    assert forall|x: K| keys2.contains(x) <==> (x == k || keys.contains(x)) by {
        if keys2.contains(x) {
            let i = keys2.index_of(x);
            assert(0 <= i < keys2.len() && keys2[i] == x);
            if i < keys.len() {
                assert(keys[i] == x);
            }
        }
        if x == k {
            assert(keys2[keys.len() as int] == x);
        }
        if keys.contains(x) {
            let i = keys.index_of(x);
            assert(keys2[i] == x);
        }
    }
    assert forall|x: K| keys2.contains(x) implies #[trigger] assoc(keys2, values2)[x] == assoc(
        keys,
        values,
    ).insert(k, v)[x] by {
        let i = keys2.index_of(x);
        assert(0 <= i < keys2.len() && keys2[i] == x);
        if i < keys.len() {
            assert(keys[i] == x);
            lemma_index_of_unique(keys, i);
        }
    }
}

/// Replacing the value at a position replaces the entry of that position's key.
pub proof fn lemma_assoc_update<K, V>(keys: Seq<K>, values: Seq<V>, i: int, v: V)
    requires
        keys.no_duplicates(),
        keys.len() == values.len(),
        0 <= i < keys.len(),
    ensures
        assoc(keys, values.update(i, v)) == assoc(keys, values).insert(keys[i], v),
{
    let values2 = values.update(i, v);
    lemma_index_of_unique(keys, i);
    assert forall|x: K| keys.contains(x) implies #[trigger] assoc(keys, values2)[x] == assoc(
        keys,
        values,
    ).insert(keys[i], v)[x] by {
        let j = keys.index_of(x);
        assert(0 <= j < keys.len() && keys[j] == x);
    }
}

/// A table without duplicate keys has as many entries as keys.
pub proof fn lemma_assoc_len<K, V>(keys: Seq<K>, values: Seq<V>)
    requires
        keys.no_duplicates(),
    ensures
        assoc(keys, values).dom().finite(),
        assoc(keys, values).dom().len() == keys.len(),
{
    keys.unique_seq_to_set();
    vstd::seq_lib::seq_to_set_is_finite(keys);
}

/// The keys of a list of entries.
pub open spec fn entry_keys<T>(entries: Seq<(String, T)>) -> Seq<Seq<char>> {
    entries.map_values(|e: (String, T)| e.0@)
}

/// The keys of a list of entries, each as the alternate key of its entry.
pub open spec fn entry_alts<T>(entries: Seq<(String, T)>) -> Seq<Option<Seq<char>>> {
    entries.map_values(|e: (String, T)| Some(e.0@))
}

/// The values of a list of entries.
pub open spec fn entry_values<T>(entries: Seq<(String, T)>) -> Seq<T> {
    entries.map_values(|e: (String, T)| e.1)
}

/// A table keyed by text.
pub struct TextStore<T> {
    entries: Vec<(String, T)>,
    positions: StringHashMap<usize>,
}

impl<T> View for TextStore<T> {
    type V = Map<Seq<char>, T>;

    open spec fn view(&self) -> Map<Seq<char>, T> {
        assoc(self.keys(), self.values())
    }
}

impl<T> TextStore<T> {
    /// The keys, in the order in which they were first inserted.
    pub closed spec fn keys(&self) -> Seq<Seq<char>> {
        Seq::new(self.entries@.len(), |i: int| self.entries@[i].0@)
    }

    /// The values, each at the position of its key.
    pub closed spec fn values(&self) -> Seq<T> {
        Seq::new(self.entries@.len(), |i: int| self.entries@[i].1)
    }

    /// The hash index agrees with the positions of the keys.
    pub closed spec fn indexed(&self) -> bool {
        &&& forall|i: int|
            0 <= i < self.entries@.len() ==> {
                &&& self.positions@.contains_key(#[trigger] self.keys()[i])
                &&& self.positions@[self.keys()[i]] == i
            }
        &&& forall|k: Seq<char>| #[trigger]
            self.positions@.contains_key(k) ==> {
                &&& 0 <= self.positions@[k] < self.entries@.len()
                &&& self.keys()[self.positions@[k] as int] == k
            }
    }

    /// Validity: one value for each key, and no key twice.
    pub open spec fn wf(&self) -> bool {
        &&& self.keys().len() == self.values().len()
        &&& self.keys().no_duplicates()
        &&& self.indexed()
    }

    /// The number of entries.
    pub open spec fn spec_len(&self) -> nat {
        self.keys().len()
    }

    /// An empty table.
    pub fn new() -> (r: Self)
        ensures
            r.wf(),
            r.keys() == Seq::<Seq<char>>::empty(),
            r.values() == Seq::<T>::empty(),
            r@ == Map::<Seq<char>, T>::empty(),
    {
        TextStore { entries: Vec::new(), positions: StringHashMap::new() }
    }

    /// The number of entries.
    pub fn len(&self) -> (n: usize)
        ensures
            n == self.spec_len(),
    {
        self.entries.len()
    }

    /// The key at position `i`.
    pub fn key_at(&self, i: usize) -> (k: &String)
        requires
            i < self.keys().len(),
        ensures
            k@ == self.keys()[i as int],
    {
        &self.entries[i].0
    }

    /// The value at position `i`.
    pub fn value_at(&self, i: usize) -> (v: &T)
        requires
            i < self.keys().len(),
        ensures
            *v == self.values()[i as int],
    {
        &self.entries[i].1
    }

    /// The value stored under `key`, if there is one.
    pub fn get(&self, key: &str) -> (r: Option<&T>)
        requires
            self.wf(),
        ensures
            match r {
                Some(v) => self@.contains_key(key@) && *v == self@[key@],
                None => !self@.contains_key(key@),
            },
    {
        match self.positions.get(key) {
            Some(p) => {
                let i: usize = *p;
                proof {
                    lemma_assoc_at(self.keys(), self.values(), i as int);
                }
                Some(&self.entries[i].1)
            },
            None => {
                assert(!self.keys().contains(key@)) by {
                    if self.keys().contains(key@) {
                        let i = self.keys().index_of(key@);
                        assert(self.positions@.contains_key(self.keys()[i]));
                    }
                }
                None
            },
        }
    }

    /// Puts `value` under `key`, and tells whether the key was present. A
    /// key that is already present keeps its position and takes the new
    /// value; a new key goes to the end.
    pub fn insert(&mut self, key: String, value: T) -> (present: bool)
        requires
            old(self).wf(),
        ensures
            present == old(self).keys().contains(key@),
            final(self).wf(),
            final(self)@ == old(self)@.insert(key@, value),
            old(self).keys().contains(key@) ==> {
                &&& final(self).keys() == old(self).keys()
                &&& final(self).values() == old(self).values().update(
                    old(self).keys().index_of(key@),
                    value,
                )
            },
            !old(self).keys().contains(key@) ==> {
                &&& final(self).keys() == old(self).keys().push(key@)
                &&& final(self).values() == old(self).values().push(value)
            },
    {
        let ghost keys0 = self.keys();
        let ghost values0 = self.values();
        let found: Option<usize> = match self.positions.get(key.as_str()) {
            Some(p) => Some(*p),
            None => None,
        };
        match found {
            Some(i) => {
                proof {
                    lemma_index_of_unique(keys0, i as int);
                    lemma_assoc_update(keys0, values0, i as int, value);
                }
                self.entries.set(i, (key, value));
                assert(self.keys() =~= keys0);
                true
            },
            None => {
                assert(!keys0.contains(key@)) by {
                    if keys0.contains(key@) {
                        let i = keys0.index_of(key@);
                        assert(self.positions@.contains_key(keys0[i]));
                    }
                }
                proof {
                    lemma_assoc_push(keys0, values0, key@, value);
                }
                let n: usize = self.entries.len();
                self.positions.insert(key.clone(), n);
                self.entries.push((key, value));
                assert(self.keys() =~= keys0.push(key@));
                assert forall|i: int| 0 <= i < self.entries@.len() implies {
                    &&& self.positions@.contains_key(#[trigger] self.keys()[i])
                    &&& self.positions@[self.keys()[i]] == i
                } by {
                    if i < n {
                        assert(keys0[i] == self.keys()[i]);
                        assert(keys0.contains(keys0[i]));
                    }
                }
                assert forall|k: Seq<char>| #[trigger]
                    self.positions@.contains_key(k) implies {
                    &&& 0 <= self.positions@[k] < self.entries@.len()
                    &&& self.keys()[self.positions@[k] as int] == k
                } by {
                    if k != key@ {
                        let p = self.positions@[k];
                        assert(keys0[p as int] == k);
                    }
                }
                false
            },
        }
    }

    /// Builds a table from a list of entries, inserting them in order. Where
    /// a key occurs more than once, it stands where it first occurred, and
    /// the last entry with that key gives the value.
    pub fn from_entries(entries: Vec<(String, T)>) -> (r: Self)
        ensures
            r.wf(),
            r.keys() == first_occurrences(entry_alts(entries@)),
            derived(r@, entry_alts(entries@), entry_values(entries@)),
            entry_keys(entries@).no_duplicates() ==> {
                &&& r.keys() == entry_keys(entries@)
                &&& r.values() == entry_values(entries@)
            },
    {
        let mut store: TextStore<T> = TextStore::new();
        let ghost all = entries@;
        let ghost alts = entry_alts(all);
        for entry in it: entries
            invariant
                it.seq() == all,
                alts == entry_alts(all),
                store.wf(),
                store.keys() == first_occurrences(alts.take(it.index() as int)),
                derived(
                    store@,
                    alts.take(it.index() as int),
                    entry_values(all).take(it.index() as int),
                ),
        {
            let ghost i = it.index() as int;
            let (key, value) = entry;
            proof {
                lemma_first_occurrences_push(alts.take(i), Some(key@));
                lemma_derived_push(
                    store@,
                    alts.take(i),
                    entry_values(all).take(i),
                    Some(key@),
                    value,
                );
                assert(alts.take(i + 1) =~= alts.take(i).push(Some(key@)));
            }
            store.insert(key, value);
        }
        proof {
            assert(alts.take(all.len() as int) =~= alts);
            if entry_keys(all).no_duplicates() {
                assert(alts =~= entry_keys(all).map_values(|k: Seq<char>| Some(k)));
                lemma_first_occurrences_distinct(alts, entry_keys(all));
                assert forall|i: int| 0 <= i < all.len() implies store.values()[i] == entry_values(
                    all,
                )[i] by {
                    assert forall|j: int| 0 <= j < alts.len() && j != i implies alts[j]
                        != alts[i] by {
                        assert(entry_keys(all)[j] != entry_keys(all)[i]);
                    }
                    lemma_assoc_at(store.keys(), store.values(), i);
                    lemma_derived_at(store@, alts, entry_values(all), i);
                }
            }
        }
        store
    }
}

/// A table keyed by numeric code.
pub struct NumericStore<T> {
    entries: Vec<(u16, T)>,
    positions: HashMap<u16, usize>,
}

impl<T> View for NumericStore<T> {
    type V = Map<u16, T>;

    open spec fn view(&self) -> Map<u16, T> {
        assoc(self.keys(), self.values())
    }
}

impl<T> NumericStore<T> {
    /// The keys, in the order in which they were first inserted.
    pub closed spec fn keys(&self) -> Seq<u16> {
        Seq::new(self.entries@.len(), |i: int| self.entries@[i].0)
    }

    /// The values, each at the position of its key.
    pub closed spec fn values(&self) -> Seq<T> {
        Seq::new(self.entries@.len(), |i: int| self.entries@[i].1)
    }

    /// The hash index agrees with the positions of the keys.
    pub closed spec fn indexed(&self) -> bool {
        &&& forall|i: int|
            0 <= i < self.entries@.len() ==> {
                &&& self.positions@.contains_key(#[trigger] self.keys()[i])
                &&& self.positions@[self.keys()[i]] == i
            }
        &&& forall|k: u16| #[trigger]
            self.positions@.contains_key(k) ==> {
                &&& 0 <= self.positions@[k] < self.entries@.len()
                &&& self.keys()[self.positions@[k] as int] == k
            }
    }

    /// Validity: one value for each key, and no key twice.
    pub open spec fn wf(&self) -> bool {
        &&& self.keys().len() == self.values().len()
        &&& self.keys().no_duplicates()
        &&& self.indexed()
    }

    /// The number of entries.
    pub open spec fn spec_len(&self) -> nat {
        self.keys().len()
    }

    /// An empty table.
    pub fn new() -> (r: Self)
        ensures
            r.wf(),
            r.keys() == Seq::<u16>::empty(),
            r.values() == Seq::<T>::empty(),
            r@ == Map::<u16, T>::empty(),
    {
        NumericStore { entries: Vec::new(), positions: HashMap::new() }
    }

    /// The number of entries.
    pub fn len(&self) -> (n: usize)
        ensures
            n == self.spec_len(),
    {
        self.entries.len()
    }

    /// The key at position `i`.
    pub fn key_at(&self, i: usize) -> (k: u16)
        requires
            i < self.keys().len(),
        ensures
            k == self.keys()[i as int],
    {
        self.entries[i].0
    }

    /// The value at position `i`.
    pub fn value_at(&self, i: usize) -> (v: &T)
        requires
            i < self.keys().len(),
        ensures
            *v == self.values()[i as int],
    {
        &self.entries[i].1
    }

    /// The value stored under `key`, if there is one.
    pub fn get(&self, key: u16) -> (r: Option<&T>)
        requires
            self.wf(),
        ensures
            match r {
                Some(v) => self@.contains_key(key) && *v == self@[key],
                None => !self@.contains_key(key),
            },
    {
        match self.positions.get(&key) {
            Some(p) => {
                let i: usize = *p;
                proof {
                    lemma_assoc_at(self.keys(), self.values(), i as int);
                }
                Some(&self.entries[i].1)
            },
            None => {
                assert(!self.keys().contains(key)) by {
                    if self.keys().contains(key) {
                        let i = self.keys().index_of(key);
                        assert(self.positions@.contains_key(self.keys()[i]));
                    }
                }
                None
            },
        }
    }

    /// Puts `value` under `key`, and tells whether the key was present. A
    /// key that is already present keeps its position and takes the new
    /// value; a new key goes to the end.
    pub fn insert(&mut self, key: u16, value: T) -> (present: bool)
        requires
            old(self).wf(),
        ensures
            present == old(self).keys().contains(key),
            final(self).wf(),
            final(self)@ == old(self)@.insert(key, value),
            old(self).keys().contains(key) ==> {
                &&& final(self).keys() == old(self).keys()
                &&& final(self).values() == old(self).values().update(
                    old(self).keys().index_of(key),
                    value,
                )
            },
            !old(self).keys().contains(key) ==> {
                &&& final(self).keys() == old(self).keys().push(key)
                &&& final(self).values() == old(self).values().push(value)
            },
    {
        let ghost keys0 = self.keys();
        let ghost values0 = self.values();
        let found: Option<usize> = match self.positions.get(&key) {
            Some(p) => Some(*p),
            None => None,
        };
        match found {
            Some(i) => {
                proof {
                    lemma_index_of_unique(keys0, i as int);
                    lemma_assoc_update(keys0, values0, i as int, value);
                }
                self.entries.set(i, (key, value));
                assert(self.keys() =~= keys0);
                true
            },
            None => {
                assert(!keys0.contains(key)) by {
                    if keys0.contains(key) {
                        let i = keys0.index_of(key);
                        assert(self.positions@.contains_key(keys0[i]));
                    }
                }
                proof {
                    lemma_assoc_push(keys0, values0, key, value);
                }
                let n: usize = self.entries.len();
                self.positions.insert(key, n);
                self.entries.push((key, value));
                assert(self.keys() =~= keys0.push(key));
                assert forall|i: int| 0 <= i < self.entries@.len() implies {
                    &&& self.positions@.contains_key(#[trigger] self.keys()[i])
                    &&& self.positions@[self.keys()[i]] == i
                } by {
                    if i < n {
                        assert(keys0[i] == self.keys()[i]);
                        assert(keys0.contains(keys0[i]));
                    }
                }
                assert forall|k: u16| #[trigger]
                    self.positions@.contains_key(k) implies {
                    &&& 0 <= self.positions@[k] < self.entries@.len()
                    &&& self.keys()[self.positions@[k] as int] == k
                } by {
                    if k != key {
                        let p = self.positions@[k];
                        assert(keys0[p as int] == k);
                    }
                }
                false
            },
        }
    }
}

impl TextStore<String> {
    /// A table of codes as a map from key to the text of the code.
    pub open spec fn targets(&self) -> Map<Seq<char>, Seq<char>> {
        self@.map_values(|code: String| code@)
    }
}

impl NumericStore<String> {
    /// A table of codes as a map from key to the text of the code.
    pub open spec fn targets(&self) -> Map<u16, Seq<char>> {
        self@.map_values(|code: String| code@)
    }
}

} // verus!
