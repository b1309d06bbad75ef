//! An insertion-ordered table from text keys to values.
//!
//! A table is read through its view: the sequence of `(key, value)` pairs in
//! the order the keys were first inserted. Lookups find the first pair with
//! the key; inserting a key already present replaces its value in place.
use vstd::prelude::*;

verus! {

/// The index of the first pair whose key is `key`.
pub open spec fn key_index<T>(entries: Seq<(Seq<char>, T)>, key: Seq<char>) -> Option<int>
    decreases entries.len(),
{
    if entries.len() == 0 {
        None
    } else if entries[0].0 == key {
        Some(0)
    } else {
        match key_index(entries.drop_first(), key) {
            Some(i) => Some(i + 1),
            None => None,
        }
    }
}

/// The value stored under `key`, if any.
pub open spec fn lookup<T>(entries: Seq<(Seq<char>, T)>, key: Seq<char>) -> Option<T> {
    match key_index(entries, key) {
        Some(i) => Some(entries[i].1),
        None => None,
    }
}

pub open spec fn has_key<T>(entries: Seq<(Seq<char>, T)>, key: Seq<char>) -> bool {
    key_index(entries, key) is Some
}

/// The table after storing `value` under `key`: replaced in place when the
/// key is present, appended otherwise.
pub open spec fn table_insert<T>(entries: Seq<(Seq<char>, T)>, key: Seq<char>, value: T) -> Seq<
    (Seq<char>, T),
> {
    match key_index(entries, key) {
        Some(i) => entries.update(i, (key, value)),
        None => entries.push((key, value)),
    }
}

/// No key occurs twice.
pub open spec fn keys_unique<T>(entries: Seq<(Seq<char>, T)>) -> bool {
    forall|i: int, j: int|
        0 <= i < entries.len() && 0 <= j < entries.len() && i != j ==> #[trigger] entries[i].0
            != #[trigger] entries[j].0
}

pub proof fn lemma_key_index_bounds<T>(entries: Seq<(Seq<char>, T)>, key: Seq<char>)
    ensures
        key_index(entries, key) matches Some(i) ==> 0 <= i < entries.len() && entries[i].0 == key
            && forall|k: int| 0 <= k < i ==> #[trigger] entries[k].0 != key,
        key_index(entries, key) is None ==> forall|k: int|
            0 <= k < entries.len() ==> #[trigger] entries[k].0 != key,
    decreases entries.len(),
{
    if entries.len() > 0 && entries[0].0 != key {
        lemma_key_index_bounds(entries.drop_first(), key);
        assert forall|k: int| 1 <= k < entries.len() implies #[trigger] entries[k] == entries.drop_first()[k
            - 1] by {}
    }
}

/// A scan that found no key before `i` and `key` at `i` (or no key at all) has found `key_index`.
pub proof fn lemma_key_index_scan<T>(entries: Seq<(Seq<char>, T)>, key: Seq<char>, i: int)
    requires
        0 <= i <= entries.len(),
        forall|k: int| 0 <= k < i ==> #[trigger] entries[k].0 != key,
    ensures
        i < entries.len() && entries[i].0 == key ==> key_index(entries, key) == Some(i),
        i == entries.len() ==> key_index(entries, key) is None,
    decreases i,
{
    lemma_key_index_bounds(entries, key);
    if i > 0 {
        assert forall|k: int| 0 <= k < i - 1 implies #[trigger] entries.drop_first()[k].0
            != key by {
            assert(entries.drop_first()[k] == entries[k + 1]);
        }
        lemma_key_index_scan(entries.drop_first(), key, i - 1);
    }
}

pub proof fn lemma_table_insert_unique<T>(entries: Seq<(Seq<char>, T)>, key: Seq<char>, value: T)
    requires
        keys_unique(entries),
    ensures
        keys_unique(table_insert(entries, key, value)),
        has_key(table_insert(entries, key, value), key),
        lookup(table_insert(entries, key, value), key) == Some(value),
        forall|k: Seq<char>|
            k != key ==> #[trigger] lookup(table_insert(entries, key, value), k) == lookup(
                entries,
                k,
            ),
{
    lemma_key_index_bounds(entries, key);
    let r = table_insert(entries, key, value);
    match key_index(entries, key) {
        Some(i) => {
            lemma_key_index_scan(r, key, i);
        },
        None => {
            lemma_key_index_scan(r, key, entries.len() as int);
        },
    }
    assert forall|k: Seq<char>| k != key implies #[trigger] lookup(r, k) == lookup(entries, k) by {
        lemma_key_index_bounds(entries, k);
        lemma_key_index_bounds(r, k);
        match key_index(entries, k) {
            Some(j) => {
                assert(r[j] == entries[j]);
                lemma_key_index_scan(r, k, j);
            },
            None => {
                assert forall|m: int| 0 <= m < r.len() implies #[trigger] r[m].0 != k by {
                    if m < entries.len() {
                        assert(r[m].0 == entries[m].0 || r[m].0 == key);
                    }
                }
                lemma_key_index_scan(r, k, r.len() as int);
            },
        }
    }
}

/// Storing a value under one key leaves what every other key finds.
pub proof fn lemma_table_insert_lookup_other<T>(entries: Seq<(Seq<char>, T)>, key: Seq<char>, value: T, k: Seq<char>)
    requires
        k != key,
    ensures
        lookup(table_insert(entries, key, value), k) == lookup(entries, k),
{
    let r = table_insert(entries, key, value);
    lemma_key_index_bounds(entries, key);
    lemma_key_index_bounds(entries, k);
    lemma_key_index_bounds(r, k);
    match key_index(entries, k) {
        Some(j) => {
            assert(r[j] == entries[j]);
            assert forall|m: int| 0 <= m < j implies #[trigger] r[m].0 != k by {
                assert(r[m].0 == entries[m].0 || r[m].0 == key);
            }
            lemma_key_index_scan(r, k, j);
        },
        None => {
            assert forall|m: int| 0 <= m < r.len() implies #[trigger] r[m].0 != k by {
                if m < entries.len() {
                    assert(r[m].0 == entries[m].0 || r[m].0 == key);
                }
            }
            lemma_key_index_scan(r, k, r.len() as int);
        },
    }
}

/// The index of the first element satisfying `p`.
pub open spec fn first_index<T>(s: Seq<T>, p: spec_fn(T) -> bool) -> Option<int>
    decreases s.len(),
{
    if s.len() == 0 {
        None
    } else if p(s[0]) {
        Some(0)
    } else {
        match first_index(s.drop_first(), p) {
            Some(i) => Some(i + 1),
            None => None,
        }
    }
}

pub proof fn lemma_first_index_bounds<T>(s: Seq<T>, p: spec_fn(T) -> bool)
    ensures
        first_index(s, p) matches Some(i) ==> 0 <= i < s.len() && p(s[i]) && forall|k: int|
            0 <= k < i ==> !p(#[trigger] s[k]),
        first_index(s, p) is None ==> forall|k: int| 0 <= k < s.len() ==> !p(#[trigger] s[k]),
    decreases s.len(),
{
    if s.len() > 0 && !p(s[0]) {
        lemma_first_index_bounds(s.drop_first(), p);
        assert forall|k: int| 1 <= k < s.len() implies #[trigger] s[k] == s.drop_first()[k - 1] by {}
    }
}

/// A scan that found no match before `i` and a match at `i` (or none at all) has found `first_index`.
pub proof fn lemma_first_index_scan<T>(s: Seq<T>, p: spec_fn(T) -> bool, i: int)
    requires
        0 <= i <= s.len(),
        forall|k: int| 0 <= k < i ==> !p(#[trigger] s[k]),
    ensures
        i < s.len() && p(s[i]) ==> first_index(s, p) == Some(i),
        i == s.len() ==> first_index(s, p) is None,
    decreases i,
{
    lemma_first_index_bounds(s, p);
    if i > 0 {
        assert forall|k: int| 0 <= k < i - 1 implies !p(#[trigger] s.drop_first()[k]) by {
            assert(s.drop_first()[k] == s[k + 1]);
        }
        lemma_first_index_scan(s.drop_first(), p, i - 1);
    }
}

/// The counts with the count of `key` raised by one (a new key starts at one).
pub open spec fn count_bumped(counts: Seq<(Seq<char>, usize)>, key: Seq<char>) -> Seq<
    (Seq<char>, usize),
> {
    match key_index(counts, key) {
        Some(i) => counts.update(i, (key, (counts[i].1 + 1) as usize)),
        None => counts.push((key, 1usize)),
    }
}

/// A table of values under text keys, kept in insertion order.
#[derive(Clone, Debug)]
pub struct KeyedTable<V> {
    pub entries: Vec<(String, V)>,
}

impl<V: View> View for KeyedTable<V> {
    type V = Seq<(Seq<char>, V::V)>;

    open spec fn view(&self) -> Seq<(Seq<char>, V::V)> {
        self.entries@.map_values(|e: (String, V)| (e.0@, e.1@))
    }
}

impl<V: View> KeyedTable<V> {
    /// An empty table.
    pub fn new() -> (t: Self)
        ensures
            t@ == Seq::<(Seq<char>, V::V)>::empty(),
    {
        let t = KeyedTable { entries: Vec::new() };
        assert(t@ =~= Seq::<(Seq<char>, V::V)>::empty());
        t
    }

    /// The number of keys.
    pub fn len(&self) -> (n: usize)
        ensures
            n == self@.len(),
    {
        self.entries.len()
    }

    /// Whether the table holds no key.
    pub fn is_empty(&self) -> (b: bool)
        ensures
            b == (self@.len() == 0),
    {
        self.entries.len() == 0
    }

    /// The position of `key`, if present.
    pub fn index_of(&self, key: &str) -> (r: Option<usize>)
        ensures
            r matches Some(i) ==> key_index(self@, key@) == Some(i as int),
            r is None ==> key_index(self@, key@) is None,
    {
        let n = self.entries.len();
        let wanted: String = key.to_owned();
        let mut i: usize = 0;
        while i < n
            invariant
                0 <= i <= n == self@.len() == self.entries@.len(),
                wanted@ == key@,
                forall|k: int| 0 <= k < i ==> #[trigger] self@[k].0 != key@,
            decreases n - i,
        {
            assert(self@[i as int].0 == self.entries@[i as int].0@);
            if self.entries[i].0 == wanted {
                proof {
                    lemma_key_index_scan(self@, key@, i as int);
                }
                return Some(i);
            }
            i += 1;
        }
        proof {
            lemma_key_index_scan(self@, key@, n as int);
        }
        None
    }

    /// Whether `key` is present.
    pub fn contains_key(&self, key: &str) -> (b: bool)
        ensures
            b == has_key(self@, key@),
    {
        self.index_of(key).is_some()
    }

    /// The value under `key`, if present.
    pub fn get(&self, key: &str) -> (r: Option<&V>)
        ensures
            r matches Some(v) ==> lookup(self@, key@) == Some(v@),
            r is None ==> lookup(self@, key@) is None,
    {
        proof {
            lemma_key_index_bounds(self@, key@);
        }
        match self.index_of(key) {
            Some(i) => Some(&self.entries[i].1),
            None => None,
        }
    }

    /// Stores `value` under `key`: in place when the key is present, at the end otherwise.
    pub fn insert(&mut self, key: String, value: V)
        ensures
            final(self)@ == table_insert(old(self)@, key@, value@),
    {
        proof {
            lemma_key_index_bounds(self@, key@);
        }
        match self.index_of(key.as_str()) {
            Some(i) => {
                self.entries.set(i, (key, value));
            },
            None => {
                self.entries.push((key, value));
            },
        }
        assert(self@ =~= table_insert(old(self)@, key@, value@));
    }

    /// The key at position `i`.
    pub fn key_at(&self, i: usize) -> (r: &String)
        requires
            i < self@.len(),
        ensures
            r@ == self@[i as int].0,
    {
        &self.entries[i].0
    }

    /// The keys, in order.
    pub fn keys(&self) -> (r: Vec<String>)
        ensures
            r@.len() == self@.len(),
            forall|i: int| 0 <= i < self@.len() ==> #[trigger] r@[i]@ == self@[i].0,
    {
        let mut r: Vec<String> = Vec::new();
        let mut i: usize = 0;
        while i < self.entries.len()
            invariant
                0 <= i <= self.entries@.len(),
                r@.len() == i,
                forall|k: int| 0 <= k < i ==> #[trigger] r@[k]@ == self@[k].0,
            decreases self.entries@.len() - i,
        {
            r.push(self.entries[i].0.clone());
            i += 1;
        }
        r
    }

    /// References to the values, in order.
    pub fn values(&self) -> (r: Vec<&V>)
        ensures
            r@.len() == self@.len(),
            forall|i: int| 0 <= i < self@.len() ==> #[trigger] r@[i]@ == self@[i].1,
    {
        let mut r: Vec<&V> = Vec::new();
        let mut i: usize = 0;
        while i < self.entries.len()
            invariant
                0 <= i <= self.entries@.len(),
                r@.len() == i,
                forall|k: int| 0 <= k < i ==> #[trigger] r@[k]@ == self@[k].1,
            decreases self.entries@.len() - i,
        {
            r.push(&self.entries[i].1);
            i += 1;
        }
        r
    }
}

impl KeyedTable<usize> {
    /// Raises the count under `key` by one, starting a missing key at one.
    pub fn increment(&mut self, key: String)
        requires
            lookup(old(self)@, key@) matches Some(c) ==> c < usize::MAX,
        ensures
            final(self)@ == count_bumped(old(self)@, key@),
    {
        proof {
            lemma_key_index_bounds(self@, key@);
        }
        match self.index_of(key.as_str()) {
            Some(i) => {
                let c = self.entries[i].1;
                self.entries.set(i, (key, c + 1));
            },
            None => {
                self.entries.push((key, 1));
            },
        }
        assert(self@ =~= count_bumped(old(self)@, key@));
    }
}

} // verus!
