//! An ordered header map: names to values, each name at most once when
//! built by `insert`; and the keyed-sequence specifications it rests on.

use vstd::prelude::*;

verus! {

/// A header entry as plain text: name and value.
pub type HeaderView = (Seq<char>, Seq<char>);

/// `i` is the first position of an entry named `key`.
pub open spec fn is_first_key<V>(e: Seq<(Seq<char>, V)>, key: Seq<char>, i: int) -> bool {
    &&& 0 <= i < e.len()
    &&& e[i].0 == key
    &&& forall|j: int| 0 <= j < i ==> e[j].0 != key
}

/// The position of the first entry named `key`, if any.
pub open spec fn key_index<V>(e: Seq<(Seq<char>, V)>, key: Seq<char>) -> Option<int> {
    if exists|i: int| is_first_key(e, key, i) {
        Some(choose|i: int| is_first_key(e, key, i))
    } else {
        None
    }
}

/// The value stored under `key`, if any.
pub open spec fn lookup<V>(e: Seq<(Seq<char>, V)>, key: Seq<char>) -> Option<V> {
    match key_index(e, key) {
        Some(i) => Some(e[i].1),
        None => None,
    }
}

/// The entries after storing `value` under `key`: the entry named `key`
/// gets the new value in place, or a new entry is appended.
pub open spec fn insert_entry<V>(e: Seq<(Seq<char>, V)>, key: Seq<char>, value: V) -> Seq<
    (Seq<char>, V),
> {
    match key_index(e, key) {
        Some(i) => e.update(i, (key, value)),
        None => e.push((key, value)),
    }
}

/// No name occurs twice.
pub open spec fn distinct_keys<V>(e: Seq<(Seq<char>, V)>) -> bool {
    forall|i: int, j: int| 0 <= i < e.len() && 0 <= j < e.len() && i != j ==> e[i].0 != e[j].0
}

/// The plain view of stored entries.
pub open spec fn entries_view(v: Seq<(String, String)>) -> Seq<HeaderView> {
    v.map_values(|p: (String, String)| (p.0@, p.1@))
}

/// Header names and values in insertion order.
pub struct Headers {
    entries: Vec<(String, String)>,
}

impl View for Headers {
    type V = Seq<HeaderView>;

    closed spec fn view(&self) -> Seq<HeaderView> {
        entries_view(self.entries@)
    }
}

impl Clone for Headers {
    fn clone(&self) -> (r: Self)
        ensures
            r@ == self@,
    {
        let mut entries: Vec<(String, String)> = Vec::new();
        let mut i: usize = 0;
        while i < self.entries.len()
            invariant
                i <= self.entries.len(),
                entries_view(entries@) =~= entries_view(self.entries@).subrange(0, i as int),
            decreases self.entries.len() - i,
        {
            let k = self.entries[i].0.clone();
            let v = self.entries[i].1.clone();
            let ghost before = entries@;
            let ghost kv = (k@, v@);
            entries.push((k, v));
            assert(entries_view(entries@) =~= entries_view(before).push(kv));
            i = i + 1;
        }
        Headers { entries }
    }
}

impl Headers {
    /// No entries.
    pub fn new() -> (h: Self)
        ensures
            h@ == Seq::<HeaderView>::empty(),
    {
        let h = Headers { entries: Vec::new() };
        assert(h@ =~= Seq::<HeaderView>::empty());
        h
    }

    /// The number of entries.
    pub fn len(&self) -> (n: usize)
        ensures
            n == self@.len(),
    {
        self.entries.len()
    }

    /// The name of entry `i`.
    pub fn name_at(&self, i: usize) -> (k: &String)
        requires
            i < self@.len(),
        ensures
            k@ == self@[i as int].0,
    {
        &self.entries[i].0
    }

    /// The value of entry `i`.
    pub fn value_at(&self, i: usize) -> (v: &String)
        requires
            i < self@.len(),
        ensures
            v@ == self@[i as int].1,
    {
        &self.entries[i].1
    }

    /// The position of the entry named `key`.
    fn position(&self, key: &String) -> (r: Option<usize>)
        ensures
            match r {
                Some(i) => key_index(self@, key@) == Some(i as int),
                None => key_index(self@, key@) is None,
            },
    {
        let mut i: usize = 0;
        while i < self.entries.len()
            invariant
                i <= self.entries.len(),
                forall|j: int| 0 <= j < i ==> self@[j].0 != key@,
            decreases self.entries.len() - i,
        {
            if self.entries[i].0 == *key {
                assert(is_first_key(self@, key@, i as int));
                proof {
                    let k = choose|k: int| is_first_key(self@, key@, k);
                    assert(k == i) by {
                        if k > i {
                            assert(self@[i as int].0 != key@);
                        }
                    }
                }
                return Some(i);
            }
            i = i + 1;
        }
        assert(!exists|k: int| is_first_key(self@, key@, k));
        None
    }

    /// The value stored under `key`, if any.
    pub fn get(&self, key: &str) -> (r: Option<&String>)
        ensures
            match r {
                Some(v) => lookup(self@, key@) == Some(v@),
                None => lookup(self@, key@) is None,
            },
    {
        let k = key.to_owned();
        match self.position(&k) {
            Some(i) => Some(&self.entries[i].1),
            None => None,
        }
    }

    /// An entry named `key` exists.
    pub fn contains_key(&self, key: &str) -> (r: bool)
        ensures
            r == (key_index(self@, key@) is Some),
    {
        let k = key.to_owned();
        self.position(&k).is_some()
    }

    /// Stores `value` under `key`, replacing the value of an existing entry
    /// of that name or appending a new entry.
    pub fn insert(&mut self, key: String, value: String)
        ensures
            final(self)@ == insert_entry(old(self)@, key@, value@),
    {
        match self.position(&key) {
            Some(i) => {
                let ghost k = key@;
                let ghost v = value@;
                self.entries.set(i, (key, value));
                assert(self@ =~= old(self)@.update(i as int, (k, v)));
            },
            None => {
                let ghost k = key@;
                let ghost v = value@;
                self.entries.push((key, value));
                assert(self@ =~= old(self)@.push((k, v)));
            },
        }
    }
}

/// After `insert(key, value)`, looking up `key` gives `value`.
pub proof fn lemma_lookup_after_insert<V>(e: Seq<(Seq<char>, V)>, key: Seq<char>, value: V)
    ensures
        lookup(insert_entry(e, key, value), key) == Some(value),
{
    let f = insert_entry(e, key, value);
    match key_index(e, key) {
        Some(i) => {
            let i0 = choose|i: int| is_first_key(e, key, i);
            assert(is_first_key(f, key, i0));
            lemma_first_key_unique(f, key, i0);
        },
        None => {
            let n = e.len() as int;
            assert forall|j: int| 0 <= j < n implies e[j].0 != key by {
                if e[j].0 == key {
                    lemma_first_key_exists(e, key, j);
                }
            }
            assert(is_first_key(f, key, n));
            lemma_first_key_unique(f, key, n);
        },
    }
}

/// The first entry named `key` is the one that `key_index` finds.
pub proof fn lemma_first_key_unique<V>(e: Seq<(Seq<char>, V)>, key: Seq<char>, i: int)
    requires
        is_first_key(e, key, i),
    ensures
        key_index(e, key) == Some(i),
{
    let k = choose|k: int| is_first_key(e, key, k);
    assert(k == i) by {
        if k < i {
            assert(e[k].0 != key);
        } else if k > i {
            assert(e[i].0 != key);
        }
    }
}

/// Some entry named `key` means a first one exists.
pub proof fn lemma_first_key_exists<V>(e: Seq<(Seq<char>, V)>, key: Seq<char>, j: int)
    requires
        0 <= j < e.len(),
        e[j].0 == key,
    ensures
        exists|i: int| is_first_key(e, key, i),
    decreases j,
{
    if exists|k: int| 0 <= k < j && e[k].0 == key {
        let k = choose|k: int| 0 <= k < j && e[k].0 == key;
        lemma_first_key_exists(e, key, k);
    } else {
        assert(is_first_key(e, key, j));
    }
}

/// Inserting under one name leaves what other names look up unchanged.
pub proof fn lemma_lookup_other_after_insert<V>(
    e: Seq<(Seq<char>, V)>,
    key: Seq<char>,
    value: V,
    other: Seq<char>,
)
    requires
        other != key,
    ensures
        lookup(insert_entry(e, key, value), other) == lookup(e, other),
{
    let f = insert_entry(e, key, value);
    match key_index(e, other) {
        Some(i) => {
            let i0 = choose|i: int| is_first_key(e, other, i);
            assert(is_first_key(f, other, i0));
            lemma_first_key_unique(f, other, i0);
        },
        None => {
            if exists|i: int| is_first_key(f, other, i) {
                let i = choose|i: int| is_first_key(f, other, i);
                if i < e.len() {
                    assert(e[i].0 == other);
                    lemma_first_key_exists(e, other, i);
                }
            }
        },
    }
}

/// Inserting keeps names distinct.
pub proof fn lemma_insert_keeps_distinct<V>(e: Seq<(Seq<char>, V)>, key: Seq<char>, value: V)
    requires
        distinct_keys(e),
    ensures
        distinct_keys(insert_entry(e, key, value)),
{
    let f = insert_entry(e, key, value);
    match key_index(e, key) {
        Some(i) => {
            let i0 = choose|i: int| is_first_key(e, key, i);
            assert(f =~= e.update(i0, (key, value)));
        },
        None => {
            assert forall|j: int| 0 <= j < e.len() implies e[j].0 != key by {
                if e[j].0 == key {
                    lemma_first_key_exists(e, key, j);
                }
            }
        },
    }
}

} // verus!
