//! The response cache: an LRU cache (the `lru` crate) of responses by
//! path, whose entries expire after a time to live.

use vstd::prelude::*;

use lru::LruCache;

use crate::headers::{distinct_keys, is_first_key, key_index, lemma_first_key_exists, lemma_first_key_unique};
use crate::http::{HttpResponse, ResponseView};

verus! {

/// A cached response and when it was stored, in nanoseconds of a
/// monotonic clock.
pub struct CacheEntry {
    pub response: HttpResponse,
    pub created_at: u64,
}

/// Cache contents as plain values: keys with entries, most recently used first.
pub type LruView = Seq<(Seq<char>, CacheEntry)>;

/// The entries after a use of `key`: a present entry moves to the front.
pub open spec fn lru_after_use(e: LruView, key: Seq<char>) -> LruView {
    match key_index(e, key) {
        Some(i) => seq![e[i]] + e.remove(i),
        None => e,
    }
}

/// The entries after removing `key`.
pub open spec fn lru_after_pop(e: LruView, key: Seq<char>) -> LruView {
    match key_index(e, key) {
        Some(i) => e.remove(i),
        None => e,
    }
}

/// The entries after storing `value` under `key` in a cache holding at most
/// `cap` entries: a present entry is replaced and moves to the front; a new
/// entry goes to the front, and when the cache is full the least recently
/// used entry (the last) leaves.
pub open spec fn lru_after_put(e: LruView, cap: nat, key: Seq<char>, value: CacheEntry) -> LruView {
    match key_index(e, key) {
        Some(i) => seq![(key, value)] + e.remove(i),
        None => if e.len() == cap {
            seq![(key, value)] + e.drop_last()
        } else {
            seq![(key, value)] + e
        },
    }
}

// ---------------------------------------------------------------------------
// The lru crate
// ---------------------------------------------------------------------------

#[verifier::external_type_specification]
#[verifier::external_body]
#[verifier::reject_recursive_types(K)]
#[verifier::reject_recursive_types(V)]
#[verifier::reject_recursive_types(S)]
pub struct ExLruCache<K, V, S>(LruCache<K, V, S>);

#[verifier::external_type_specification]
#[verifier::external_body]
pub struct ExLruDefaultHasher(lru::DefaultHasher);

/// The entries of an `lru::LruCache`, most recently used first.
pub uninterp spec fn lru_entries(c: LruCache<String, CacheEntry>) -> LruView;

/// The capacity that an `lru::LruCache` was made with.
pub uninterp spec fn lru_capacity(c: LruCache<String, CacheEntry>) -> nat;

/// `LruCache::new`: an empty cache of capacity `cap`.
#[verifier::external_body]
fn lru_new(cap: usize) -> (c: LruCache<String, CacheEntry>)
    requires
        cap > 0,
    ensures
        lru_entries(c) == Seq::<(Seq<char>, CacheEntry)>::empty(),
        lru_capacity(c) == cap,
{
    LruCache::new(std::num::NonZeroUsize::new(cap).unwrap())
}

/// `LruCache::get`, keeping only whether the key was present: a present
/// entry becomes the most recently used.
#[verifier::external_body]
fn lru_use(c: &mut LruCache<String, CacheEntry>, key: &str) -> (found: bool)
    ensures
        found == (key_index(lru_entries(*old(c)), key@) is Some),
        lru_entries(*final(c)) == lru_after_use(lru_entries(*old(c)), key@),
        lru_capacity(*final(c)) == lru_capacity(*old(c)),
{
    c.get(key).is_some()
}

/// `LruCache::peek`: the entry under `key`, without changing the order.
#[verifier::external_body]
fn lru_peek<'a>(c: &'a LruCache<String, CacheEntry>, key: &str) -> (r: Option<&'a CacheEntry>)
    ensures
        match key_index(lru_entries(*c), key@) {
            Some(i) => r == Some(&lru_entries(*c)[i].1),
            None => r is None,
        },
{
    c.peek(key)
}

/// `LruCache::pop`: removes and returns the entry under `key`.
#[verifier::external_body]
fn lru_pop(c: &mut LruCache<String, CacheEntry>, key: &str) -> (r: Option<CacheEntry>)
    ensures
        match key_index(lru_entries(*old(c)), key@) {
            Some(i) => r == Some(lru_entries(*old(c))[i].1),
            None => r is None,
        },
        lru_entries(*final(c)) == lru_after_pop(lru_entries(*old(c)), key@),
        lru_capacity(*final(c)) == lru_capacity(*old(c)),
{
    c.pop(key)
}

/// `LruCache::put`: stores `value` under `key` as the most recently used
/// entry, evicting the least recently used one when a new key meets a full
/// cache; returns the replaced value of the same key.
#[verifier::external_body]
fn lru_put(c: &mut LruCache<String, CacheEntry>, key: String, value: CacheEntry) -> (r: Option<
    CacheEntry,
>)
    ensures
        match key_index(lru_entries(*old(c)), key@) {
            Some(i) => r == Some(lru_entries(*old(c))[i].1),
            None => r is None,
        },
        lru_entries(*final(c)) == lru_after_put(
            lru_entries(*old(c)),
            lru_capacity(*old(c)),
            key@,
            value,
        ),
        lru_capacity(*final(c)) == lru_capacity(*old(c)),
{
    c.put(key, value)
}

// ---------------------------------------------------------------------------
// The cache
// ---------------------------------------------------------------------------

/// How long ago `created_at` was at `now`, never negative.
pub open spec fn age(created_at: u64, now: u64) -> int {
    if now >= created_at {
        now - created_at
    } else {
        0
    }
}

/// An entry is still fresh at `now` when its age is below the time to live.
pub open spec fn is_fresh(entry: CacheEntry, now: u64, ttl_secs: u64) -> bool {
    age(entry.created_at, now) < ttl_secs * 1_000_000_000
}

/// The plain view of an optional response.
pub open spec fn opt_response_view(r: Option<HttpResponse>) -> Option<ResponseView> {
    match r {
        Some(x) => Some(x@),
        None => None,
    }
}

/// What looking up `key` at `now` gives and leaves: a fresh entry's response,
/// with the entry moved to the front; nothing for an expired entry, which is
/// removed; nothing for a missing key, with the entries unchanged.
pub open spec fn get_outcome(e: LruView, key: Seq<char>, now: u64, ttl_secs: u64) -> (
    Option<ResponseView>,
    LruView,
) {
    match key_index(e, key) {
        Some(i) => if is_fresh(e[i].1, now, ttl_secs) {
            (Some(e[i].1.response@), lru_after_use(e, key))
        } else {
            (None, lru_after_pop(e, key))
        },
        None => (None, e),
    }
}

/// The capacity for a cache of `size_bytes`: one entry per 4096 bytes, or
/// 1000 entries when that is zero.
pub open spec fn capacity_for(size_bytes: usize) -> nat {
    if size_bytes / 4096 > 0 {
        (size_bytes / 4096) as nat
    } else {
        1000
    }
}

/// A cache of responses by path.
pub struct ResponseCache {
    cache: LruCache<String, CacheEntry>,
    ttl_secs: u64,
}

impl ResponseCache {
    /// The entries, most recently used first.
    pub closed spec fn entries(&self) -> LruView {
        lru_entries(self.cache)
    }

    /// The most entries the cache holds.
    pub closed spec fn capacity(&self) -> nat {
        lru_capacity(self.cache)
    }

    /// Seconds an entry stays fresh.
    pub closed spec fn ttl(&self) -> u64 {
        self.ttl_secs
    }

    /// Keys are distinct and the cache holds no more than its capacity.
    pub open spec fn wf(&self) -> bool {
        &&& distinct_keys(self.entries())
        &&& self.entries().len() <= self.capacity()
        &&& self.capacity() > 0
    }

    /// An empty cache sized for `size_bytes` whose entries live `ttl_seconds`.
    pub fn new(size_bytes: usize, ttl_seconds: u64) -> (c: Self)
        ensures
            c.wf(),
            c.entries() == Seq::<(Seq<char>, CacheEntry)>::empty(),
            c.capacity() == capacity_for(size_bytes),
            c.ttl() == ttl_seconds,
    {
        let per_entry = size_bytes / 4096;
        let capacity = if per_entry > 0 {
            per_entry
        } else {
            1000
        };
        ResponseCache { cache: lru_new(capacity), ttl_secs: ttl_seconds }
    }

    /// The cached response for `key` at time `now` (nanoseconds of the clock
    /// that `put` used). A fresh entry is returned and becomes the most
    /// recently used; an expired one is removed.
    pub fn get(&mut self, key: &str, now: u64) -> (r: Option<HttpResponse>)
        requires
            old(self).wf(),
        ensures
            final(self).wf(),
            final(self).capacity() == old(self).capacity(),
            final(self).ttl() == old(self).ttl(),
            opt_response_view(r) == get_outcome(old(self).entries(), key@, now, old(self).ttl()).0,
            final(self).entries() == get_outcome(old(self).entries(), key@, now, old(self).ttl()).1,
    {
        let ghost e0 = lru_entries(self.cache);
        if lru_use(&mut self.cache, key) {
            let ghost i = key_index(e0, key@)->Some_0;
            proof {
                lemma_use_keeps_wf(e0, key@, lru_capacity(self.cache));
                lemma_moved_entry_first(e0, key@);
            }
            let entry = lru_peek(&self.cache, key).unwrap();
            let elapsed: u64 = now.saturating_sub(entry.created_at);
            if (elapsed as u128) < (self.ttl_secs as u128) * 1_000_000_000 {
                return Some(entry.response.clone());
            } else {
                let ghost e1 = lru_entries(self.cache);
                let _ = lru_pop(&mut self.cache, key);
                proof {
                    lemma_first_key_unique(e1, key@, 0);
                    assert(e1.remove(0) =~= e0.remove(i));
                    lemma_remove_keeps_distinct(e0, i);
                }
            }
        }
        None
    }

    /// Stores `response` under `key` at time `now` as the most recently used
    /// entry; a new key meeting a full cache evicts the least recently used entry.
    pub fn put(&mut self, key: String, response: HttpResponse, now: u64)
        requires
            old(self).wf(),
        ensures
            final(self).wf(),
            final(self).capacity() == old(self).capacity(),
            final(self).ttl() == old(self).ttl(),
            final(self).entries() == lru_after_put(
                old(self).entries(),
                old(self).capacity(),
                key@,
                (CacheEntry { response: response, created_at: now }),
            ),
    {
        let ghost e0 = lru_entries(self.cache);
        let ghost k = key@;
        let entry = CacheEntry { response, created_at: now };
        let ghost v = entry;
        let _ = lru_put(&mut self.cache, key, entry);
        proof {
            lemma_put_keeps_wf(e0, lru_capacity(self.cache), k, v);
        }
    }
}

// ---------------------------------------------------------------------------
// Laws
// ---------------------------------------------------------------------------

/// Removing an entry keeps keys distinct.
pub proof fn lemma_remove_keeps_distinct(e: LruView, i: int)
    requires
        distinct_keys(e),
        0 <= i < e.len(),
    ensures
        distinct_keys(e.remove(i)),
{
    let f = e.remove(i);
    assert forall|a: int, b: int| 0 <= a < f.len() && 0 <= b < f.len() && a != b implies f[a].0
        != f[b].0 by {
        let a0 = if a < i {
            a
        } else {
            a + 1
        };
        let b0 = if b < i {
            b
        } else {
            b + 1
        };
        assert(f[a] == e[a0]);
        assert(f[b] == e[b0]);
    }
}

/// A used entry moves to the front, where `key_index` then finds it.
pub proof fn lemma_moved_entry_first(e: LruView, key: Seq<char>)
    requires
        key_index(e, key) is Some,
    ensures
        key_index(lru_after_use(e, key), key) == Some(0int),
        lru_after_use(e, key)[0] == e[key_index(e, key)->Some_0],
{
    let i = choose|i: int| is_first_key(e, key, i);
    let f = lru_after_use(e, key);
    assert(f[0] == e[i]);
    assert(is_first_key(f, key, 0));
    lemma_first_key_unique(f, key, 0);
}

/// Using an entry keeps keys distinct and the size unchanged.
pub proof fn lemma_use_keeps_wf(e: LruView, key: Seq<char>, cap: nat)
    requires
        distinct_keys(e),
        e.len() <= cap,
    ensures
        distinct_keys(lru_after_use(e, key)),
        lru_after_use(e, key).len() == e.len(),
{
    match key_index(e, key) {
        Some(i) => {
            let i0 = choose|i: int| is_first_key(e, key, i);
            lemma_remove_keeps_distinct(e, i0);
            let r = e.remove(i0);
            let f = seq![e[i0]] + r;
            assert forall|a: int, b: int| 0 <= a < f.len() && 0 <= b < f.len() && a != b implies f[a].0
                != f[b].0 by {
                if a == 0 && b > 0 {
                    let b0 = if b - 1 < i0 {
                        b - 1
                    } else {
                        b
                    };
                    assert(f[b] == e[b0]);
                } else if b == 0 && a > 0 {
                    let a0 = if a - 1 < i0 {
                        a - 1
                    } else {
                        a
                    };
                    assert(f[a] == e[a0]);
                } else {
                    assert(f[a] == r[a - 1]);
                    assert(f[b] == r[b - 1]);
                }
            }
        },
        None => {},
    }
}

/// Storing an entry keeps keys distinct and the cache within its capacity.
pub proof fn lemma_put_keeps_wf(e: LruView, cap: nat, key: Seq<char>, value: CacheEntry)
    requires
        distinct_keys(e),
        e.len() <= cap,
        cap > 0,
    ensures
        distinct_keys(lru_after_put(e, cap, key, value)),
        lru_after_put(e, cap, key, value).len() <= cap,
{
    let f = lru_after_put(e, cap, key, value);
    match key_index(e, key) {
        Some(i) => {
            let i0 = choose|i: int| is_first_key(e, key, i);
            lemma_remove_keeps_distinct(e, i0);
            let r = e.remove(i0);
            assert forall|a: int, b: int| 0 <= a < f.len() && 0 <= b < f.len() && a != b implies f[a].0
                != f[b].0 by {
                if a == 0 && b > 0 {
                    let b0 = if b - 1 < i0 {
                        b - 1
                    } else {
                        b
                    };
                    assert(f[b] == e[b0]);
                } else if b == 0 && a > 0 {
                    let a0 = if a - 1 < i0 {
                        a - 1
                    } else {
                        a
                    };
                    assert(f[a] == e[a0]);
                } else {
                    assert(f[a] == r[a - 1]);
                    assert(f[b] == r[b - 1]);
                }
            }
        },
        None => {
            assert forall|j: int| 0 <= j < e.len() implies e[j].0 != key by {
                if e[j].0 == key {
                    lemma_first_key_exists(e, key, j);
                }
            }
            let r = if e.len() == cap {
                e.drop_last()
            } else {
                e
            };
            assert forall|a: int, b: int| 0 <= a < f.len() && 0 <= b < f.len() && a != b implies f[a].0
                != f[b].0 by {
                if a > 0 {
                    assert(f[a] == r[a - 1]);
                    assert(f[a] == e[a - 1]);
                }
                if b > 0 {
                    assert(f[b] == r[b - 1]);
                    assert(f[b] == e[b - 1]);
                }
            }
        },
    }
}

/// A stored response is what the next lookup of its key finds first.
pub proof fn lemma_put_then_found(e: LruView, cap: nat, key: Seq<char>, value: CacheEntry)
    ensures
        key_index(lru_after_put(e, cap, key, value), key) == Some(0int),
        lru_after_put(e, cap, key, value)[0] == (key, value),
{
    let f = lru_after_put(e, cap, key, value);
    assert(f[0] == (key, value));
    assert(is_first_key(f, key, 0));
    lemma_first_key_unique(f, key, 0);
}


/// A response stored at `created` is what a lookup of its key gives while it
/// is fresh.
pub proof fn lemma_put_then_get(
    e: LruView,
    cap: nat,
    key: Seq<char>,
    response: HttpResponse,
    created: u64,
    now: u64,
    ttl_secs: u64,
)
    requires
        age(created, now) < ttl_secs * 1_000_000_000,
    ensures
        get_outcome(
            lru_after_put(e, cap, key, CacheEntry { response, created_at: created }),
            key,
            now,
            ttl_secs,
        ).0 == Some(response@),
{
    lemma_put_then_found(e, cap, key, CacheEntry { response, created_at: created });
}

/// An expired entry is removed by the lookup that finds it, and the lookup
/// gives nothing.
pub proof fn lemma_expired_removed(e: LruView, key: Seq<char>, now: u64, ttl_secs: u64)
    requires
        distinct_keys(e),
        key_index(e, key) matches Some(i) && !is_fresh(e[i].1, now, ttl_secs),
    ensures
        get_outcome(e, key, now, ttl_secs).0 is None,
        key_index(get_outcome(e, key, now, ttl_secs).1, key) is None,
{
    let i = choose|i: int| is_first_key(e, key, i);
    let f = e.remove(i);
    if exists|j: int| is_first_key(f, key, j) {
        let j = choose|j: int| is_first_key(f, key, j);
        let j0 = if j < i {
            j
        } else {
            j + 1
        };
        assert(f[j] == e[j0]);
    }
}


// ---------------------------------------------------------------------------
// Retention
// ---------------------------------------------------------------------------

/// One call on the cache, as plain values: `put` of an entry under a key, or
/// `get` of a key at a time.
pub enum CacheOp {
    Put { key: Seq<char>, entry: CacheEntry },
    Get { key: Seq<char>, now: u64 },
}

/// The key a call names.
pub open spec fn op_key(op: CacheOp) -> Seq<char> {
    match op {
        CacheOp::Put { key, .. } => key,
        CacheOp::Get { key, .. } => key,
    }
}

/// The entries after one call, as `ResponseCache::put` and `get` state them.
pub open spec fn apply_op(e: LruView, cap: nat, ttl_secs: u64, op: CacheOp) -> LruView {
    match op {
        CacheOp::Put { key, entry } => lru_after_put(e, cap, key, entry),
        CacheOp::Get { key, now } => get_outcome(e, key, now, ttl_secs).1,
    }
}

/// The entries after a series of calls, in order.
pub open spec fn apply_ops(e: LruView, cap: nat, ttl_secs: u64, ops: Seq<CacheOp>) -> LruView
    decreases ops.len(),
{
    if ops.len() == 0 {
        e
    } else {
        apply_ops(apply_op(e, cap, ttl_secs, ops[0]), cap, ttl_secs, ops.drop_first())
    }
}

/// The distinct keys that a series of calls names.
pub open spec fn op_keys(ops: Seq<CacheOp>) -> Set<Seq<char>> {
    ops.map_values(|o: CacheOp| op_key(o)).to_set()
}

/// `key` holds `entry`, and every entry in front of it has a key in `touched`.
spec fn held_behind(e: LruView, key: Seq<char>, entry: CacheEntry, touched: Set<Seq<char>>) -> bool {
    &&& key_index(e, key) is Some
    &&& e[key_index(e, key)->Some_0].1 == entry
    &&& forall|j: int| 0 <= j < key_index(e, key)->Some_0 ==> touched.contains(#[trigger] e[j].0)
}

/// Distinct keys that all lie in a finite set are no more than the set holds.
proof fn lemma_keys_within(e: LruView, i: int, t: Set<Seq<char>>)
    requires
        distinct_keys(e),
        0 <= i <= e.len(),
        t.finite(),
        forall|j: int| 0 <= j < i ==> t.contains(#[trigger] e[j].0),
    ensures
        i <= t.len(),
    decreases i,
{
    if i > 0 {
        let x = e[i - 1].0;
        let t1 = t.remove(x);
        assert forall|j: int| 0 <= j < i - 1 implies t1.contains(#[trigger] e[j].0) by {
            assert(t.contains(e[j].0));
        }
        lemma_keys_within(e, i - 1, t1);
    }
}

/// Where `key` sits after its entry and the ones in front of it are placed.
proof fn lemma_key_at(f: LruView, key: Seq<char>, i: int)
    requires
        distinct_keys(f),
        0 <= i < f.len(),
        f[i].0 == key,
    ensures
        key_index(f, key) == Some(i),
{
    assert(is_first_key(f, key, i));
    lemma_first_key_unique(f, key, i);
}

/// One call on another key keeps `key` held, with that key now among those
/// touched, as long as fewer than `cap` keys have been touched.
proof fn lemma_retain_step(
    e: LruView,
    cap: nat,
    ttl_secs: u64,
    key: Seq<char>,
    entry: CacheEntry,
    touched: Set<Seq<char>>,
    op: CacheOp,
)
    requires
        distinct_keys(e),
        e.len() <= cap,
        cap > 0,
        touched.finite(),
        held_behind(e, key, entry, touched),
        op_key(op) != key,
        touched.insert(op_key(op)).len() < cap,
    ensures
        distinct_keys(apply_op(e, cap, ttl_secs, op)),
        apply_op(e, cap, ttl_secs, op).len() <= cap,
        held_behind(apply_op(e, cap, ttl_secs, op), key, entry, touched.insert(op_key(op))),
{
    let x = op_key(op);
    let t1 = touched.insert(x);
    let i = key_index(e, key)->Some_0;
    let f = apply_op(e, cap, ttl_secs, op);
    assert(is_first_key(e, key, i));
    match op {
        CacheOp::Put { key: k, entry: w } => {
            lemma_put_keeps_wf(e, cap, k, w);
        },
        CacheOp::Get { key: k, now } => {
            lemma_use_keeps_wf(e, k, cap);
            if let Some(p) = key_index(e, k) {
                assert(is_first_key(e, k, p));
                lemma_remove_keeps_distinct(e, p);
            }
        },
    }
    match key_index(e, x) {
        Some(p) => {
            assert(is_first_key(e, x, p));
            assert(p != i);
            let removed = match op {
                CacheOp::Get { key: k, now } => !is_fresh(e[p].1, now, ttl_secs),
                _ => false,
            };
            if removed {
                assert(f =~= e.remove(p));
                let i1 = if p < i {
                    i - 1
                } else {
                    i
                };
                assert(f[i1] == e[i]);
                lemma_key_at(f, key, i1);
                assert forall|j: int| 0 <= j < i1 implies t1.contains(#[trigger] f[j].0) by {
                    if j < p {
                        assert(f[j] == e[j]);
                    } else {
                        assert(f[j] == e[j + 1]);
                    }
                }
            } else {
                assert(f.len() == e.len());
                let r = e.remove(p);
                assert(f =~= seq![f[0]] + r);
                assert(f[0].0 == x);
                let i1 = if p < i {
                    i
                } else {
                    i + 1
                };
                assert(f[i1] == e[i]);
                lemma_key_at(f, key, i1);
                assert forall|j: int| 0 <= j < i1 implies t1.contains(#[trigger] f[j].0) by {
                    if j > 0 {
                        assert(f[j] == r[j - 1]);
                        if j - 1 < p {
                            assert(r[j - 1] == e[j - 1]);
                        } else {
                            assert(r[j - 1] == e[j]);
                        }
                    }
                }
            }
        },
        None => {
            assert forall|j: int| 0 <= j < e.len() implies e[j].0 != x by {
                if e[j].0 == x {
                    lemma_first_key_exists(e, x, j);
                }
            }
            match op {
                CacheOp::Put { key: k, entry: w } => {
                    let r = if e.len() == cap {
                        e.drop_last()
                    } else {
                        e
                    };
                    if e.len() == cap {
                        let t2 = t1.remove(x);
                        assert forall|j: int| 0 <= j < i implies t2.contains(#[trigger] e[j].0) by {
                            assert(touched.contains(e[j].0));
                        }
                        lemma_keys_within(e, i, t2);
                        assert(i < e.len() - 1);
                    }
                    assert(f =~= seq![(k, w)] + r);
                    assert(f[i + 1] == e[i]);
                    lemma_key_at(f, key, i + 1);
                    assert forall|j: int| 0 <= j < i + 1 implies t1.contains(#[trigger] f[j].0) by {
                        if j > 0 {
                            assert(f[j] == e[j - 1]);
                        }
                    }
                },
                CacheOp::Get { key: k, now } => {
                    assert(f == e);
                    assert forall|j: int| 0 <= j < i implies t1.contains(#[trigger] f[j].0) by {
                        assert(touched.contains(e[j].0));
                    }
                },
            }
        },
    }
}

/// A series of calls on other keys keeps `key` held while fewer than `cap`
/// keys are touched in all.
proof fn lemma_retain_ops(
    e: LruView,
    cap: nat,
    ttl_secs: u64,
    key: Seq<char>,
    entry: CacheEntry,
    touched: Set<Seq<char>>,
    ops: Seq<CacheOp>,
)
    requires
        distinct_keys(e),
        e.len() <= cap,
        cap > 0,
        touched.finite(),
        held_behind(e, key, entry, touched),
        forall|j: int| 0 <= j < ops.len() ==> op_key(#[trigger] ops[j]) != key,
        touched.union(op_keys(ops)).len() < cap,
    ensures
        distinct_keys(apply_ops(e, cap, ttl_secs, ops)),
        key_index(apply_ops(e, cap, ttl_secs, ops), key) is Some,
        apply_ops(e, cap, ttl_secs, ops)[key_index(apply_ops(e, cap, ttl_secs, ops), key)->Some_0].1
            == entry,
    decreases ops.len(),
{
    broadcast use vstd::seq_lib::seq_to_set_is_finite;

    if ops.len() > 0 {
        let op = ops[0];
        let rest = ops.drop_first();
        let t1 = touched.insert(op_key(op));
        let all = touched.union(op_keys(ops));
        let keys = ops.map_values(|o: CacheOp| op_key(o));
        assert(keys[0] == op_key(op));
        assert(t1.subset_of(all));
        vstd::set_lib::lemma_len_subset(t1, all);
        assert forall|a: Seq<char>| #[trigger] t1.union(op_keys(rest)).contains(a) == all.contains(a) by {
            let rk = rest.map_values(|o: CacheOp| op_key(o));
            if rk.contains(a) {
                let j = choose|j: int| 0 <= j < rk.len() && rk[j] == a;
                assert(keys[j + 1] == a);
            }
            if keys.contains(a) && a != op_key(op) {
                let j = choose|j: int| 0 <= j < keys.len() && keys[j] == a;
                assert(j > 0);
                assert(rk[j - 1] == a);
            }
        }
        assert(t1.union(op_keys(rest)) =~= all);
        lemma_retain_step(e, cap, ttl_secs, key, entry, touched, op);
        let e1 = apply_op(e, cap, ttl_secs, op);
        assert forall|j: int| 0 <= j < rest.len() implies op_key(#[trigger] rest[j]) != key by {
            assert(rest[j] == ops[j + 1]);
        }
        lemma_retain_ops(e1, cap, ttl_secs, key, entry, t1, rest);
    }
}

/// A response stored under `key` stays in the cache while the calls after it
/// name other keys, fewer than the capacity of them in all (stores and
/// lookups alike: a lookup of an older key moves it in front). The next
/// lookup of `key` gives the response while it is fresh; once it has
/// expired, that lookup gives nothing and removes the entry.
pub proof fn lemma_put_retained(
    e: LruView,
    cap: nat,
    ttl_secs: u64,
    key: Seq<char>,
    response: HttpResponse,
    created: u64,
    ops: Seq<CacheOp>,
    now: u64,
)
    requires
        distinct_keys(e),
        e.len() <= cap,
        cap > 0,
        forall|j: int| 0 <= j < ops.len() ==> op_key(#[trigger] ops[j]) != key,
        op_keys(ops).len() < cap,
    ensures
        ({
            let f = apply_ops(
                lru_after_put(e, cap, key, CacheEntry { response, created_at: created }),
                cap,
                ttl_secs,
                ops,
            );
            let g = get_outcome(f, key, now, ttl_secs);
            &&& g.0 == if age(created, now) < ttl_secs * 1_000_000_000 {
                Some(response@)
            } else {
                None
            }
            &&& age(created, now) >= ttl_secs * 1_000_000_000 ==> key_index(g.1, key) is None
        }),
{
    broadcast use vstd::seq_lib::seq_to_set_is_finite;

    let entry = CacheEntry { response, created_at: created };
    let f0 = lru_after_put(e, cap, key, entry);
    lemma_put_keeps_wf(e, cap, key, entry);
    lemma_put_then_found(e, cap, key, entry);
    let t0 = Set::<Seq<char>>::empty();
    assert(held_behind(f0, key, entry, t0));
    assert(t0.union(op_keys(ops)) =~= op_keys(ops));
    lemma_retain_ops(f0, cap, ttl_secs, key, entry, t0, ops);
    let f = apply_ops(f0, cap, ttl_secs, ops);
    if age(created, now) >= ttl_secs * 1_000_000_000 {
        lemma_expired_removed(f, key, now, ttl_secs);
    }
}

/// The distinct keys that the stores in a series of calls name.
pub open spec fn put_keys(ops: Seq<CacheOp>) -> Set<Seq<char>>
    decreases ops.len(),
{
    if ops.len() == 0 {
        Set::empty()
    } else {
        let rest = put_keys(ops.drop_first());
        match ops[0] {
            CacheOp::Put { key, .. } => rest.insert(key),
            CacheOp::Get { .. } => rest,
        }
    }
}

/// The distinct keys of the entries.
pub open spec fn entry_keys(e: LruView) -> Set<Seq<char>> {
    e.map_values(|p: (Seq<char>, CacheEntry)| p.0).to_set()
}

proof fn lemma_put_keys_finite(ops: Seq<CacheOp>)
    ensures
        put_keys(ops).finite(),
    decreases ops.len(),
{
    if ops.len() > 0 {
        lemma_put_keys_finite(ops.drop_first());
    }
}

/// The calls name no store of `key`, and every lookup of `key` comes no
/// later than `now`.
pub open spec fn stores_other_keys(ops: Seq<CacheOp>, key: Seq<char>, now: u64) -> bool {
    forall|j: int|
        0 <= j < ops.len() ==> match #[trigger] ops[j] {
            CacheOp::Put { key: k, .. } => k != key,
            CacheOp::Get { key: k, now: t } => k == key ==> t <= now,
        }
}

/// Every other key in the entries lies in `stored`; `key` holds `entry`
/// while it is there, and is gone only once `entry` has expired at `now`.
spec fn kept_among(
    e: LruView,
    key: Seq<char>,
    entry: CacheEntry,
    stored: Set<Seq<char>>,
    now: u64,
    ttl_secs: u64,
) -> bool {
    &&& forall|j: int| 0 <= j < e.len() && e[j].0 != key ==> stored.contains(#[trigger] e[j].0)
    &&& match key_index(e, key) {
        Some(i) => e[i].1 == entry,
        None => !is_fresh(entry, now, ttl_secs),
    }
}

/// One call keeps `key` kept, with a stored key added to those stored, while
/// fewer than `cap` keys are stored.
proof fn lemma_kept_step(
    e: LruView,
    cap: nat,
    ttl_secs: u64,
    key: Seq<char>,
    entry: CacheEntry,
    stored: Set<Seq<char>>,
    now: u64,
    op: CacheOp,
)
    requires
        distinct_keys(e),
        e.len() <= cap,
        cap > 0,
        stored.finite(),
        kept_among(e, key, entry, stored, now, ttl_secs),
        match op {
            CacheOp::Put { key: k, .. } => k != key && stored.insert(k).len() < cap,
            CacheOp::Get { key: k, now: t } => k == key ==> t <= now,
        },
    ensures
        distinct_keys(apply_op(e, cap, ttl_secs, op)),
        apply_op(e, cap, ttl_secs, op).len() <= cap,
        kept_among(
            apply_op(e, cap, ttl_secs, op),
            key,
            entry,
            match op {
                CacheOp::Put { key: k, .. } => stored.insert(k),
                CacheOp::Get { .. } => stored,
            },
            now,
            ttl_secs,
        ),
{
    let x = op_key(op);
    let f = apply_op(e, cap, ttl_secs, op);
    match op {
        CacheOp::Put { key: k, entry: w } => {
            lemma_put_keeps_wf(e, cap, k, w);
        },
        CacheOp::Get { key: k, now: t } => {
            lemma_use_keeps_wf(e, k, cap);
            if let Some(p) = key_index(e, k) {
                assert(is_first_key(e, k, p));
                lemma_remove_keeps_distinct(e, p);
            }
        },
    }
    let t1 = match op {
        CacheOp::Put { key: k, .. } => stored.insert(k),
        CacheOp::Get { .. } => stored,
    };
    match key_index(e, x) {
        Some(p) => {
            assert(is_first_key(e, x, p));
            let removed = match op {
                CacheOp::Get { key: k, now: t } => !is_fresh(e[p].1, t, ttl_secs),
                _ => false,
            };
            if removed {
                assert(f =~= e.remove(p));
                assert forall|j: int| 0 <= j < f.len() && f[j].0 != key implies t1.contains(
                    #[trigger] f[j].0,
                ) by {
                    if j < p {
                        assert(f[j] == e[j]);
                    } else {
                        assert(f[j] == e[j + 1]);
                    }
                }
                if x == key {
                    // The stored entry expired at a lookup no later than `now`.
                    assert(e[p].1 == entry);
                    assert forall|j: int| 0 <= j < f.len() implies f[j].0 != key by {
                        if j < p {
                            assert(f[j] == e[j]);
                        } else {
                            assert(f[j] == e[j + 1]);
                            assert(j + 1 != p);
                        }
                    }
                    if let Some(q) = key_index(f, key) {
                        assert(is_first_key(f, key, q));
                    }
                } else {
                    match key_index(e, key) {
                        Some(i) => {
                            assert(is_first_key(e, key, i));
                            let i1 = if p < i {
                                i - 1
                            } else {
                                i
                            };
                            assert(f[i1] == e[i]);
                            lemma_key_at(f, key, i1);
                        },
                        None => {
                            if let Some(q) = key_index(f, key) {
                                assert(is_first_key(f, key, q));
                                let q0 = if q < p {
                                    q
                                } else {
                                    q + 1
                                };
                                assert(f[q] == e[q0]);
                                lemma_first_key_exists(e, key, q0);
                            }
                        },
                    }
                }
            } else {
                let r = e.remove(p);
                assert(f =~= seq![f[0]] + r);
                assert(f[0].0 == x);
                let front = match op {
                    CacheOp::Put { key: k, entry: w } => (k, w),
                    CacheOp::Get { .. } => e[p],
                };
                assert(f[0] == front);
                assert forall|j: int| 0 <= j < f.len() && f[j].0 != key implies t1.contains(
                    #[trigger] f[j].0,
                ) by {
                    if j > 0 {
                        assert(f[j] == r[j - 1]);
                        if j - 1 < p {
                            assert(r[j - 1] == e[j - 1]);
                        } else {
                            assert(r[j - 1] == e[j]);
                        }
                    } else {
                        match op {
                            CacheOp::Put { key: k, .. } => {},
                            CacheOp::Get { .. } => {
                                assert(e[p].0 == x);
                            },
                        }
                    }
                }
                if x == key {
                    assert(f[0] == e[p]);
                    lemma_key_at(f, key, 0);
                } else {
                    match key_index(e, key) {
                        Some(i) => {
                            assert(is_first_key(e, key, i));
                            assert(p != i);
                            let i1 = if p < i {
                                i
                            } else {
                                i + 1
                            };
                            assert(f[i1] == r[i1 - 1]);
                            assert(f[i1] == e[i]);
                            lemma_key_at(f, key, i1);
                        },
                        None => {
                            if let Some(q) = key_index(f, key) {
                                assert(is_first_key(f, key, q));
                                assert(q > 0);
                                let q0 = if q - 1 < p {
                                    q - 1
                                } else {
                                    q
                                };
                                assert(f[q] == r[q - 1]);
                                assert(f[q] == e[q0]);
                                lemma_first_key_exists(e, key, q0);
                            }
                        },
                    }
                }
            }
        },
        None => {
            assert forall|j: int| 0 <= j < e.len() implies e[j].0 != x by {
                if e[j].0 == x {
                    lemma_first_key_exists(e, x, j);
                }
            }
            match op {
                CacheOp::Put { key: k, entry: w } => {
                    let present = key_index(e, key) is Some;
                    if present && e.len() == cap {
                        // Every key but `key` is a stored key other than `k`.
                        let s2 = t1.remove(k).insert(key);
                        assert forall|j: int| 0 <= j < e.len() implies s2.contains(
                            #[trigger] e[j].0,
                        ) by {
                            if e[j].0 != key {
                                assert(stored.contains(e[j].0));
                            }
                        }
                        lemma_keys_within(e, e.len() as int, s2);
                        assert(false);
                    }
                    let r = if e.len() == cap {
                        e.drop_last()
                    } else {
                        e
                    };
                    assert(f =~= seq![(k, w)] + r);
                    assert forall|j: int| 0 <= j < f.len() && f[j].0 != key implies t1.contains(
                        #[trigger] f[j].0,
                    ) by {
                        if j > 0 {
                            assert(f[j] == e[j - 1]);
                        }
                    }
                    match key_index(e, key) {
                        Some(i) => {
                            assert(is_first_key(e, key, i));
                            assert(f[i + 1] == e[i]);
                            lemma_key_at(f, key, i + 1);
                        },
                        None => {
                            if let Some(q) = key_index(f, key) {
                                assert(is_first_key(f, key, q));
                                assert(q > 0);
                                assert(f[q] == e[q - 1]);
                                lemma_first_key_exists(e, key, q - 1);
                            }
                        },
                    }
                },
                CacheOp::Get { .. } => {
                    assert(f == e);
                },
            }
        },
    }
}

/// A series of calls keeps `key` kept while fewer than `cap` keys are
/// stored in all.
proof fn lemma_kept_ops(
    e: LruView,
    cap: nat,
    ttl_secs: u64,
    key: Seq<char>,
    entry: CacheEntry,
    stored: Set<Seq<char>>,
    now: u64,
    ops: Seq<CacheOp>,
)
    requires
        distinct_keys(e),
        e.len() <= cap,
        cap > 0,
        stored.finite(),
        kept_among(e, key, entry, stored, now, ttl_secs),
        stores_other_keys(ops, key, now),
        stored.union(put_keys(ops)).len() < cap,
    ensures
        distinct_keys(apply_ops(e, cap, ttl_secs, ops)),
        kept_among(apply_ops(e, cap, ttl_secs, ops), key, entry, stored.union(put_keys(ops)), now, ttl_secs),
    decreases ops.len(),
{
    lemma_put_keys_finite(ops);
    if ops.len() == 0 {
        assert(stored.union(put_keys(ops)) =~= stored);
    } else {
        let op = ops[0];
        let rest = ops.drop_first();
        lemma_put_keys_finite(rest);
        let all = stored.union(put_keys(ops));
        let t1 = match op {
            CacheOp::Put { key: k, .. } => stored.insert(k),
            CacheOp::Get { .. } => stored,
        };
        assert(t1.union(put_keys(rest)) =~= all);
        assert(t1.subset_of(all));
        vstd::set_lib::lemma_len_subset(t1, all);
        assert(match ops[0] {
            CacheOp::Put { key: k, .. } => k != key,
            CacheOp::Get { key: k, now: t } => k == key ==> t <= now,
        });
        lemma_kept_step(e, cap, ttl_secs, key, entry, stored, now, op);
        assert forall|j: int| 0 <= j < rest.len() implies match #[trigger] rest[j] {
            CacheOp::Put { key: k, .. } => k != key,
            CacheOp::Get { key: k, now: t } => k == key ==> t <= now,
        } by {
            assert(rest[j] == ops[j + 1]);
        }
        lemma_kept_ops(apply_op(e, cap, ttl_secs, op), cap, ttl_secs, key, entry, t1, now, rest);
    }
}

/// A response stored under `key` stays in the cache while fewer distinct
/// keys than the capacity are in the cache beforehand or stored afterwards,
/// whatever is looked up in between; the key itself is not stored again,
/// and the clock does not run backwards to `now`. A lookup of `key` at
/// `now` then gives the response while it is fresh; once it has expired,
/// that lookup gives nothing and leaves no entry for `key`. For a cache made
/// empty this reads: fewer than capacity other keys stored since.
pub proof fn lemma_put_kept_among_stores(
    e: LruView,
    cap: nat,
    ttl_secs: u64,
    key: Seq<char>,
    response: HttpResponse,
    created: u64,
    ops: Seq<CacheOp>,
    now: u64,
)
    requires
        distinct_keys(e),
        e.len() <= cap,
        cap > 0,
        stores_other_keys(ops, key, now),
        entry_keys(e).union(put_keys(ops)).len() < cap,
    ensures
        ({
            let f = apply_ops(
                lru_after_put(e, cap, key, CacheEntry { response, created_at: created }),
                cap,
                ttl_secs,
                ops,
            );
            let g = get_outcome(f, key, now, ttl_secs);
            &&& g.0 == if age(created, now) < ttl_secs * 1_000_000_000 {
                Some(response@)
            } else {
                None
            }
            &&& age(created, now) >= ttl_secs * 1_000_000_000 ==> key_index(g.1, key) is None
        }),
{
    broadcast use vstd::seq_lib::seq_to_set_is_finite;

    let entry = CacheEntry { response, created_at: created };
    let f0 = lru_after_put(e, cap, key, entry);
    let t0 = entry_keys(e);
    lemma_put_keeps_wf(e, cap, key, entry);
    lemma_put_then_found(e, cap, key, entry);
    let ks = e.map_values(|p: (Seq<char>, CacheEntry)| p.0);
    assert forall|j: int| 0 <= j < f0.len() && f0[j].0 != key implies t0.contains(#[trigger] f0[j].0) by {
        assert(j > 0);
        let i = match key_index(e, key) {
            Some(i) => i,
            None => -1,
        };
        let j0 = if i >= 0 && j - 1 >= i {
            j
        } else {
            j - 1
        };
        if let Some(p) = key_index(e, key) {
            assert(f0[j] == e.remove(p)[j - 1]);
        } else if e.len() == cap {
            assert(f0[j] == e.drop_last()[j - 1]);
        } else {
            assert(f0[j] == e[j - 1]);
        }
        assert(f0[j] == e[j0]);
        assert(ks[j0] == e[j0].0);
    }
    assert(kept_among(f0, key, entry, t0, now, ttl_secs));
    lemma_kept_ops(f0, cap, ttl_secs, key, entry, t0, now, ops);
    let f = apply_ops(f0, cap, ttl_secs, ops);
    match key_index(f, key) {
        Some(i) => {
            if age(created, now) >= ttl_secs * 1_000_000_000 {
                lemma_expired_removed(f, key, now, ttl_secs);
            }
        },
        None => {},
    }
}

} // verus!
