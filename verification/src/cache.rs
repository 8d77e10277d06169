//! A small least-recently-used cache with optional time-to-live, used for
//! OCR and translation result caching.
//!
//! The cache is modelled as a sequence of `(key, value)` pairs in recency
//! order: index 0 is the most recently used entry, the last index the least
//! recently used one. Keys are distinct and there are never more entries than
//! the capacity.
use std::time::Duration;
use std::time::Instant;
use vstd::prelude::*;

use crate::clock::{duration_nanos, elapsed_since, instant_now};
use crate::text::str_equal;

verus! {

/// Keys that can be compared for equality by their view.
pub trait CacheKey: View + Sized {
    fn same_key(&self, other: &Self) -> (same: bool)
        ensures
            same == (self@ == other@),
    ;
}

impl CacheKey for String {
    fn same_key(&self, other: &Self) -> (same: bool) {
        self.eq(other)
    }
}

impl<'a> CacheKey for &'a str {
    fn same_key(&self, other: &Self) -> (same: bool) {
        str_equal(*self, *other)
    }
}

impl CacheKey for u64 {
    fn same_key(&self, other: &Self) -> (same: bool) {
        *self == *other
    }
}

/// `i` is a position of key `k` in `s`.
pub open spec fn key_at<KV, V>(s: Seq<(KV, V)>, k: KV, i: int) -> bool {
    0 <= i < s.len() && s[i].0 == k
}

/// Some entry of `s` has key `k`.
pub open spec fn has_key<KV, V>(s: Seq<(KV, V)>, k: KV) -> bool {
    exists|i: int| key_at(s, k, i)
}

/// The position of key `k` in `s` (meaningful when `has_key(s, k)`).
pub open spec fn slot_of<KV, V>(s: Seq<(KV, V)>, k: KV) -> int {
    choose|i: int| key_at(s, k, i)
}

/// No key occurs twice in `s`.
pub open spec fn distinct_keys<KV, V>(s: Seq<(KV, V)>) -> bool {
    forall|i: int, j: int| 0 <= i < s.len() && 0 <= j < s.len() && i != j ==> s[i].0 != s[j].0
}

/// `s` with its entry at position `i` moved to the front (made most recent).
pub open spec fn lru_touch<KV, V>(s: Seq<(KV, V)>, i: int) -> Seq<(KV, V)> {
    seq![s[i]] + s.remove(i)
}

/// The entries after inserting `(k, v)` into a cache of capacity `cap`
/// holding `s`: nothing is stored when `cap` is 0; an existing key gets the
/// new value and becomes most recent; otherwise, when the cache is full, the
/// least recently used entry (the last) is evicted, and the new entry is put
/// first.
pub open spec fn lru_insert<KV, V>(s: Seq<(KV, V)>, cap: nat, k: KV, v: V) -> Seq<(KV, V)> {
    if cap == 0 {
        s
    } else if has_key(s, k) {
        seq![(k, v)] + s.remove(slot_of(s, k))
    } else if s.len() >= cap {
        seq![(k, v)] + s.drop_last()
    } else {
        seq![(k, v)] + s
    }
}

/// The entries after removing key `k`.
pub open spec fn lru_remove<KV, V>(s: Seq<(KV, V)>, k: KV) -> Seq<(KV, V)> {
    if has_key(s, k) {
        s.remove(slot_of(s, k))
    } else {
        s
    }
}

/// A counter increment that wraps around at `u64::MAX`.
pub open spec fn bump(x: u64) -> u64 {
    if x == u64::MAX {
        0
    } else {
        (x + 1) as u64
    }
}

/// In a sequence with distinct keys, a key's position is unique.
pub proof fn lemma_slot_unique<KV, V>(s: Seq<(KV, V)>, k: KV, i: int)
    requires
        distinct_keys(s),
        key_at(s, k, i),
    ensures
        has_key(s, k),
        slot_of(s, k) == i,
{
    assert(key_at(s, k, i));
    let j = slot_of(s, k);
    assert(key_at(s, k, j));
}

/// Read after write: right after `(k, v)` is inserted into a cache of
/// non-zero capacity, `k` is the most recently used key and maps to `v`, so
/// a `get` of `k` (without a time-to-live) returns `v`.
pub proof fn law_insert_then_get<KV, V>(s: Seq<(KV, V)>, cap: nat, k: KV, v: V)
    requires
        distinct_keys(s),
        cap > 0,
    ensures
        has_key(lru_insert(s, cap, k, v), k),
        slot_of(lru_insert(s, cap, k, v), k) == 0,
        lru_insert(s, cap, k, v)[0] == (k, v),
        distinct_keys(lru_insert(s, cap, k, v)),
{
    let t = lru_insert(s, cap, k, v);
    if has_key(s, k) {
        let i = slot_of(s, k);
        assert(key_at(s, k, i));
        assert forall|a: int, b: int| 0 <= a < t.len() && 0 <= b < t.len() && a != b implies t[a].0
            != t[b].0 by {
            let oa = if a == 0 { i } else if a - 1 < i { a - 1 } else { a };
            let ob = if b == 0 { i } else if b - 1 < i { b - 1 } else { b };
            assert(t[a].0 == s[oa].0);
            assert(t[b].0 == s[ob].0);
        }
    } else {
        let base = if s.len() >= cap { s.drop_last() } else { s };
        assert(t == seq![(k, v)] + base);
        assert forall|a: int, b: int| 0 <= a < t.len() && 0 <= b < t.len() && a != b implies t[a].0
            != t[b].0 by {
            if a > 0 {
                assert(t[a] == s[a - 1]);
                assert(!key_at(s, k, a - 1));
            }
            if b > 0 {
                assert(t[b] == s[b - 1]);
                assert(!key_at(s, k, b - 1));
            }
        }
    }
    assert(key_at(t, k, 0));
    lemma_slot_unique(t, k, 0);
}

/// The cache never holds more entries than its capacity.
pub proof fn law_insert_within_capacity<KV, V>(s: Seq<(KV, V)>, cap: nat, k: KV, v: V)
    requires
        s.len() <= cap,
    ensures
        lru_insert(s, cap, k, v).len() <= cap,
{
}

/// A cache of capacity 0 stores nothing.
pub proof fn law_zero_capacity_stores_nothing<KV, V>(s: Seq<(KV, V)>, k: KV, v: V)
    ensures
        lru_insert(s, 0, k, v) == s,
{
}

/// Re-inserting a present key updates its value without changing the
/// number of entries.
pub proof fn law_update_keeps_size<KV, V>(s: Seq<(KV, V)>, cap: nat, k: KV, v: V)
    requires
        has_key(s, k),
        cap > 0,
    ensures
        lru_insert(s, cap, k, v).len() == s.len(),
        lru_insert(s, cap, k, v)[0] == (k, v),
{
    assert(key_at(s, k, slot_of(s, k)));
}

/// Inserting a new key into a full cache evicts exactly the least recently
/// used entry (the last one); every other entry stays, in the same order.
pub proof fn law_full_insert_evicts_least_recent<KV, V>(s: Seq<(KV, V)>, cap: nat, k: KV, v: V)
    requires
        distinct_keys(s),
        cap > 0,
        s.len() == cap,
        !has_key(s, k),
    ensures
        lru_insert(s, cap, k, v) == seq![(k, v)] + s.drop_last(),
        !has_key(lru_insert(s, cap, k, v), s.last().0),
        forall|j: int| 0 <= j < s.len() - 1 ==> has_key(lru_insert(s, cap, k, v), #[trigger] s[j].0),
{
    let t = lru_insert(s, cap, k, v);
    let last = s.last().0;
    assert(last != k) by {
        if last == k {
            assert(key_at(s, k, s.len() - 1));
        }
    }
    assert forall|i: int| !key_at(t, last, i) by {
        if 0 < i < t.len() {
            assert(t[i] == s[i - 1]);
        }
    }
    assert forall|j: int| 0 <= j < s.len() - 1 implies has_key(t, #[trigger] s[j].0) by {
        assert(key_at(t, s[j].0, j + 1));
    }
}

/// After a key is removed, it is absent.
pub proof fn law_remove_then_absent<KV, V>(s: Seq<(KV, V)>, k: KV)
    requires
        distinct_keys(s),
    ensures
        !has_key(lru_remove(s, k), k),
{
    if has_key(s, k) {
        let i = slot_of(s, k);
        let t = lru_remove(s, k);
        assert(key_at(s, k, i));
        assert forall|j: int| !key_at(t, k, j) by {
            if 0 <= j < t.len() {
                let oj = if j < i { j } else { j + 1 };
                assert(t[j] == s[oj]);
            }
        }
    }
}

/// A hit moves the entry to the front and keeps every entry.
pub proof fn law_touch_keeps_entries<KV, V>(s: Seq<(KV, V)>, i: int)
    requires
        0 <= i < s.len(),
    ensures
        lru_touch(s, i).len() == s.len(),
        lru_touch(s, i)[0] == s[i],
        lru_touch(s, i).to_multiset() == s.to_multiset(),
{
    let t = lru_touch(s, i);
    vstd::seq_lib::lemma_seq_union_to_multiset_commutative(seq![s[i]], s.remove(i));
    assert(seq![s[i]] + s.remove(i) == t);
    s.remove(i).to_multiset_ensures();
    seq![s[i]].to_multiset_ensures();
    vstd::seq_lib::lemma_multiset_commutative(seq![s[i]], s.remove(i));
    s.to_multiset_ensures();
    assert(s.remove(i).to_multiset() == s.to_multiset().remove(s[i]));
}

struct Entry<K, V> {
    key: K,
    value: V,
    last_used: Instant,
}

/// Least-recently-used cache with optional time-to-live.
///
/// `get` updates recency, `insert` evicts the least recently used entry when
/// over capacity. Entries whose TTL expired are dropped lazily.
pub struct LruCache<K, V> {
    capacity: usize,
    ttl_nanos: Option<u128>,
    entries: Vec<Entry<K, V>>,
    hits: u64,
    misses: u64,
}

impl<K: CacheKey, V> View for LruCache<K, V> {
    type V = Seq<(<K as View>::V, V)>;

    closed spec fn view(&self) -> Seq<(<K as View>::V, V)> {
        self.entries@.map_values(|e: Entry<K, V>| (e.key@, e.value))
    }
}

impl<K: CacheKey, V> LruCache<K, V> {
    /// The maximum number of entries.
    pub closed spec fn capacity_spec(&self) -> nat {
        self.capacity as nat
    }

    /// Whether entries expire after a time-to-live.
    pub closed spec fn expires(&self) -> bool {
        self.ttl_nanos is Some
    }

    pub closed spec fn hit_count(&self) -> u64 {
        self.hits
    }

    pub closed spec fn miss_count(&self) -> u64 {
        self.misses
    }

    /// Well-formedness: distinct keys and no more entries than the capacity.
    pub closed spec fn wf(&self) -> bool {
        &&& self@.len() <= self.capacity
        &&& distinct_keys(self@)
    }

    pub fn new(capacity: usize) -> (c: Self)
        ensures
            c.wf(),
            c@ == Seq::<(<K as View>::V, V)>::empty(),
            c.capacity_spec() == capacity,
            !c.expires(),
            c.hit_count() == 0,
            c.miss_count() == 0,
    {
        let c = LruCache { capacity, ttl_nanos: None, entries: Vec::new(), hits: 0, misses: 0 };
        assert(c@ =~= Seq::<(<K as View>::V, V)>::empty());
        c
    }

    pub fn with_ttl(capacity: usize, ttl: Duration) -> (c: Self)
        ensures
            c.wf(),
            c@ == Seq::<(<K as View>::V, V)>::empty(),
            c.capacity_spec() == capacity,
            c.expires(),
            c.hit_count() == 0,
            c.miss_count() == 0,
    {
        let mut s = Self::new(capacity);
        s.ttl_nanos = Some(duration_nanos(&ttl));
        s
    }

    /// Position of `key`, if present.
    fn find(&self, key: &K) -> (pos: Option<usize>)
        requires
            self.wf(),
        ensures
            match pos {
                Some(i) => key_at(self@, key@, i as int) && slot_of(self@, key@) == i,
                None => !has_key(self@, key@),
            },
    {
        let mut i: usize = 0;
        while i < self.entries.len()
            invariant
                self.wf(),
                i <= self.entries.len(),
                forall|j: int| 0 <= j < i ==> self@[j].0 != key@,
            decreases self.entries.len() - i,
        {
            if self.entries[i].key.same_key(key) {
                proof {
                    lemma_slot_unique(self@, key@, i as int);
                }
                return Some(i);
            }
            i = i + 1;
        }
        None
    }

    /// Whether `key` is present and its time-to-live has run out.
    fn is_expired(&self, key: &K) -> (r: Option<usize>)
        requires
            self.wf(),
        ensures
            match r {
                Some(i) => self.expires() && key_at(self@, key@, i as int) && slot_of(self@, key@)
                    == i,
                None => true,
            },
            // Otherwise the answer rests on a reading of the clock.
            !self.expires() ==> r is None,
            !has_key(self@, key@) ==> r is None,
    {
        match self.ttl_nanos {
            None => None,
            Some(ttl) => match self.find(key) {
                Some(i) => {
                    let age = elapsed_since(&self.entries[i].last_used);
                    if duration_nanos(&age) > ttl {
                        Some(i)
                    } else {
                        None
                    }
                },
                None => None,
            },
        }
    }

    /// Moves the entry at `i` to the front and refreshes its timestamp.
    fn touch(&mut self, i: usize)
        requires
            old(self).wf(),
            i < old(self)@.len(),
        ensures
            final(self).wf(),
            final(self)@ == lru_touch(old(self)@, i as int),
            final(self).capacity == old(self).capacity,
            final(self).ttl_nanos == old(self).ttl_nanos,
            final(self).hits == old(self).hits,
            final(self).misses == old(self).misses,
    {
        let ghost before = self@;
        let mut e = self.entries.remove(i);
        e.last_used = instant_now();
        self.entries.insert(0, e);
        proof {
            assert(self@ =~= lru_touch(before, i as int));
            let t = lru_touch(before, i as int);
            assert forall|a: int, b: int| 0 <= a < t.len() && 0 <= b < t.len() && a != b implies t[a].0
                != t[b].0 by {
                let oa = if a == 0 { i as int } else if a - 1 < i { a - 1 } else { a };
                let ob = if b == 0 { i as int } else if b - 1 < i { b - 1 } else { b };
                assert(t[a] == before[oa]);
                assert(t[b] == before[ob]);
            }
        }
    }

    /// Removes the least recently used entry.
    fn evict_lru(&mut self)
        requires
            old(self).wf(),
        ensures
            final(self).wf(),
            final(self)@ == (if old(self)@.len() > 0 {
                old(self)@.drop_last()
            } else {
                old(self)@
            }),
            final(self).capacity == old(self).capacity,
            final(self).ttl_nanos == old(self).ttl_nanos,
            final(self).hits == old(self).hits,
            final(self).misses == old(self).misses,
    {
        let ghost before = self@;
        let _ = self.entries.pop();
        assert(self@ =~= (if before.len() > 0 {
            before.drop_last()
        } else {
            before
        }));
    }

    /// Looks up `key`. A hit makes the entry the most recently used one; an
    /// entry whose time-to-live ran out is dropped and counts as a miss.
    pub fn get(&mut self, key: &K) -> (r: Option<&V>)
        requires
            old(self).wf(),
        ensures
            final(self).wf(),
            final(self).capacity_spec() == old(self).capacity_spec(),
            final(self).expires() == old(self).expires(),
            !has_key(old(self)@, key@) ==> {
                &&& r is None
                &&& final(self)@ == old(self)@
                &&& final(self).hit_count() == old(self).hit_count()
                &&& final(self).miss_count() == bump(old(self).miss_count())
            },
            has_key(old(self)@, key@) ==> {
                let i = slot_of(old(self)@, key@);
                ||| {
                    &&& r matches Some(v) && *v == old(self)@[i].1
                    &&& final(self)@ == lru_touch(old(self)@, i)
                    &&& final(self).hit_count() == bump(old(self).hit_count())
                    &&& final(self).miss_count() == old(self).miss_count()
                }
                ||| {
                    &&& r is None
                    &&& old(self).expires()
                    &&& final(self)@ == old(self)@.remove(i)
                    &&& final(self).hit_count() == old(self).hit_count()
                    &&& final(self).miss_count() == bump(old(self).miss_count())
                }
            },
    {
        if let Some(_) = self.is_expired(key) {
            let _ = self.remove(key);
            self.misses = if self.misses == u64::MAX { 0 } else { self.misses + 1 };
            return None;
        }
        match self.find(key) {
            None => {
                self.misses = if self.misses == u64::MAX { 0 } else { self.misses + 1 };
                None
            },
            Some(i) => {
                let ghost before = self@;
                self.touch(i);
                self.hits = if self.hits == u64::MAX { 0 } else { self.hits + 1 };
                assert(self@[0] == before[i as int]);
                assert(self@[0].1 == self.entries@[0].value);
                Some(&self.entries[0].value)
            },
        }
    }

    /// Stores `value` under `key` (see `lru_insert`).
    pub fn insert(&mut self, key: K, value: V)
        requires
            old(self).wf(),
        ensures
            final(self).wf(),
            final(self)@ == lru_insert(old(self)@, old(self).capacity_spec(), key@, value),
            final(self).capacity_spec() == old(self).capacity_spec(),
            final(self).expires() == old(self).expires(),
            final(self).hit_count() == old(self).hit_count(),
            final(self).miss_count() == old(self).miss_count(),
    {
        if self.capacity == 0 {
            return;
        }
        let ghost before = self@;
        match self.find(&key) {
            Some(i) => {
                let mut e = self.entries.remove(i);
                e.value = value;
                e.last_used = instant_now();
                self.entries.insert(0, e);
                proof {
                    let t = self@;
                    assert(t =~= seq![(key@, value)] + before.remove(i as int));
                    assert forall|a: int, b: int|
                        0 <= a < t.len() && 0 <= b < t.len() && a != b implies t[a].0 != t[b].0 by {
                        let oa = if a == 0 { i as int } else if a - 1 < i { a - 1 } else { a };
                        let ob = if b == 0 { i as int } else if b - 1 < i { b - 1 } else { b };
                        assert(t[a].0 == before[oa].0);
                        assert(t[b].0 == before[ob].0);
                    }
                }
            },
            None => {
                if self.entries.len() >= self.capacity {
                    self.evict_lru();
                }
                let ghost mid = self@;
                let e = Entry { key, value, last_used: instant_now() };
                self.entries.insert(0, e);
                proof {
                    let t = self@;
                    assert(t =~= seq![(key@, value)] + mid);
                    assert forall|a: int, b: int|
                        0 <= a < t.len() && 0 <= b < t.len() && a != b implies t[a].0 != t[b].0 by {
                        if a > 0 && b > 0 {
                            assert(t[a] == mid[a - 1]);
                            assert(t[b] == mid[b - 1]);
                        } else if a == 0 {
                            assert(t[b] == mid[b - 1]);
                            assert(!key_at(before, key@, b - 1));
                            if before.len() >= self.capacity {
                                assert(mid[b - 1] == before[b - 1]);
                            }
                        } else {
                            assert(t[a] == mid[a - 1]);
                            assert(!key_at(before, key@, a - 1));
                            if before.len() >= self.capacity {
                                assert(mid[a - 1] == before[a - 1]);
                            }
                        }
                    }
                }
            },
        }
    }

    /// Removes `key`, returning its value when it was present.
    pub fn remove(&mut self, key: &K) -> (r: Option<V>)
        requires
            old(self).wf(),
        ensures
            final(self).wf(),
            final(self)@ == lru_remove(old(self)@, key@),
            r == (if has_key(old(self)@, key@) {
                Some(old(self)@[slot_of(old(self)@, key@)].1)
            } else {
                None::<V>
            }),
            final(self).capacity_spec() == old(self).capacity_spec(),
            final(self).expires() == old(self).expires(),
            final(self).hit_count() == old(self).hit_count(),
            final(self).miss_count() == old(self).miss_count(),
    {
        let ghost before = self@;
        match self.find(key) {
            Some(i) => {
                let e = self.entries.remove(i);
                proof {
                    let t = self@;
                    assert(t =~= before.remove(i as int));
                    assert forall|a: int, b: int|
                        0 <= a < t.len() && 0 <= b < t.len() && a != b implies t[a].0 != t[b].0 by {
                        let oa = if a < i { a } else { a + 1 };
                        let ob = if b < i { b } else { b + 1 };
                        assert(t[a] == before[oa]);
                        assert(t[b] == before[ob]);
                    }
                }
                Some(e.value)
            },
            None => None,
        }
    }

    /// Removes every entry (the hit and miss counters are kept).
    pub fn clear(&mut self)
        requires
            old(self).wf(),
        ensures
            final(self).wf(),
            final(self)@ == Seq::<(<K as View>::V, V)>::empty(),
            final(self).capacity_spec() == old(self).capacity_spec(),
            final(self).expires() == old(self).expires(),
            final(self).hit_count() == old(self).hit_count(),
            final(self).miss_count() == old(self).miss_count(),
    {
        self.entries.clear();
        assert(self@ =~= Seq::<(<K as View>::V, V)>::empty());
    }

    pub fn len(&self) -> (n: usize)
        ensures
            n == self@.len(),
    {
        self.entries.len()
    }

    pub fn is_empty(&self) -> (b: bool)
        ensures
            b == (self@.len() == 0),
    {
        self.entries.len() == 0
    }

    /// `(hits, misses)` counted by `get`.
    pub fn stats(&self) -> (r: (u64, u64))
        ensures
            r == (self.hit_count(), self.miss_count()),
    {
        (self.hits, self.misses)
    }
}

} // verus!
