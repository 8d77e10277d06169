//! Translation result cache. Keyed by (source, target, normalized text).
//! In-memory LRU with optional TTL, so repeated text never re-hits the API.
use std::time::Duration;
use vstd::prelude::*;

use crate::cache::{bump, has_key, key_at, lru_insert, lru_touch, slot_of, CacheKey, LruCache};
use crate::text::normalized;
use crate::translation::normalize_text;

verus! {

struct TranslationKey {
    src: String,
    tgt: String,
    text: String,
}

impl View for TranslationKey {
    type V = (Seq<char>, Seq<char>, Seq<char>);

    closed spec fn view(&self) -> (Seq<char>, Seq<char>, Seq<char>) {
        (self.src@, self.tgt@, self.text@)
    }
}

impl CacheKey for TranslationKey {
    fn same_key(&self, other: &Self) -> (same: bool) {
        self.src.eq(&other.src) && self.tgt.eq(&other.tgt) && self.text.eq(&other.text)
    }
}

/// The cache key of a lookup: the language pair and the normalized text.
pub open spec fn translation_key(src: Seq<char>, tgt: Seq<char>, text: Seq<char>) -> (
    Seq<char>,
    Seq<char>,
    Seq<char>,
) {
    (src, tgt, normalized(text))
}

pub struct TranslationCache {
    inner: LruCache<TranslationKey, String>,
}

impl View for TranslationCache {
    type V = Seq<((Seq<char>, Seq<char>, Seq<char>), String)>;

    closed spec fn view(&self) -> Seq<((Seq<char>, Seq<char>, Seq<char>), String)> {
        self.inner@
    }
}

impl TranslationCache {
    pub closed spec fn wf(&self) -> bool {
        self.inner.wf()
    }

    pub closed spec fn capacity_spec(&self) -> nat {
        self.inner.capacity_spec()
    }

    pub closed spec fn expires(&self) -> bool {
        self.inner.expires()
    }

    pub closed spec fn hit_count(&self) -> u64 {
        self.inner.hit_count()
    }

    pub closed spec fn miss_count(&self) -> u64 {
        self.inner.miss_count()
    }

    pub fn new(capacity: usize) -> (c: Self)
        ensures
            c.wf(),
            c@.len() == 0,
            c.capacity_spec() == capacity,
            !c.expires(),
            c.hit_count() == 0,
            c.miss_count() == 0,
    {
        TranslationCache { inner: LruCache::new(capacity) }
    }

    pub fn with_ttl(capacity: usize, ttl: Duration) -> (c: Self)
        ensures
            c.wf(),
            c@.len() == 0,
            c.capacity_spec() == capacity,
            c.expires(),
            c.hit_count() == 0,
            c.miss_count() == 0,
    {
        TranslationCache { inner: LruCache::with_ttl(capacity, ttl) }
    }

    /// Look up a translation. `src` may be empty for auto-detect.
    pub fn get(&mut self, src: &str, tgt: &str, text: &str) -> (r: Option<String>)
        requires
            old(self).wf(),
        ensures
            final(self).wf(),
            final(self).capacity_spec() == old(self).capacity_spec(),
            final(self).expires() == old(self).expires(),
            ({
                let k = translation_key(src@, tgt@, text@);
                &&& !has_key(old(self)@, k) ==> {
                    &&& r is None
                    &&& final(self)@ == old(self)@
                    &&& final(self).hit_count() == old(self).hit_count()
                    &&& final(self).miss_count() == bump(old(self).miss_count())
                }
                &&& has_key(old(self)@, k) ==> {
                    let i = slot_of(old(self)@, k);
                    ||| {
                        &&& r == Some(old(self)@[i].1)
                        &&& final(self)@ == lru_touch(old(self)@, i)
                        &&& final(self).hit_count() == bump(old(self).hit_count())
                        &&& final(self).miss_count() == old(self).miss_count()
                    }
                    ||| {
                        &&& r is None
                        &&& old(self).expires()
                        &&& final(self)@ == old(self)@.remove(i)
                        &&& final(self).hit_count() == old(self).hit_count()
                        &&& final(self).miss_count() == bump(old(self).miss_count())
                    }
                }
            }),
    {
        let key = TranslationKey {
            src: String::from_str(src),
            tgt: String::from_str(tgt),
            text: normalize_text(text),
        };
        match self.inner.get(&key) {
            Some(v) => Some(v.clone()),
            None => None,
        }
    }

    pub fn insert(&mut self, src: &str, tgt: &str, text: &str, translation: String)
        requires
            old(self).wf(),
        ensures
            final(self).wf(),
            final(self)@ == lru_insert(
                old(self)@,
                old(self).capacity_spec(),
                translation_key(src@, tgt@, text@),
                translation,
            ),
            final(self).capacity_spec() == old(self).capacity_spec(),
            final(self).expires() == old(self).expires(),
            final(self).hit_count() == old(self).hit_count(),
            final(self).miss_count() == old(self).miss_count(),
    {
        let key = TranslationKey {
            src: String::from_str(src),
            tgt: String::from_str(tgt),
            text: normalize_text(text),
        };
        self.inner.insert(key, translation);
    }

    /// `(hits, misses)` counted by `get`.
    pub fn stats(&self) -> (r: (u64, u64))
        ensures
            r == (self.hit_count(), self.miss_count()),
    {
        self.inner.stats()
    }

    pub fn len(&self) -> (n: usize)
        ensures
            n == self@.len(),
    {
        self.inner.len()
    }

    pub fn is_empty(&self) -> (b: bool)
        ensures
            b == (self@.len() == 0),
    {
        self.inner.is_empty()
    }
}

/// Lookups ignore white-space differences: texts with the same normal form
/// share one cache key.
pub proof fn law_key_ignores_spacing(src: Seq<char>, tgt: Seq<char>, a: Seq<char>, b: Seq<char>)
    requires
        normalized(a) == normalized(b),
    ensures
        translation_key(src, tgt, a) == translation_key(src, tgt, b),
{
}

/// Texts with different normal forms never share a cache key: a lookup of
/// one text can never find another text's translation.
pub proof fn law_key_separates_texts(src: Seq<char>, tgt: Seq<char>, a: Seq<char>, b: Seq<char>)
    requires
        normalized(a) != normalized(b),
    ensures
        translation_key(src, tgt, a) != translation_key(src, tgt, b),
{
}

/// After the translation of text `a` is stored in an empty cache, a lookup
/// of text `b` in the same language pair finds an entry exactly when `b` has
/// the normal form of `a`.
pub proof fn law_lookup_finds_only_same_text(
    src: Seq<char>,
    tgt: Seq<char>,
    a: Seq<char>,
    b: Seq<char>,
    cap: nat,
    v: String,
)
    requires
        cap > 0,
    ensures
        has_key(
            lru_insert(Seq::<((Seq<char>, Seq<char>, Seq<char>), String)>::empty(), cap, translation_key(src, tgt, a), v),
            translation_key(src, tgt, b),
        ) <==> normalized(a) == normalized(b),
{
    let e = Seq::<((Seq<char>, Seq<char>, Seq<char>), String)>::empty();
    let c = lru_insert(e, cap, translation_key(src, tgt, a), v);
    assert(!has_key(e, translation_key(src, tgt, a)));
    assert(c == seq![(translation_key(src, tgt, a), v)]);
    if normalized(a) == normalized(b) {
        assert(key_at(c, translation_key(src, tgt, b), 0));
    } else {
        assert forall|i: int| !key_at(c, translation_key(src, tgt, b), i) by {
            if 0 <= i < c.len() {
                assert(c[i].0 == translation_key(src, tgt, a));
            }
        }
    }
}

/// Different language pairs never share a cache key.
pub proof fn law_key_separates_language_pairs(
    src1: Seq<char>,
    tgt1: Seq<char>,
    src2: Seq<char>,
    tgt2: Seq<char>,
    a: Seq<char>,
    b: Seq<char>,
)
    requires
        src1 != src2 || tgt1 != tgt2,
    ensures
        translation_key(src1, tgt1, a) != translation_key(src2, tgt2, b),
{
}

} // verus!
