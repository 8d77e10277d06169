//! Per-region live session logic: OCR throttling, the translation queue with
//! de-duplication of in-flight texts, the translation cache, and the draw
//! plan of cached translations.
//!
//! The session is single-threaded (owned by one thread). Recognition and
//! layout happen around it: the caller decides from a frame whether OCR is
//! due (`begin_frame`), runs OCR, and hands the recognized texts to
//! `ingest_ocr`; translations are taken with `drain_requests` and returned
//! through `accept_translations`.
use std::time::Instant;
use vstd::prelude::*;

use crate::cache::{bump, has_key, key_at, lru_insert, lru_touch, slot_of};
use crate::clock::{duration_between, duration_nanos, instant_now};
use crate::text::normalized;
use crate::translation::cache::{translation_key, TranslationCache};
use crate::translation::normalize_text;
use crate::translation::openai::strings_view;
use crate::types::{clone_opt_string, clone_strings, Translation};

verus! {

/// A batch of source texts that still need translation.
#[derive(Debug, Clone)]
pub struct TranslationTask {
    pub region_id: String,
    pub source_lang: Option<String>,
    pub target_lang: String,
    pub texts: Vec<String>,
}

#[derive(Debug, Clone, Copy, PartialEq, Eq, Structural)]
pub struct SessionStats {
    pub ocr_runs: u64,
    pub frames_seen: u64,
    pub ocr_ms: u64,
    pub ocr_cache_hits: u64,
    pub translation_cache_hits: u64,
    pub translation_cache_misses: u64,
    pub pending: usize,
}

/// All counters zero, nothing pending.
pub open spec fn zero_stats() -> SessionStats {
    SessionStats {
        ocr_runs: 0,
        frames_seen: 0,
        ocr_ms: 0,
        ocr_cache_hits: 0,
        translation_cache_hits: 0,
        translation_cache_misses: 0,
        pending: 0,
    }
}

impl Default for SessionStats {
    fn default() -> (s: Self)
        ensures
            s == zero_stats(),
    {
        SessionStats {
            ocr_runs: 0,
            frames_seen: 0,
            ocr_ms: 0,
            ocr_cache_hits: 0,
            translation_cache_hits: 0,
            translation_cache_misses: 0,
            pending: 0,
        }
    }
}

/// A sum that wraps around at 2^64.
pub open spec fn wrap_add(a: u64, b: u64) -> u64 {
    if a + b <= u64::MAX {
        (a + b) as u64
    } else {
        (a + b - 0x1_0000_0000_0000_0000) as u64
    }
}

fn wrapping_sum(a: u64, b: u64) -> (s: u64)
    ensures
        s == wrap_add(a, b),
{
    if a <= u64::MAX - b {
        a + b
    } else {
        a - (u64::MAX - b) - 1
    }
}

fn counter_bump(x: u64) -> (y: u64)
    ensures
        y == bump(x),
{
    if x == u64::MAX {
        0
    } else {
        x + 1
    }
}

/// Whether OCR is due, given the time since the last OCR run (`None` when
/// there was none) and whether the frame changed enough: never within the
/// cooldown, and after it when the frame changed or the retrigger interval
/// passed.
pub open spec fn ocr_due(elapsed_nanos: Option<u128>, changed_enough: bool) -> bool {
    match elapsed_nanos {
        None => true,
        Some(n) => n >= 700_000_000 && (changed_enough || n >= 3_000_000_000),
    }
}

/// Whether a failed translation may release its pending texts, given the
/// time since the last release (`None` when there was none).
pub open spec fn failure_release_due(elapsed_nanos: Option<u128>) -> bool {
    match elapsed_nanos {
        None => true,
        Some(n) => n >= 5_000_000_000,
    }
}

/// The OCR throttling decision (see `ocr_due`).
pub fn should_run_ocr(elapsed_nanos: Option<u128>, changed_enough: bool) -> (run: bool)
    ensures
        run == ocr_due(elapsed_nanos, changed_enough),
{
    match elapsed_nanos {
        None => true,
        Some(n) => {
            let cooldown_ok = n >= crate::config::defaults::OCR_COOLDOWN_MS as u128 * 1_000_000;
            let force = n >= crate::config::defaults::OCR_RETRIGGER_MS as u128 * 1_000_000;
            cooldown_ok && (changed_enough || force)
        },
    }
}

/// The failure release decision (see `failure_release_due`).
pub fn should_release_failure(elapsed_nanos: Option<u128>) -> (release: bool)
    ensures
        release == failure_release_due(elapsed_nanos),
{
    match elapsed_nanos {
        None => true,
        Some(n) => n >= crate::config::defaults::FAILURE_COOLDOWN_MS as u128 * 1_000_000,
    }
}

/// The normalized, non-empty texts among `texts`, in order.
pub open spec fn nonempty_keys(texts: Seq<Seq<char>>) -> Seq<Seq<char>>
    decreases texts.len(),
{
    if texts.len() == 0 {
        seq![]
    } else {
        let before = nonempty_keys(texts.drop_last());
        let k = normalized(texts.last());
        if k.len() > 0 {
            before.push(k)
        } else {
            before
        }
    }
}

/// The source language used in cache keys: the region's, or empty for auto-detect.
pub open spec fn lookup_source(source_lang: Option<String>) -> Seq<char> {
    match source_lang {
        Some(s) => s@,
        None => Seq::<char>::empty(),
    }
}

/// Cache entries of the translation cache, in recency order.
pub type CacheEntries = Seq<((Seq<char>, Seq<char>, Seq<char>), String)>;

/// What queueing the recognized texts works on.
pub struct QueueState {
    pub cache: CacheEntries,
    pub cache_hits: u64,
    pub cache_misses: u64,
    pub pending: Set<Seq<char>>,
    pub new_texts: Seq<Seq<char>>,
    pub hits: u64,
    pub misses: u64,
}

/// One recognized text: skipped when blank; a cache hit when translated;
/// otherwise a miss, queued unless already pending.
pub open spec fn queue_step(st: QueueState, src: Seq<char>, tgt: Seq<char>, text: Seq<char>) -> QueueState {
    let key = normalized(text);
    let k = translation_key(src, tgt, key);
    if key.len() == 0 {
        st
    } else if has_key(st.cache, k) {
        QueueState {
            cache: lru_touch(st.cache, slot_of(st.cache, k)),
            cache_hits: bump(st.cache_hits),
            hits: bump(st.hits),
            ..st
        }
    } else if st.pending.contains(key) {
        QueueState { cache_misses: bump(st.cache_misses), misses: bump(st.misses), ..st }
    } else {
        QueueState {
            cache_misses: bump(st.cache_misses),
            misses: bump(st.misses),
            pending: st.pending.insert(key),
            new_texts: st.new_texts.push(text),
            ..st
        }
    }
}

/// Queueing all recognized texts, in order.
pub open spec fn queue_all(st: QueueState, src: Seq<char>, tgt: Seq<char>, texts: Seq<Seq<char>>) -> QueueState
    decreases texts.len(),
{
    if texts.len() == 0 {
        st
    } else {
        queue_step(queue_all(st, src, tgt, texts.drop_last()), src, tgt, texts.last())
    }
}

/// What drawing works on: the cache and the draw items so far.
pub struct PlanState {
    pub cache: CacheEntries,
    pub cache_hits: u64,
    pub cache_misses: u64,
    pub items: Seq<(int, Seq<char>)>,
}

/// Region `i` with text `text`: drawn with its cached translation when there
/// is one.
pub open spec fn plan_step(st: PlanState, src: Seq<char>, tgt: Seq<char>, i: int, text: Seq<char>) -> PlanState {
    let key = normalized(text);
    let k = translation_key(src, tgt, key);
    if key.len() == 0 {
        st
    } else if has_key(st.cache, k) {
        let slot = slot_of(st.cache, k);
        PlanState {
            cache: lru_touch(st.cache, slot),
            cache_hits: bump(st.cache_hits),
            items: st.items.push((i, st.cache[slot].1@)),
            ..st
        }
    } else {
        PlanState { cache_misses: bump(st.cache_misses), ..st }
    }
}

/// The draw plan over all regions, in order.
pub open spec fn plan_all(st: PlanState, src: Seq<char>, tgt: Seq<char>, texts: Seq<Seq<char>>) -> PlanState
    decreases texts.len(),
{
    if texts.len() == 0 {
        st
    } else {
        let k = texts.len() - 1;
        plan_step(plan_all(st, src, tgt, texts.drop_last()), src, tgt, k, texts.last())
    }
}

/// Every entry of `c` is an entry of `orig`, and there are as many.
pub open spec fn entries_from(c: CacheEntries, orig: CacheEntries) -> bool {
    &&& c.len() == orig.len()
    &&& forall|q: int| 0 <= q < c.len() ==> orig.contains(#[trigger] c[q])
}

/// `orig` holds an entry for the translation key of `text` whose
/// translation is `t`.
pub open spec fn cached_translation(
    orig: CacheEntries,
    src: Seq<char>,
    tgt: Seq<char>,
    text: Seq<char>,
    t: Seq<char>,
) -> bool {
    exists|p: int| #[trigger] key_at(orig, translation_key(src, tgt, normalized(text)), p) && orig[p].1@ == t
}

proof fn lemma_plan_items(st: PlanState, src: Seq<char>, tgt: Seq<char>, texts: Seq<Seq<char>>)
    requires
        st.items.len() == 0,
    ensures
        ({
            let r = plan_all(st, src, tgt, texts);
            &&& entries_from(r.cache, st.cache)
            &&& forall|k: int|
                0 <= k < r.items.len() ==> {
                    &&& 0 <= (#[trigger] r.items[k]).0 < texts.len()
                    &&& cached_translation(st.cache, src, tgt, texts[r.items[k].0], r.items[k].1)
                }
            &&& forall|k1: int, k2: int|
                0 <= k1 < k2 < r.items.len() ==> (#[trigger] r.items[k1]).0 < (#[trigger] r.items[k2]).0
        }),
    decreases texts.len(),
{
    if texts.len() == 0 {
        assert forall|q: int| 0 <= q < st.cache.len() implies st.cache.contains(#[trigger] st.cache[q]) by {
            assert(st.cache[q] == st.cache[q]);
        }
        assert(entries_from(st.cache, st.cache));
    } else {
        let pre = texts.drop_last();
        lemma_plan_items(st, src, tgt, pre);
        let r0 = plan_all(st, src, tgt, pre);
        let n = texts.len() - 1;
        let text = texts.last();
        let key = normalized(text);
        let kk = translation_key(src, tgt, key);
        let r = plan_all(st, src, tgt, texts);
        assert(r == plan_step(r0, src, tgt, n, text));
        assert forall|j: int| 0 <= j < pre.len() implies pre[j] == texts[j] by {}
        if key.len() > 0 && has_key(r0.cache, kk) {
            let slot = slot_of(r0.cache, kk);
            assert(key_at(r0.cache, kk, slot));
            assert(st.cache.contains(r0.cache[slot]));
            let p0 = choose|p: int| 0 <= p < st.cache.len() && st.cache[p] == r0.cache[slot];
            assert(0 <= p0 < st.cache.len() && st.cache[p0] == r0.cache[slot]);
            assert(normalized(texts[n]) == key);
            assert(key_at(st.cache, translation_key(src, tgt, normalized(texts[n])), p0));
            assert(cached_translation(st.cache, src, tgt, texts[n], r0.cache[slot].1@));
            let t = lru_touch(r0.cache, slot);
            assert forall|q: int| 0 <= q < t.len() implies st.cache.contains(#[trigger] t[q]) by {
                let o = if q == 0 { slot } else if q - 1 < slot { q - 1 } else { q };
                assert(t[q] == r0.cache[o]);
                assert(st.cache.contains(r0.cache[o]));
            }
            assert forall|k: int| 0 <= k < r.items.len() implies {
                &&& 0 <= (#[trigger] r.items[k]).0 < texts.len()
                &&& cached_translation(st.cache, src, tgt, texts[r.items[k].0], r.items[k].1)
            } by {
                if k < r0.items.len() {
                    assert(r.items[k] == r0.items[k]);
                    assert(texts[r.items[k].0] == pre[r.items[k].0]);
                } else {
                    assert(r.items[k] == (n, r0.cache[slot].1@));
                }
            }
            assert forall|k1: int, k2: int| 0 <= k1 < k2 < r.items.len() implies (
            #[trigger] r.items[k1]).0 < (#[trigger] r.items[k2]).0 by {
                assert(r.items[k1] == r0.items[k1]);
                if k2 < r0.items.len() {
                    assert(r.items[k2] == r0.items[k2]);
                } else {
                    assert(r0.items[k1].0 < pre.len());
                }
            }
            assert(t.len() == r0.cache.len());
            assert(entries_from(r.cache, st.cache));
        } else {
            assert forall|k: int| 0 <= k < r.items.len() implies {
                &&& 0 <= (#[trigger] r.items[k]).0 < texts.len()
                &&& cached_translation(st.cache, src, tgt, texts[r.items[k].0], r.items[k].1)
            } by {
                assert(r.items[k] == r0.items[k]);
                assert(texts[r.items[k].0] == pre[r.items[k].0]);
            }
            assert(entries_from(r.cache, st.cache));
            assert(forall|k1: int, k2: int| 0 <= k1 < k2 < r.items.len() ==> (#[trigger] r.items[k1]).0 < (#[trigger] r.items[k2]).0);
        }
    }
}

/// The draw plan names, for each item, the region whose text was looked up:
/// every item `(j, t)` has `j` below the number of recognized texts, and the
/// cache held `t` as the translation of text `j`'s normal form in that
/// language pair. Items come in region order, each region at most once, and
/// the cache keeps its entries.
pub proof fn law_plan_items_name_their_regions(
    st: PlanState,
    src: Seq<char>,
    tgt: Seq<char>,
    texts: Seq<Seq<char>>,
)
    requires
        st.items.len() == 0,
    ensures
        ({
            let r = plan_all(st, src, tgt, texts);
            &&& entries_from(r.cache, st.cache)
            &&& forall|k: int|
                0 <= k < r.items.len() ==> {
                    &&& 0 <= (#[trigger] r.items[k]).0 < texts.len()
                    &&& cached_translation(st.cache, src, tgt, texts[r.items[k].0], r.items[k].1)
                }
            &&& forall|k1: int, k2: int|
                0 <= k1 < k2 < r.items.len() ==> (#[trigger] r.items[k1]).0 < (#[trigger] r.items[k2]).0
        }),
{
    lemma_plan_items(st, src, tgt, texts);
}

/// The cache after storing the translated texts of `texts`, pair by pair.
pub open spec fn store_all(
    cache: CacheEntries,
    cap: nat,
    src: Seq<char>,
    tgt: Seq<char>,
    texts: Seq<Seq<char>>,
    translated: Seq<String>,
) -> CacheEntries
    decreases texts.len(),
{
    if texts.len() == 0 || translated.len() < texts.len() {
        cache
    } else {
        let k = texts.len() - 1;
        lru_insert(
            store_all(cache, cap, src, tgt, texts.drop_last(), translated),
            cap,
            translation_key(src, tgt, normalized(texts[k])),
            translated[k],
        )
    }
}

/// `pending` without the normal forms of `texts`.
pub open spec fn release_all(pending: Set<Seq<char>>, texts: Seq<Seq<char>>) -> Set<Seq<char>> {
    pending.filter(|k: Seq<char>| !exists|i: int| 0 <= i < texts.len() && normalized(texts[i]) == k)
}

/// `t` is the task of region `id` for `texts`, in the given languages.
pub open spec fn task_is(
    t: TranslationTask,
    id: Seq<char>,
    source_lang: Option<String>,
    target_lang: Seq<char>,
    texts: Seq<Seq<char>>,
) -> bool {
    &&& t.region_id@ == id
    &&& t.source_lang == source_lang
    &&& t.target_lang@ == target_lang
    &&& strings_view(t.texts@) == texts
}

/// The normalized, non-empty texts of `texts`.
fn keys_of(texts: &Vec<String>) -> (keys: Vec<String>)
    ensures
        strings_view(keys@) == nonempty_keys(strings_view(texts@)),
{
    let mut keys: Vec<String> = Vec::new();
    let mut i: usize = 0;
    while i < texts.len()
        invariant
            i <= texts.len(),
            strings_view(keys@) == nonempty_keys(strings_view(texts@).take(i as int)),
        decreases texts.len() - i,
    {
        let ghost tv = strings_view(texts@);
        assert(tv.take(i + 1).drop_last() == tv.take(i as int));
        assert(tv.take(i + 1).last() == texts@[i as int]@);
        let key = normalize_text(texts[i].as_str());
        if !key.as_str().is_empty() {
            keys.push(key);
        }
        assert(strings_view(keys@) =~= nonempty_keys(tv.take(i + 1)));
        i = i + 1;
    }
    assert(strings_view(texts@).take(texts.len() as int) == strings_view(texts@));
    keys
}

/// Whether two vectors hold the same strings.
fn strings_equal(a: &Vec<String>, b: &Vec<String>) -> (same: bool)
    ensures
        same == (strings_view(a@) == strings_view(b@)),
{
    if a.len() != b.len() {
        assert(strings_view(a@).len() != strings_view(b@).len());
        return false;
    }
    let mut i: usize = 0;
    while i < a.len()
        invariant
            a.len() == b.len(),
            i <= a.len(),
            forall|j: int| 0 <= j < i ==> a@[j]@ == b@[j]@,
        decreases a.len() - i,
    {
        if !a[i].eq(&b[i]) {
            assert(strings_view(a@)[i as int] != strings_view(b@)[i as int]);
            return false;
        }
        i = i + 1;
    }
    assert(strings_view(a@) =~= strings_view(b@));
    true
}

/// The source language of cache keys as a string slice.
fn source_key(source_lang: &Option<String>) -> (s: &str)
    ensures
        s@ == lookup_source(*source_lang),
{
    match source_lang {
        Some(l) => l.as_str(),
        None => {
            proof {
                reveal_strlit("");
            }
            ""
        },
    }
}

/// OCR never runs again within the cooldown; a changed frame after it runs
/// OCR; a static frame runs OCR only once the retrigger interval passed.
pub proof fn law_ocr_throttling(elapsed_nanos: u128, changed_enough: bool)
    ensures
        elapsed_nanos < 700_000_000 ==> !ocr_due(Some(elapsed_nanos), changed_enough),
        elapsed_nanos >= 700_000_000 && changed_enough ==> ocr_due(Some(elapsed_nanos), true),
        ocr_due(Some(elapsed_nanos), false) == (elapsed_nanos >= 3_000_000_000),
        ocr_due(None, changed_enough),
{
}

/// Failed texts are released for a retry the first time, and afterwards
/// whenever at least 5 s have passed since the last release, never sooner.
pub proof fn law_failure_release_policy(elapsed_nanos: u128)
    ensures
        failure_release_due(None),
        failure_release_due(Some(elapsed_nanos)) == (elapsed_nanos >= 5_000_000_000),
{
}

/// Queueing never asks twice for one text: the texts queued by one OCR run
/// have distinct normal forms, none of which was in flight or cached before,
/// and all of which are in flight afterwards.
pub proof fn law_queue_deduplicates(st: QueueState, src: Seq<char>, tgt: Seq<char>, texts: Seq<Seq<char>>)
    requires
        st.new_texts.len() == 0,
    ensures
        ({
            let out = queue_all(st, src, tgt, texts);
            &&& forall|a: int, b: int|
                0 <= a < out.new_texts.len() && 0 <= b < out.new_texts.len() && a != b
                    ==> normalized(out.new_texts[a]) != normalized(out.new_texts[b])
            &&& forall|a: int|
                0 <= a < out.new_texts.len() ==> !st.pending.contains(
                    normalized(#[trigger] out.new_texts[a]),
                ) && out.pending.contains(normalized(out.new_texts[a]))
                    && normalized(out.new_texts[a]).len() > 0
        }),
    decreases texts.len(),
{
    if texts.len() > 0 {
        law_queue_deduplicates(st, src, tgt, texts.drop_last());
        let prev = queue_all(st, src, tgt, texts.drop_last());
        lemma_queue_pending_grows(st, src, tgt, texts.drop_last());
        let out = queue_all(st, src, tgt, texts);
        let key = normalized(texts.last());
        if key.len() > 0 && !has_key(prev.cache, translation_key(src, tgt, key)) && !prev.pending.contains(key) {
            assert(out.new_texts == prev.new_texts.push(texts.last()));
            assert forall|a: int| 0 <= a < prev.new_texts.len() implies normalized(out.new_texts[a]) != key by {
                assert(out.new_texts[a] == prev.new_texts[a]);
            }
            assert(!st.pending.contains(key));
        }
    }
}

/// Queueing only adds to the texts in flight.
pub proof fn lemma_queue_pending_grows(st: QueueState, src: Seq<char>, tgt: Seq<char>, texts: Seq<Seq<char>>)
    ensures
        st.pending.subset_of(queue_all(st, src, tgt, texts).pending),
    decreases texts.len(),
{
    if texts.len() > 0 {
        lemma_queue_pending_grows(st, src, tgt, texts.drop_last());
    }
}

/// A text whose translation is cached is never queued.
pub proof fn law_cached_text_not_queued(st: QueueState, src: Seq<char>, tgt: Seq<char>, text: Seq<char>)
    requires
        has_key(st.cache, translation_key(src, tgt, normalized(text))),
    ensures
        queue_step(st, src, tgt, text).new_texts == st.new_texts,
        queue_step(st, src, tgt, text).pending == st.pending,
{
}

/// Accepting translations releases every accepted text.
pub proof fn law_accepted_not_pending(pending: Set<Seq<char>>, texts: Seq<Seq<char>>, i: int)
    requires
        0 <= i < texts.len(),
    ensures
        !release_all(pending, texts).contains(normalized(texts[i])),
        release_all(pending, texts).subset_of(pending),
{
}

/// After a translation is accepted, its text's cache entry is the most
/// recent one and holds that translation (read after write).
pub proof fn law_accepted_is_cached(
    cache: CacheEntries,
    cap: nat,
    src: Seq<char>,
    tgt: Seq<char>,
    texts: Seq<Seq<char>>,
    translated: Seq<String>,
)
    requires
        crate::cache::distinct_keys(cache),
        cap > 0,
        texts.len() > 0,
        translated.len() >= texts.len(),
    ensures
        ({
            let out = store_all(cache, cap, src, tgt, texts, translated);
            let k = translation_key(src, tgt, normalized(texts.last()));
            &&& has_key(out, k)
            &&& slot_of(out, k) == 0
            &&& out[0].1 == translated[texts.len() - 1]
        }),
{
    lemma_store_keeps_distinct(cache, cap, src, tgt, texts.drop_last(), translated);
    let before = store_all(cache, cap, src, tgt, texts.drop_last(), translated);
    crate::cache::law_insert_then_get(
        before,
        cap,
        translation_key(src, tgt, normalized(texts.last())),
        translated[texts.len() - 1],
    );
    assert(texts.drop_last().len() == texts.len() - 1);
    assert(texts[texts.len() - 1] == texts.last());
}

/// Storing translations keeps cache keys distinct.
pub proof fn lemma_store_keeps_distinct(
    cache: CacheEntries,
    cap: nat,
    src: Seq<char>,
    tgt: Seq<char>,
    texts: Seq<Seq<char>>,
    translated: Seq<String>,
)
    requires
        crate::cache::distinct_keys(cache),
        cap > 0,
    ensures
        crate::cache::distinct_keys(store_all(cache, cap, src, tgt, texts, translated)),
    decreases texts.len(),
{
    if texts.len() > 0 && translated.len() >= texts.len() {
        lemma_store_keeps_distinct(cache, cap, src, tgt, texts.drop_last(), translated);
        let k = texts.len() - 1;
        crate::cache::law_insert_then_get(
            store_all(cache, cap, src, tgt, texts.drop_last(), translated),
            cap,
            translation_key(src, tgt, normalized(texts[k])),
            translated[k],
        );
    }
}

/// Texts `k*size .. min((k+1)*size, len)`: batch `k` of `texts`.
pub open spec fn batch_of(texts: Seq<Seq<char>>, size: int, k: int) -> Seq<Seq<char>> {
    let end = if (k + 1) * size < texts.len() {
        (k + 1) * size
    } else {
        texts.len() as int
    };
    texts.subrange(k * size, end)
}

/// The number of batches of at most `size` texts that `n` texts make.
pub open spec fn batch_count(n: int, size: int) -> int {
    (n + size - 1) / size
}

/// Splits a task into tasks of at most `batch_size` texts each, in order,
/// for a provider that takes limited batches.
pub fn split_task(task: &TranslationTask, batch_size: usize) -> (tasks: Vec<TranslationTask>)
    requires
        batch_size > 0,
    ensures
        tasks.len() == batch_count(task.texts.len() as int, batch_size as int),
        forall|k: int|
            0 <= k < tasks.len() ==> task_is(
                #[trigger] tasks@[k],
                task.region_id@,
                task.source_lang,
                task.target_lang@,
                batch_of(strings_view(task.texts@), batch_size as int, k),
            ),
{
    let n = task.texts.len();
    let ghost tv = strings_view(task.texts@);
    let mut tasks: Vec<TranslationTask> = Vec::new();
    let mut start: usize = 0;
    proof {
        let bc = batch_count(n as int, batch_size as int);
        assert(tasks.len() * batch_size == 0) by (nonlinear_arith)
            requires
                tasks.len() == 0,
        ;
        if n == 0 {
            assert(bc == 0) by (nonlinear_arith)
                requires
                    batch_size > 0,
                    n == 0,
                    bc == (n as int + batch_size as int - 1) / batch_size as int,
            ;
        } else {
            assert(bc > 0) by (nonlinear_arith)
                requires
                    batch_size > 0,
                    n > 0,
                    bc == (n as int + batch_size as int - 1) / batch_size as int,
            ;
        }
    }
    while start < n
        invariant
            batch_size > 0,
            n == task.texts.len(),
            tv == strings_view(task.texts@),
            tv.len() == n,
            start == tasks.len() * batch_size || start == n,
            start < n ==> start == tasks.len() * batch_size,
            start <= n,
            start == n ==> tasks.len() == batch_count(n as int, batch_size as int),
            start < n ==> tasks.len() < batch_count(n as int, batch_size as int),
            forall|k: int|
                0 <= k < tasks.len() ==> task_is(
                    #[trigger] tasks@[k],
                    task.region_id@,
                    task.source_lang,
                    task.target_lang@,
                    batch_of(tv, batch_size as int, k),
                ),
        decreases n - start,
    {
        let k = tasks.len();
        let end = if n - start <= batch_size {
            n
        } else {
            start + batch_size
        };
        let mut texts: Vec<String> = Vec::new();
        let mut i = start;
        while i < end
            invariant
                start <= i <= end <= n,
                n == task.texts.len(),
                tv == strings_view(task.texts@),
                tv.len() == n,
                strings_view(texts@) == tv.subrange(start as int, i as int),
            decreases end - i,
        {
            let s = task.texts[i].clone();
            assert(s@ == tv[i as int]);
            assert(tv.subrange(start as int, i + 1) =~= tv.subrange(start as int, i as int).push(
                tv[i as int],
            ));
            texts.push(s);
            assert(strings_view(texts@) =~= tv.subrange(start as int, i + 1));
            i = i + 1;
        }
        proof {
            assert(start == k * batch_size);
            assert((k + 1) * batch_size == start + batch_size) by (nonlinear_arith)
                requires
                    start == k * batch_size,
            ;
            if end == n {
                assert(!((k + 1) * batch_size < tv.len()));
            } else {
                assert((k + 1) * batch_size < tv.len());
                assert(end == (k + 1) * batch_size);
            }
            assert(strings_view(texts@) == batch_of(tv, batch_size as int, k as int));
        }
        tasks.push(
            TranslationTask {
                region_id: task.region_id.clone(),
                source_lang: clone_opt_string(&task.source_lang),
                target_lang: task.target_lang.clone(),
                texts,
            },
        );
        proof {
            let bc = batch_count(n as int, batch_size as int);
            if end == n {
                assert(k + 1 == bc) by (nonlinear_arith)
                    requires
                        start == k * batch_size,
                        start < n,
                        n - start <= batch_size,
                        batch_size > 0,
                        bc == (n as int + batch_size as int - 1) / batch_size as int,
                ;
            } else {
                assert(k + 1 < bc) by (nonlinear_arith)
                    requires
                        start == k * batch_size,
                        n - start > batch_size,
                        batch_size > 0,
                        bc == (n as int + batch_size as int - 1) / batch_size as int,
                ;
                assert(end == (k + 1) * batch_size) by (nonlinear_arith)
                    requires
                        start == k * batch_size,
                        end == start + batch_size,
                ;
            }
        }
        start = end;
    }
    tasks
}

/// The first `m` batches of `texts`, joined back together in order.
pub open spec fn batches_joined(texts: Seq<Seq<char>>, size: int, m: nat) -> Seq<Seq<char>>
    decreases m,
{
    if m == 0 {
        Seq::empty()
    } else {
        batches_joined(texts, size, (m - 1) as nat) + batch_of(texts, size, m - 1)
    }
}

proof fn lemma_batches_prefix(texts: Seq<Seq<char>>, size: int, m: nat)
    requires
        size > 0,
        m <= batch_count(texts.len() as int, size),
    ensures
        m * size <= texts.len() ==> batches_joined(texts, size, m) == texts.subrange(0, m * size),
        m * size > texts.len() ==> batches_joined(texts, size, m) == texts,
    decreases m,
{
    let n = texts.len() as int;
    if m > 0 {
        let k = (m - 1) as nat;
        lemma_batches_prefix(texts, size, k);
        assert(k * size < n) by (nonlinear_arith)
            requires
                size > 0,
                k + 1 <= (n + size - 1) / size,
        ;
        assert((k + 1) * size == k * size + size) by (nonlinear_arith);
        assert(m * size == k * size + size);
        if m * size <= n {
            assert(batches_joined(texts, size, m) =~= texts.subrange(0, m * size));
        } else {
            assert(batches_joined(texts, size, m) =~= texts);
        }
    }
}

/// Splitting loses, repeats and reorders nothing: the batches of a task,
/// joined in order, are its texts; each batch holds between one and `size`
/// of them.
pub proof fn law_batches_cover_texts(texts: Seq<Seq<char>>, size: int)
    requires
        size > 0,
    ensures
        batches_joined(texts, size, batch_count(texts.len() as int, size) as nat) == texts,
        forall|k: int|
            0 <= k < batch_count(texts.len() as int, size) ==> 0 < #[trigger] batch_of(
                texts,
                size,
                k,
            ).len() <= size,
{
    let n = texts.len() as int;
    let c = batch_count(n, size);
    assert(c >= 0) by (nonlinear_arith)
        requires
            size > 0,
            n >= 0,
            c == (n + size - 1) / size,
    ;
    assert(c * size >= n) by (nonlinear_arith)
        requires
            size > 0,
            n >= 0,
            c == (n + size - 1) / size,
    ;
    lemma_batches_prefix(texts, size, c as nat);
    if c * size == n {
        assert(texts.subrange(0, n) =~= texts);
    }
    assert forall|k: int| 0 <= k < c implies 0 < #[trigger] batch_of(texts, size, k).len() <= size by {
        assert(k * size < n) by (nonlinear_arith)
            requires
                size > 0,
                0 <= k,
                k + 1 <= c,
                c == (n + size - 1) / size,
        ;
        assert((k + 1) * size == k * size + size) by (nonlinear_arith);
        assert(k * size >= 0) by (nonlinear_arith)
            requires
                size > 0,
                0 <= k,
        ;
    }
}

/// The live state of one region's session.
pub struct SessionCore {
    pub id: String,
    translation_cache: TranslationCache,
    last_texts: Vec<String>,
    last_ocr_time: Option<Instant>,
    last_failed: Option<Instant>,
    pending: Vec<String>,
    queued: Vec<TranslationTask>,
    pub stats: SessionStats,
    ocr_wait: Ghost<Option<u128>>,
    failure_wait: Ghost<Option<u128>>,
}

impl SessionCore {
    /// The texts in flight (queued or being translated), by normal form.
    pub closed spec fn pending_keys(&self) -> Seq<Seq<char>> {
        strings_view(self.pending@)
    }

    pub closed spec fn stats_view(&self) -> SessionStats {
        self.stats
    }

    pub closed spec fn id_view(&self) -> Seq<char> {
        self.id@
    }

    pub open spec fn pending_set(&self) -> Set<Seq<char>> {
        self.pending_keys().to_set()
    }

    pub closed spec fn cache_entries(&self) -> CacheEntries {
        self.translation_cache@
    }

    pub closed spec fn cache_capacity(&self) -> nat {
        self.translation_cache.capacity_spec()
    }

    pub closed spec fn cache_hits(&self) -> u64 {
        self.translation_cache.hit_count()
    }

    pub closed spec fn cache_misses(&self) -> u64 {
        self.translation_cache.miss_count()
    }

    /// The recognized texts of the last OCR run, one per region.
    pub closed spec fn last_texts_view(&self) -> Seq<Seq<char>> {
        strings_view(self.last_texts@)
    }

    pub closed spec fn queued_view(&self) -> Seq<TranslationTask> {
        self.queued@
    }

    /// Whether OCR ever ran.
    pub closed spec fn ocr_ran(&self) -> bool {
        self.last_ocr_time is Some
    }

    /// Whether a failed translation ever released its texts.
    pub closed spec fn failure_released(&self) -> bool {
        self.last_failed is Some
    }

    /// The time in nanoseconds from the last OCR run to the latest frame, as
    /// the clock measured it when that frame came; `None` when OCR had not
    /// run before it.
    pub closed spec fn last_ocr_wait(&self) -> Option<u128> {
        self.ocr_wait@
    }

    /// The time in nanoseconds from the last release of failed texts to the
    /// latest failure, as the clock measured it when that failure came;
    /// `None` when nothing had been released before it.
    pub closed spec fn last_failure_wait(&self) -> Option<u128> {
        self.failure_wait@
    }

    /// Everything but the counters is the same in `self` and `other`.
    pub closed spec fn same_apart_from_stats(&self, other: Self) -> bool {
        &&& self.id == other.id
        &&& self.translation_cache == other.translation_cache
        &&& self.pending == other.pending
        &&& self.last_texts == other.last_texts
        &&& self.queued == other.queued
        &&& self.last_ocr_time == other.last_ocr_time
        &&& self.last_failed == other.last_failed
    }

    pub closed spec fn wf(&self) -> bool {
        &&& self.translation_cache.wf()
        &&& !self.translation_cache.expires()
        &&& self.pending_keys().no_duplicates()
    }

    /// The queue state before queueing recognized texts.
    pub open spec fn queue_start(&self) -> QueueState {
        QueueState {
            cache: self.cache_entries(),
            cache_hits: self.cache_hits(),
            cache_misses: self.cache_misses(),
            pending: self.pending_set(),
            new_texts: seq![],
            hits: self.stats_view().translation_cache_hits,
            misses: self.stats_view().translation_cache_misses,
        }
    }

    pub fn new(id: String, cache_capacity: usize) -> (s: Self)
        ensures
            s.wf(),
            s.id_view() == id@,
            s.cache_entries().len() == 0,
            s.cache_capacity() == cache_capacity,
            s.cache_hits() == 0,
            s.cache_misses() == 0,
            s.pending_set() == Set::<Seq<char>>::empty(),
            s.last_texts_view().len() == 0,
            s.queued_view().len() == 0,
            !s.ocr_ran(),
            !s.failure_released(),
            s.stats_view() == zero_stats(),
    {
        let s = SessionCore {
            id,
            translation_cache: TranslationCache::new(cache_capacity),
            last_texts: Vec::new(),
            last_ocr_time: None,
            last_failed: None,
            pending: Vec::new(),
            queued: Vec::new(),
            stats: SessionStats::default(),
            ocr_wait: Ghost(None),
            failure_wait: Ghost(None),
        };
        assert(s.pending_keys() =~= Seq::<Seq<char>>::empty());
        assert(s.pending_set() =~= Set::<Seq<char>>::empty());
        assert(s.last_texts_view() =~= Seq::<Seq<char>>::empty());
        s
    }

    /// The position of `key` among the pending texts.
    fn pending_position(&self, key: &String) -> (pos: Option<usize>)
        ensures
            match pos {
                Some(i) => i < self.pending.len() && self.pending@[i as int]@ == key@
                    && self.pending_set().contains(key@),
                None => !self.pending_set().contains(key@),
            },
    {
        let mut i: usize = 0;
        while i < self.pending.len()
            invariant
                i <= self.pending.len(),
                forall|j: int| 0 <= j < i ==> self.pending@[j]@ != key@,
            decreases self.pending.len() - i,
        {
            if self.pending[i].eq(key) {
                assert(self.pending_keys()[i as int] == key@);
                return Some(i);
            }
            i = i + 1;
        }
        assert(!self.pending_keys().contains(key@));
        None
    }

    /// Marks `key` in flight.
    fn add_pending(&mut self, key: String)
        requires
            old(self).wf(),
            !old(self).pending_set().contains(key@),
        ensures
            final(self).wf(),
            final(self).pending_set() == old(self).pending_set().insert(key@),
            final(self).translation_cache == old(self).translation_cache,
            final(self).stats_view() == old(self).stats_view(),
            final(self).id_view() == old(self).id_view(),
            final(self).last_texts == old(self).last_texts,
            final(self).queued == old(self).queued,
            final(self).last_ocr_time == old(self).last_ocr_time,
            final(self).last_failed == old(self).last_failed,
    {
        let ghost before = self.pending_keys();
        self.pending.push(key);
        proof {
            assert(self.pending_keys() =~= before.push(key@));
            before.lemma_push_to_set_commute(key@);
            assert(!before.contains(key@));
            assert forall|i: int, j: int|
                0 <= i < self.pending_keys().len() && 0 <= j < self.pending_keys().len() && i != j implies self.pending_keys()[i]
                != self.pending_keys()[j] by {
                if i < before.len() && j < before.len() {
                } else if i == before.len() {
                    assert(self.pending_keys()[j] == before[j]);
                } else {
                    assert(self.pending_keys()[i] == before[i]);
                }
            }
        }
    }

    /// Releases `key` if it is in flight.
    fn remove_pending(&mut self, key: &String)
        requires
            old(self).wf(),
        ensures
            final(self).wf(),
            final(self).pending_set() == old(self).pending_set().remove(key@),
            final(self).translation_cache == old(self).translation_cache,
            final(self).stats_view() == old(self).stats_view(),
            final(self).id_view() == old(self).id_view(),
            final(self).last_texts == old(self).last_texts,
            final(self).queued == old(self).queued,
            final(self).last_ocr_time == old(self).last_ocr_time,
            final(self).last_failed == old(self).last_failed,
    {
        let ghost before = self.pending_keys();
        match self.pending_position(key) {
            Some(i) => {
                self.pending.remove(i);
                proof {
                    let after = self.pending_keys();
                    assert(after =~= before.remove(i as int));
                    assert forall|a: int, b: int|
                        0 <= a < after.len() && 0 <= b < after.len() && a != b implies after[a] != after[b] by {
                        let oa = if a < i { a } else { a + 1 };
                        let ob = if b < i { b } else { b + 1 };
                        assert(after[a] == before[oa]);
                        assert(after[b] == before[ob]);
                    }
                    assert forall|x: Seq<char>| after.to_set().contains(x) <==> before.to_set().remove(key@).contains(x) by {
                        if after.contains(x) {
                            let a = choose|a: int| 0 <= a < after.len() && after[a] == x;
                            let oa = if a < i { a } else { a + 1 };
                            assert(before[oa] == x);
                            assert(oa != i);
                            assert(before[i as int] == key@);
                            assert(x != key@);
                            assert(before.contains(x));
                        }
                        if before.contains(x) && x != key@ {
                            let b = choose|b: int| 0 <= b < before.len() && before[b] == x;
                            assert(b != i);
                            let nb = if b < i { b } else { b - 1 };
                            assert(after[nb] == x);
                            assert(after.contains(x));
                        }
                    }
                    assert(after.to_set() =~= before.to_set().remove(key@));
                }
            },
            None => {
                assert(before.to_set().remove(key@) =~= before.to_set());
            },
        }
    }

    /// The number of texts in flight.
    proof fn lemma_pending_count(&self)
        requires
            self.wf(),
        ensures
            self.pending.len() == self.pending_set().len(),
    {
        self.pending_keys().unique_seq_to_set();
    }

    /// Counts a frame and decides, from the time since the last OCR run,
    /// whether OCR is due now; when it is, the OCR time becomes now.
    pub fn begin_frame(&mut self, changed_enough: bool) -> (run: bool)
        requires
            old(self).wf(),
        ensures
            final(self).wf(),
            exists|elapsed: Option<u128>|
                (elapsed is None <==> !old(self).ocr_ran()) && run == ocr_due(
                    elapsed,
                    changed_enough,
                ),
            final(self).last_ocr_wait() is None <==> !old(self).ocr_ran(),
            run == ocr_due(final(self).last_ocr_wait(), changed_enough),
            final(self).ocr_ran() == (old(self).ocr_ran() || run),
            final(self).stats_view() == (SessionStats {
                frames_seen: bump(old(self).stats_view().frames_seen),
                ..old(self).stats_view()
            }),
            final(self).id_view() == old(self).id_view(),
            final(self).cache_entries() == old(self).cache_entries(),
            final(self).cache_hits() == old(self).cache_hits(),
            final(self).cache_misses() == old(self).cache_misses(),
            final(self).pending_set() == old(self).pending_set(),
            final(self).last_texts_view() == old(self).last_texts_view(),
            final(self).queued_view() == old(self).queued_view(),
            final(self).failure_released() == old(self).failure_released(),
    {
        self.stats.frames_seen = counter_bump(self.stats.frames_seen);
        let now = instant_now();
        let elapsed = match &self.last_ocr_time {
            Some(t) => Some(duration_nanos(&duration_between(&now, t))),
            None => None,
        };
        self.ocr_wait = Ghost(elapsed);
        let run = should_run_ocr(elapsed, changed_enough);
        if run {
            self.last_ocr_time = Some(now);
        }
        run
    }

    /// Takes the texts recognized by an OCR run (one per region, in order)
    /// that took `ocr_ms`: counts the run, remembers the texts, and queues
    /// every text that is neither cached nor in flight (see `queue_all`) as
    /// one task. Returns whether the set of non-empty texts changed since the
    /// previous run.
    pub fn ingest_ocr(
        &mut self,
        texts: Vec<String>,
        source_lang: &Option<String>,
        target_lang: &String,
        ocr_ms: u64,
    ) -> (changed: bool)
        requires
            old(self).wf(),
        ensures
            final(self).wf(),
            changed == (nonempty_keys(strings_view(texts@)) != nonempty_keys(
                old(self).last_texts_view(),
            )),
            final(self).last_texts_view() == strings_view(texts@),
            ({
                let st = queue_all(
                    old(self).queue_start(),
                    lookup_source(*source_lang),
                    target_lang@,
                    strings_view(texts@),
                );
                &&& final(self).cache_entries() == st.cache
                &&& final(self).cache_hits() == st.cache_hits
                &&& final(self).cache_misses() == st.cache_misses
                &&& final(self).pending_set() == st.pending
                &&& final(self).stats_view() == (SessionStats {
                    ocr_runs: bump(old(self).stats_view().ocr_runs),
                    ocr_ms: wrap_add(old(self).stats_view().ocr_ms, ocr_ms),
                    translation_cache_hits: st.hits,
                    translation_cache_misses: st.misses,
                    pending: st.pending.len() as usize,
                    ..old(self).stats_view()
                })
                &&& st.new_texts.len() == 0 ==> final(self).queued_view() == old(self).queued_view()
                &&& st.new_texts.len() > 0 ==> {
                    &&& final(self).queued_view().len() == old(self).queued_view().len() + 1
                    &&& final(self).queued_view().drop_last() == old(self).queued_view()
                    &&& task_is(
                        final(self).queued_view().last(),
                        old(self).id_view(),
                        *source_lang,
                        target_lang@,
                        st.new_texts,
                    )
                }
            }),
            final(self).cache_capacity() == old(self).cache_capacity(),
            final(self).id_view() == old(self).id_view(),
            final(self).ocr_ran() == old(self).ocr_ran(),
            final(self).failure_released() == old(self).failure_released(),
    {
        self.stats.ocr_ms = wrapping_sum(self.stats.ocr_ms, ocr_ms);
        self.stats.ocr_runs = counter_bump(self.stats.ocr_runs);
        let new_keys = keys_of(&texts);
        let old_keys = keys_of(&self.last_texts);
        let changed = !strings_equal(&new_keys, &old_keys);
        let src = source_key(source_lang);
        let tgt = target_lang.as_str();
        let ghost tv = strings_view(texts@);
        let ghost start = old(self).queue_start();
        let mut new_texts: Vec<String> = Vec::new();
        let mut i: usize = 0;
        assert(tv.take(0) =~= Seq::<Seq<char>>::empty());
        assert(strings_view(new_texts@) =~= Seq::<Seq<char>>::empty());
        while i < texts.len()
            invariant
                i <= texts.len(),
                tv == strings_view(texts@),
                src@ == lookup_source(*source_lang),
                tgt@ == target_lang@,
                self.wf(),
                self.cache_capacity() == old(self).cache_capacity(),
                self.id@ == old(self).id@,
                self.queued == old(self).queued,
                self.last_texts == old(self).last_texts,
                self.last_ocr_time == old(self).last_ocr_time,
                self.last_failed == old(self).last_failed,
                self.stats.ocr_runs == bump(old(self).stats.ocr_runs),
                self.stats.ocr_ms == wrap_add(old(self).stats.ocr_ms, ocr_ms),
                self.stats.frames_seen == old(self).stats.frames_seen,
                self.stats.ocr_cache_hits == old(self).stats.ocr_cache_hits,
                self.stats.pending == old(self).stats.pending,
                ({
                    let st = queue_all(start, src@, tgt@, tv.take(i as int));
                    &&& self.cache_entries() == st.cache
                    &&& self.cache_hits() == st.cache_hits
                    &&& self.cache_misses() == st.cache_misses
                    &&& self.pending_set() == st.pending
                    &&& strings_view(new_texts@) == st.new_texts
                    &&& self.stats.translation_cache_hits == st.hits
                    &&& self.stats.translation_cache_misses == st.misses
                }),
            decreases texts.len() - i,
        {
            let ghost prev = queue_all(start, src@, tgt@, tv.take(i as int));
            assert(tv.take(i + 1).drop_last() == tv.take(i as int));
            assert(tv.take(i + 1).last() == texts@[i as int]@);
            let key = normalize_text(texts[i].as_str());
            if !key.as_str().is_empty() {
                match self.translation_cache.get(src, tgt, key.as_str()) {
                    Some(_) => {
                        self.stats.translation_cache_hits = counter_bump(
                            self.stats.translation_cache_hits,
                        );
                    },
                    None => {
                        self.stats.translation_cache_misses = counter_bump(
                            self.stats.translation_cache_misses,
                        );
                        match self.pending_position(&key) {
                            Some(_) => {},
                            None => {
                                let ghost before_new = strings_view(new_texts@);
                                self.add_pending(key);
                                new_texts.push(texts[i].clone());
                                assert(strings_view(new_texts@) =~= before_new.push(
                                    texts@[i as int]@,
                                ));
                            },
                        }
                    },
                }
            }
            i = i + 1;
        }
        assert(tv.take(texts.len() as int) == tv);
        if new_texts.len() > 0 {
            let task = TranslationTask {
                region_id: self.id.clone(),
                source_lang: clone_opt_string(source_lang),
                target_lang: target_lang.clone(),
                texts: new_texts,
            };
            let ghost before_q = self.queued@;
            self.queued.push(task);
            assert(self.queued@.drop_last() == before_q);
        }
        proof {
            self.lemma_pending_count();
        }
        self.stats.pending = self.pending.len();
        self.last_texts = texts;
        changed
    }

    /// The draw plan from cached translations: for each region of the last
    /// OCR run, in order, its index and cached translation, when there is one
    /// (see `plan_all`). Lookups refresh the cache like any other lookup.
    pub fn overlay_plan(&mut self, source_lang: &Option<String>, target_lang: &String) -> (items: Vec<
        (usize, String),
    >)
        requires
            old(self).wf(),
        ensures
            final(self).wf(),
            ({
                let st = plan_all(
                    PlanState {
                        cache: old(self).cache_entries(),
                        cache_hits: old(self).cache_hits(),
                        cache_misses: old(self).cache_misses(),
                        items: seq![],
                    },
                    lookup_source(*source_lang),
                    target_lang@,
                    old(self).last_texts_view(),
                );
                &&& final(self).cache_entries() == st.cache
                &&& final(self).cache_hits() == st.cache_hits
                &&& final(self).cache_misses() == st.cache_misses
                &&& items@.map_values(|p: (usize, String)| (p.0 as int, p.1@)) == st.items
            }),
            final(self).cache_capacity() == old(self).cache_capacity(),
            final(self).stats_view() == old(self).stats_view(),
            final(self).id_view() == old(self).id_view(),
            final(self).pending_set() == old(self).pending_set(),
            final(self).last_texts_view() == old(self).last_texts_view(),
            final(self).queued_view() == old(self).queued_view(),
            final(self).ocr_ran() == old(self).ocr_ran(),
            final(self).failure_released() == old(self).failure_released(),
    {
        let src = source_key(source_lang);
        let tgt = target_lang.as_str();
        let ghost tv = self.last_texts_view();
        let ghost start = PlanState {
            cache: old(self).cache_entries(),
            cache_hits: old(self).cache_hits(),
            cache_misses: old(self).cache_misses(),
            items: seq![],
        };
        let mut items: Vec<(usize, String)> = Vec::new();
        let mut i: usize = 0;
        let n = self.last_texts.len();
        assert(tv.take(0) =~= Seq::<Seq<char>>::empty());
        assert(items@.map_values(|p: (usize, String)| (p.0 as int, p.1@)) =~= Seq::<
            (int, Seq<char>),
        >::empty());
        while i < n
            invariant
                i <= n,
                n == self.last_texts.len(),
                tv == self.last_texts_view(),
                tv == old(self).last_texts_view(),
                src@ == lookup_source(*source_lang),
                tgt@ == target_lang@,
                self.wf(),
                self.cache_capacity() == old(self).cache_capacity(),
                self.id@ == old(self).id@,
                self.queued == old(self).queued,
                self.last_texts == old(self).last_texts,
                self.pending == old(self).pending,
                self.last_ocr_time == old(self).last_ocr_time,
                self.last_failed == old(self).last_failed,
                self.stats == old(self).stats,
                ({
                    let st = plan_all(start, src@, tgt@, tv.take(i as int));
                    &&& self.cache_entries() == st.cache
                    &&& self.cache_hits() == st.cache_hits
                    &&& self.cache_misses() == st.cache_misses
                    &&& items@.map_values(|p: (usize, String)| (p.0 as int, p.1@)) == st.items
                }),
            decreases n - i,
        {
            assert(tv.take(i + 1).drop_last() == tv.take(i as int));
            assert(tv.take(i + 1).last() == self.last_texts@[i as int]@);
            assert(tv.take(i + 1).len() - 1 == i);
            let key = normalize_text(self.last_texts[i].as_str());
            if !key.as_str().is_empty() {
                let ghost before = self.cache_entries();
                match self.translation_cache.get(src, tgt, key.as_str()) {
                    Some(translated) => {
                        let ghost before_items = items@.map_values(
                            |p: (usize, String)| (p.0 as int, p.1@),
                        );
                        items.push((i, translated));
                        assert(items@.map_values(|p: (usize, String)| (p.0 as int, p.1@))
                            =~= before_items.push((i as int, translated@)));
                    },
                    None => {},
                }
            }
            i = i + 1;
        }
        assert(tv.take(n as int) == tv);
        items
    }

    /// Apply translation results computed for `task` (in the task's order):
    /// each text's translation is stored in the cache and the text is no
    /// longer in flight. Extra texts or results are ignored.
    pub fn accept_translations(&mut self, task: &TranslationTask, results: Vec<Translation>)
        requires
            old(self).wf(),
        ensures
            final(self).wf(),
            ({
                let n = if task.texts.len() <= results.len() {
                    task.texts.len()
                } else {
                    results.len()
                };
                let texts = strings_view(task.texts@).take(n as int);
                &&& final(self).cache_entries() == store_all(
                    old(self).cache_entries(),
                    old(self).cache_capacity(),
                    lookup_source(task.source_lang),
                    task.target_lang@,
                    texts,
                    results@.map_values(|t: Translation| t.translated_text),
                )
                &&& final(self).pending_set() == release_all(old(self).pending_set(), texts)
            }),
            final(self).stats_view() == (SessionStats {
                pending: final(self).pending_set().len() as usize,
                ..old(self).stats_view()
            }),
            final(self).cache_capacity() == old(self).cache_capacity(),
            final(self).cache_hits() == old(self).cache_hits(),
            final(self).cache_misses() == old(self).cache_misses(),
            final(self).id_view() == old(self).id_view(),
            final(self).last_texts_view() == old(self).last_texts_view(),
            final(self).queued_view() == old(self).queued_view(),
            final(self).ocr_ran() == old(self).ocr_ran(),
            final(self).failure_released() == old(self).failure_released(),
    {
        let src = source_key(&task.source_lang);
        let tgt = task.target_lang.as_str();
        let n = if task.texts.len() <= results.len() {
            task.texts.len()
        } else {
            results.len()
        };
        let ghost tv = strings_view(task.texts@);
        let ghost translated = results@.map_values(|t: Translation| t.translated_text);
        let ghost cache0 = self.cache_entries();
        let ghost pending0 = self.pending_set();
        let mut i: usize = 0;
        assert(release_all(pending0, tv.take(0)) =~= pending0);
        while i < n
            invariant
                i <= n,
                n <= task.texts.len(),
                n <= results.len(),
                tv == strings_view(task.texts@),
                translated == results@.map_values(|t: Translation| t.translated_text),
                src@ == lookup_source(task.source_lang),
                tgt@ == task.target_lang@,
                self.wf(),
                self.cache_capacity() == old(self).cache_capacity(),
                self.cache_hits() == old(self).cache_hits(),
                self.cache_misses() == old(self).cache_misses(),
                self.id@ == old(self).id@,
                self.queued == old(self).queued,
                self.last_texts == old(self).last_texts,
                self.last_ocr_time == old(self).last_ocr_time,
                self.last_failed == old(self).last_failed,
                self.stats == old(self).stats,
                self.cache_entries() == store_all(
                    cache0,
                    old(self).cache_capacity(),
                    src@,
                    tgt@,
                    tv.take(i as int),
                    translated,
                ),
                self.pending_set() == release_all(pending0, tv.take(i as int)),
            decreases n - i,
        {
            let ghost t1 = tv.take(i + 1);
            assert(t1.drop_last() == tv.take(i as int));
            assert(t1[i as int] == task.texts@[i as int]@);
            assert(translated[i as int] == results@[i as int].translated_text);
            let key = normalize_text(task.texts[i].as_str());
            self.translation_cache.insert(src, tgt, key.as_str(), results[i].translated_text.clone());
            let ghost p_before = self.pending_set();
            self.remove_pending(&key);
            proof {
                assert(release_all(pending0, t1) =~= p_before.remove(key@)) by {
                    assert forall|k: Seq<char>|
                        release_all(pending0, t1).contains(k) <==> p_before.remove(key@).contains(k) by {
                        if exists|j: int| 0 <= j < i && normalized(tv.take(i as int)[j]) == k {
                            let j = choose|j: int| 0 <= j < i && normalized(tv.take(i as int)[j]) == k;
                            assert(normalized(t1[j]) == k);
                        }
                        if exists|j: int| 0 <= j < i + 1 && normalized(t1[j]) == k {
                            let j = choose|j: int| 0 <= j < i + 1 && normalized(t1[j]) == k;
                            if j < i {
                                assert(normalized(tv.take(i as int)[j]) == k);
                            }
                        }
                    }
                }
            }
            i = i + 1;
        }
        proof {
            self.lemma_pending_count();
        }
        self.stats.pending = self.pending.len();
    }

    /// Called when a translation request permanently failed. Releases the
    /// pending markers so a later frame can retry, at most once per cooldown
    /// so a failing upstream is not hammered.
    pub fn note_failure(&mut self, task: &TranslationTask)
        requires
            old(self).wf(),
        ensures
            final(self).wf(),
            exists|elapsed: Option<u128>|
                (elapsed is None <==> !old(self).failure_released()) && if failure_release_due(
                    elapsed,
                ) {
                    &&& final(self).pending_set() == release_all(
                        old(self).pending_set(),
                        strings_view(task.texts@),
                    )
                    &&& final(self).failure_released()
                    &&& final(self).stats_view() == (SessionStats {
                        pending: final(self).pending_set().len() as usize,
                        ..old(self).stats_view()
                    })
                } else {
                    &&& final(self).pending_set() == old(self).pending_set()
                    &&& final(self).failure_released() == old(self).failure_released()
                    &&& final(self).stats_view() == old(self).stats_view()
                },
            final(self).last_failure_wait() is None <==> !old(self).failure_released(),
            failure_release_due(final(self).last_failure_wait()) ==> {
                &&& final(self).pending_set() == release_all(
                    old(self).pending_set(),
                    strings_view(task.texts@),
                )
                &&& final(self).failure_released()
                &&& final(self).stats_view() == (SessionStats {
                    pending: final(self).pending_set().len() as usize,
                    ..old(self).stats_view()
                })
            },
            !failure_release_due(final(self).last_failure_wait()) ==> {
                &&& final(self).pending_set() == old(self).pending_set()
                &&& final(self).failure_released() == old(self).failure_released()
                &&& final(self).stats_view() == old(self).stats_view()
            },
            final(self).cache_entries() == old(self).cache_entries(),
            final(self).cache_capacity() == old(self).cache_capacity(),
            final(self).cache_hits() == old(self).cache_hits(),
            final(self).cache_misses() == old(self).cache_misses(),
            final(self).id_view() == old(self).id_view(),
            final(self).last_texts_view() == old(self).last_texts_view(),
            final(self).queued_view() == old(self).queued_view(),
            final(self).ocr_ran() == old(self).ocr_ran(),
    {
        let now = instant_now();
        let elapsed = match &self.last_failed {
            Some(t) => Some(duration_nanos(&duration_between(&now, t))),
            None => None,
        };
        if should_release_failure(elapsed) {
            let ghost tv = strings_view(task.texts@);
            let ghost pending0 = self.pending_set();
            let mut i: usize = 0;
            assert(release_all(pending0, tv.take(0)) =~= pending0);
            while i < task.texts.len()
                invariant
                    i <= task.texts.len(),
                    tv == strings_view(task.texts@),
                    self.wf(),
                    self.translation_cache == old(self).translation_cache,
                    self.id@ == old(self).id@,
                    self.queued == old(self).queued,
                    self.last_texts == old(self).last_texts,
                    self.last_ocr_time == old(self).last_ocr_time,
                    self.last_failed == old(self).last_failed,
                    self.stats == old(self).stats,
                    self.pending_set() == release_all(pending0, tv.take(i as int)),
                decreases task.texts.len() - i,
            {
                let ghost t1 = tv.take(i + 1);
                assert(t1.drop_last() == tv.take(i as int));
                assert(t1[i as int] == task.texts@[i as int]@);
                let key = normalize_text(task.texts[i].as_str());
                let ghost p_before = self.pending_set();
                self.remove_pending(&key);
                proof {
                    assert(release_all(pending0, t1) =~= p_before.remove(key@)) by {
                        assert forall|k: Seq<char>|
                            release_all(pending0, t1).contains(k) <==> p_before.remove(key@).contains(k) by {
                            if exists|j: int| 0 <= j < i && normalized(tv.take(i as int)[j]) == k {
                                let j = choose|j: int| 0 <= j < i && normalized(tv.take(i as int)[j]) == k;
                                assert(normalized(t1[j]) == k);
                            }
                            if exists|j: int| 0 <= j < i + 1 && normalized(t1[j]) == k {
                                let j = choose|j: int| 0 <= j < i + 1 && normalized(t1[j]) == k;
                                if j < i {
                                    assert(normalized(tv.take(i as int)[j]) == k);
                                }
                            }
                        }
                    }
                }
                i = i + 1;
            }
            assert(tv.take(task.texts.len() as int) == tv);
            self.last_failed = Some(now);
            proof {
                self.lemma_pending_count();
            }
            self.stats.pending = self.pending.len();
        }
        self.failure_wait = Ghost(elapsed);
    }

    /// Take pending translation work. The caller chunks and runs it.
    pub fn drain_requests(&mut self) -> (tasks: Vec<TranslationTask>)
        requires
            old(self).wf(),
        ensures
            final(self).wf(),
            tasks@ == old(self).queued_view(),
            final(self).queued_view().len() == 0,
            final(self).stats_view() == old(self).stats_view(),
            final(self).id_view() == old(self).id_view(),
            final(self).cache_entries() == old(self).cache_entries(),
            final(self).cache_hits() == old(self).cache_hits(),
            final(self).cache_misses() == old(self).cache_misses(),
            final(self).pending_set() == old(self).pending_set(),
            final(self).last_texts_view() == old(self).last_texts_view(),
            final(self).ocr_ran() == old(self).ocr_ran(),
            final(self).failure_released() == old(self).failure_released(),
    {
        let mut out: Vec<TranslationTask> = Vec::new();
        std::mem::swap(&mut out, &mut self.queued);
        out
    }

    pub fn translation_cache_len(&self) -> (n: usize)
        ensures
            n == self.cache_entries().len(),
    {
        self.translation_cache.len()
    }

    /// The translation cache's `(hits, misses)`.
    pub fn translation_cache_stats(&self) -> (r: (u64, u64))
        ensures
            r == (self.cache_hits(), self.cache_misses()),
    {
        self.translation_cache.stats()
    }

    /// A copy of the counters.
    pub fn peek_stats(&self) -> (s: SessionStats)
        ensures
            s == self.stats_view(),
    {
        self.stats
    }

    /// Take the counters accumulated since the last call and reset them, so
    /// callers can measure rates over an interval (e.g. OCR runs/sec). The
    /// pending count is a level, not a counter, and is kept.
    pub fn take_stats_delta(&mut self) -> (d: SessionStats)
        ensures
            d == old(self).stats_view(),
            final(self).stats_view() == (SessionStats {
                ocr_runs: 0,
                frames_seen: 0,
                ocr_ms: 0,
                ocr_cache_hits: 0,
                translation_cache_hits: 0,
                translation_cache_misses: 0,
                pending: old(self).stats_view().pending,
            }),
            final(self).same_apart_from_stats(*old(self)),
    {
        let d = SessionStats {
            ocr_runs: self.stats.ocr_runs,
            frames_seen: self.stats.frames_seen,
            ocr_ms: self.stats.ocr_ms,
            ocr_cache_hits: self.stats.ocr_cache_hits,
            translation_cache_hits: self.stats.translation_cache_hits,
            translation_cache_misses: self.stats.translation_cache_misses,
            pending: self.stats.pending,
        };
        self.stats.ocr_runs = 0;
        self.stats.frames_seen = 0;
        self.stats.ocr_ms = 0;
        self.stats.ocr_cache_hits = 0;
        self.stats.translation_cache_hits = 0;
        self.stats.translation_cache_misses = 0;
        d
    }

    /// Counts a hit of the caller's text-region cache.
    pub fn note_ocr_cache_hit(&mut self)
        ensures
            final(self).stats_view() == (SessionStats {
                ocr_cache_hits: bump(old(self).stats_view().ocr_cache_hits),
                ..old(self).stats_view()
            }),
            final(self).same_apart_from_stats(*old(self)),
    {
        self.stats.ocr_cache_hits = counter_bump(self.stats.ocr_cache_hits);
    }
}

} // verus!
