use screen_translator_core::session::{
    should_release_failure, should_run_ocr, split_task, SessionCore, SessionStats, TranslationTask,
};
use screen_translator_core::types::Translation;

fn src() -> Option<String> {
    Some("ja".to_string())
}

fn tgt() -> String {
    "zh-CN".to_string()
}

fn texts(v: &[&str]) -> Vec<String> {
    v.iter().map(|s| s.to_string()).collect()
}

/// The fake translator of the session scenarios: `{t}→译` for each text.
fn fake_translate(task: &TranslationTask) -> Vec<Translation> {
    task.texts
        .iter()
        .map(|t| Translation {
            translated_text: format!("{t}→译"),
            detected_source_lang: task.source_lang.clone(),
            target_lang: task.target_lang.clone(),
        })
        .collect()
}

/// One frame through the session: `None` when nothing is to be redrawn,
/// otherwise the draw plan.
fn process_frame(
    s: &mut SessionCore,
    changed_enough: bool,
    ocr_texts: &[&str],
) -> Option<Vec<(usize, String)>> {
    if !s.begin_frame(changed_enough) {
        return None;
    }
    if !s.ingest_ocr(texts(ocr_texts), &src(), &tgt(), 0) {
        return None;
    }
    Some(s.overlay_plan(&src(), &tgt()))
}

#[test]
fn first_frame_triggers_ocr_and_queues_translation() {
    let mut s = SessionCore::new("r1".into(), 100);
    let r = process_frame(&mut s, true, &["Iron Sword"]);
    assert!(matches!(r, Some(overlays) if overlays.is_empty()));
    let tasks = s.drain_requests();
    assert_eq!(tasks.len(), 1);
    assert_eq!(tasks[0].region_id, "r1");
    assert_eq!(tasks[0].texts, vec!["Iron Sword".to_string()]);
}

#[test]
fn identical_static_frame_does_not_reocr() {
    let mut s = SessionCore::new("r1".into(), 100);
    let _ = process_frame(&mut s, true, &["Iron Sword"]);
    // Static frame that is byte-identical: no new OCR.
    let r = process_frame(&mut s, false, &["Iron Sword"]);
    assert!(r.is_none());
    assert_eq!(s.stats.ocr_runs, 1);
}

#[test]
fn changed_text_after_translation_is_drawn() {
    let mut s = SessionCore::new("r1".into(), 100);
    let _ = process_frame(&mut s, true, &["Iron Sword"]);
    let tasks = s.drain_requests();
    let results = fake_translate(&tasks[0]);
    s.accept_translations(&tasks[0], results);
    let overlays = s.overlay_plan(&src(), &tgt());
    assert_eq!(overlays.len(), 1);
    assert_eq!(overlays[0].1, "Iron Sword→译");

    // Cache hit: second OCR of same text should not requeue.
    let r = process_frame(&mut s, false, &["Iron Sword"]);
    assert!(r.is_none());
    assert!(s.drain_requests().is_empty());
}

#[test]
fn overlapping_pending_requests_are_deduplicated() {
    let mut s = SessionCore::new("r1".into(), 100);
    let _ = process_frame(&mut s, true, &["a", "b"]);
    // Same texts again: nothing new queued.
    let _ = process_frame(&mut s, true, &["a", "b"]);
    let tasks = s.drain_requests();
    assert_eq!(tasks.len(), 1);
    assert_eq!(tasks[0].texts.len(), 2);
}

#[test]
fn texts_in_flight_are_queued_once_even_when_ocr_runs_again() {
    let mut s = SessionCore::new("r1".into(), 100);
    assert!(s.begin_frame(true));
    assert!(s.ingest_ocr(texts(&["a", "b"]), &src(), &tgt(), 3));
    assert!(!s.ingest_ocr(texts(&[" a ", "b"]), &src(), &tgt(), 4));
    assert!(s.ingest_ocr(texts(&["a", "c"]), &src(), &tgt(), 5));
    let tasks = s.drain_requests();
    assert_eq!(tasks.len(), 2);
    assert_eq!(tasks[0].texts, texts(&["a", "b"]));
    assert_eq!(tasks[1].texts, texts(&["c"]));
    assert_eq!(s.stats.pending, 3);
    assert_eq!(s.stats.ocr_runs, 3);
    assert_eq!(s.stats.ocr_ms, 12);
}

#[test]
fn accepted_translations_are_cached_and_released() {
    let mut s = SessionCore::new("r1".into(), 100);
    let _ = process_frame(&mut s, true, &["a", "b"]);
    let tasks = s.drain_requests();
    s.accept_translations(&tasks[0], fake_translate(&tasks[0]));
    assert_eq!(s.stats.pending, 0);
    assert_eq!(s.translation_cache_len(), 2);
    let plan = s.overlay_plan(&src(), &tgt());
    assert_eq!(plan, vec![(0, "a→译".to_string()), (1, "b→译".to_string())]);
    // A cached text is never queued again.
    assert!(!s.ingest_ocr(texts(&["a", "b"]), &src(), &tgt(), 0));
    assert!(s.drain_requests().is_empty());
}

#[test]
fn failure_releases_pending_texts_for_a_retry() {
    let mut s = SessionCore::new("r1".into(), 100);
    let _ = process_frame(&mut s, true, &["a"]);
    let tasks = s.drain_requests();
    assert_eq!(s.stats.pending, 1);
    s.note_failure(&tasks[0]);
    assert_eq!(s.stats.pending, 0);
    let _ = s.ingest_ocr(texts(&["a"]), &src(), &tgt(), 0);
    let again = s.drain_requests();
    assert_eq!(again.len(), 1);
    // A second failure within the cooldown keeps the text in flight.
    s.note_failure(&again[0]);
    assert_eq!(s.stats.pending, 1);
}

#[test]
fn stats_delta_resets_counters_but_keeps_pending() {
    let mut s = SessionCore::new("r1".into(), 100);
    let _ = process_frame(&mut s, true, &["a"]);
    s.note_ocr_cache_hit();
    let d = s.take_stats_delta();
    assert_eq!(d.frames_seen, 1);
    assert_eq!(d.ocr_runs, 1);
    assert_eq!(d.ocr_cache_hits, 1);
    assert_eq!(d.translation_cache_misses, 1);
    assert_eq!(d.pending, 1);
    let e = s.peek_stats();
    assert_eq!(
        e,
        SessionStats {
            ocr_runs: 0,
            frames_seen: 0,
            ocr_ms: 0,
            ocr_cache_hits: 0,
            translation_cache_hits: 0,
            translation_cache_misses: 0,
            pending: 1,
        }
    );
    assert_eq!(SessionStats::default().pending, 0);
}

#[test]
fn ocr_throttling_policy() {
    assert!(should_run_ocr(None, false));
    assert!(!should_run_ocr(Some(699_999_999), true));
    assert!(should_run_ocr(Some(700_000_000), true));
    assert!(!should_run_ocr(Some(2_999_999_999), false));
    assert!(should_run_ocr(Some(3_000_000_000), false));
    assert!(should_release_failure(None));
    assert!(!should_release_failure(Some(4_999_999_999)));
    assert!(should_release_failure(Some(5_000_000_000)));
}

#[test]
fn tasks_split_into_ordered_batches() {
    let task = TranslationTask {
        region_id: "r2".into(),
        source_lang: None,
        target_lang: "en".into(),
        texts: texts(&["a", "b", "c", "d", "e"]),
    };
    let parts = split_task(&task, 2);
    assert_eq!(parts.len(), 3);
    assert_eq!(parts[0].texts, texts(&["a", "b"]));
    assert_eq!(parts[1].texts, texts(&["c", "d"]));
    assert_eq!(parts[2].texts, texts(&["e"]));
    assert!(parts.iter().all(|p| p.region_id == "r2" && p.target_lang == "en" && p.source_lang.is_none()));
    let empty = TranslationTask { texts: vec![], ..task.clone() };
    assert!(split_task(&empty, 3).is_empty());
}
