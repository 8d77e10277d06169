use screen_translator_core::translation::cache::TranslationCache;
use screen_translator_core::translation::local::LocalProvider;
use screen_translator_core::translation::openai::{
    classify_status, parse_translation_response, system_prompt, translations_from_response,
    user_prompt, OpenAiConfig, OpenAiProvider,
};
use screen_translator_core::translation::{
    normalize_text, TranslateError, TranslateRequest, TranslationProvider,
};

fn req(texts: Vec<&str>) -> TranslateRequest {
    TranslateRequest {
        texts: texts.into_iter().map(|s| s.to_string()).collect(),
        source_lang: Some("ja".into()),
        target_lang: "zh-CN".into(),
    }
}

fn provider(batch_size: usize, max_retries: u32, base_url: &str) -> OpenAiProvider {
    OpenAiProvider::new(OpenAiConfig {
        base_url: base_url.into(),
        api_key: "".into(),
        model: "m".into(),
        timeout_secs: 1,
        max_retries,
        batch_size,
    })
}

#[test]
fn cache_hit_normalizes_whitespace() {
    let mut c = TranslationCache::new(10);
    assert!(c.get("ja", "zh", "Iron  Sword").is_none());
    c.insert("ja", "zh", "Iron Sword", "铁剑".into());
    assert_eq!(c.get("ja", "zh", "  Iron   Sword "), Some("铁剑".into()));
}

#[test]
fn cache_miss_on_different_language_pair() {
    let mut c = TranslationCache::new(10);
    c.insert("ja", "zh", "Iron Sword", "铁剑".into());
    assert!(c.get("en", "zh", "Iron Sword").is_none());
}

#[test]
fn stats_track_hits() {
    let mut c = TranslationCache::new(10);
    c.insert("en", "zh", "hi", "你好".into());
    let _ = c.get("en", "zh", "hi");
    let _ = c.get("en", "zh", "missing");
    assert_eq!(c.stats(), (1, 1));
    let (h, m) = c.stats();
    let rate = h as f32 / (h + m) as f32;
    assert!((rate - 0.5).abs() < 1e-6);
}

#[test]
fn echoes_text() {
    let p = LocalProvider::default();
    let r = TranslateRequest {
        texts: vec!["Iron Sword".into(), "Attack +30".into()],
        source_lang: Some("ja".into()),
        target_lang: "zh-CN".into(),
    };
    let out = p.translate(&r).unwrap();
    assert_eq!(out.len(), 2);
    assert_eq!(out[0].translated_text, "Iron Sword");
    assert_eq!(out[1].translated_text, "Attack +30");
}

#[test]
fn parses_json_array() {
    let r = req(vec!["Iron Sword", "Attack +30"]);
    let out = parse_translation_response(r#"["铁剑","攻击力 +30"]"#, &r).unwrap();
    assert_eq!(out[0].translated_text, "铁剑");
    assert_eq!(out[1].translated_text, "攻击力 +30");
}

#[test]
fn parses_markers() {
    let r = req(vec!["Iron Sword", "Attack +30"]);
    let out = parse_translation_response("[[0]]铁剑\n[[1]]攻击力 +30", &r).unwrap();
    assert_eq!(out[0].translated_text, "铁剑");
    assert_eq!(out[1].translated_text, "攻击力 +30");
}

#[test]
fn fills_missing_with_source() {
    let r = req(vec!["a", "b", "c"]);
    let out = parse_translation_response("[[0]]A", &r).unwrap();
    assert_eq!(out[0].translated_text, "A");
    assert_eq!(out[1].translated_text, "b");
    assert_eq!(out[2].translated_text, "c");
}

#[test]
fn rejects_too_large_batch_early_in_provider_flow() {
    let p = provider(2, 0, "http://localhost:1/v1");
    let r = req(vec!["a", "b", "c"]);
    assert!(matches!(p.check_batch(&r), Err(TranslateError::BatchTooLarge(_))));
}

#[test]
fn too_large_batch_message_names_both_sizes() {
    let p = provider(2, 0, "http://localhost:1/v1");
    match p.check_batch(&req(vec!["a", "b", "c"])) {
        Err(TranslateError::BatchTooLarge(m)) => {
            assert_eq!(m, "3 texts requested but batch_size is 2")
        }
        _ => panic!("expected a rejected batch"),
    }
}

#[test]
fn empty_request_needs_no_call_and_small_batch_passes() {
    let p = provider(2, 0, "http://localhost:1/v1");
    assert!(matches!(p.check_batch(&req(vec![])), Ok(false)));
    assert!(matches!(p.check_batch(&req(vec!["a", "b"])), Ok(true)));
}

#[test]
fn endpoint_drops_trailing_slashes() {
    let p = provider(8, 0, "https://api.example.com/v1//");
    assert_eq!(p.endpoint_url(), "https://api.example.com/v1/chat/completions");
    let q = provider(8, 0, "http://localhost:1/v1");
    assert_eq!(q.endpoint_url(), "http://localhost:1/v1/chat/completions");
}

#[test]
fn retries_back_off_then_give_up() {
    let p = provider(8, 2, "http://x");
    assert!(matches!(p.after_transient(0, "e".into()), Ok(300)));
    assert!(matches!(p.after_transient(1, "e".into()), Ok(600)));
    match p.after_transient(2, "boom".into()) {
        Err(TranslateError::Transient(m)) => assert_eq!(m, "boom"),
        _ => panic!("expected the transient error"),
    }
}

#[test]
fn http_status_classification() {
    match classify_status(429, "http://x") {
        TranslateError::Transient(m) => assert_eq!(m, "HTTP 429 from http://x"),
        _ => panic!("429 is transient"),
    }
    match classify_status(503, "u") {
        TranslateError::Transient(m) => assert_eq!(m, "HTTP 503 from u"),
        _ => panic!("5xx is transient"),
    }
    match classify_status(401, "u") {
        TranslateError::Config(m) => assert_eq!(m, "HTTP 401 from u"),
        _ => panic!("4xx is a config error"),
    }
}

#[test]
fn prompts_carry_languages_and_markers() {
    let r = req(vec!["Iron Sword", "Attack +30"]);
    assert_eq!(user_prompt(&r), "[[0]]Iron Sword\n[[1]]Attack +30");
    let s = system_prompt(&r);
    assert!(s.starts_with("You are a translation engine. Translate the user's text from ja to zh-CN. "));
    let auto = TranslateRequest { texts: vec![], source_lang: None, target_lang: "en".into() };
    assert!(system_prompt(&auto).contains("from auto-detect to en."));
}

#[test]
fn plain_lines_are_used_when_counts_match() {
    let r = req(vec!["a", "b"]);
    let out = parse_translation_response("  first\n\n second \n", &r).unwrap();
    assert_eq!(out[0].translated_text, "first");
    assert_eq!(out[1].translated_text, "second");
}

#[test]
fn blank_answers_fall_back_to_source() {
    let r = req(vec!["a", "b"]);
    let out = parse_translation_response(r#"["x", "  "]"#, &r).unwrap();
    assert_eq!(out[0].translated_text, "x");
    assert_eq!(out[1].translated_text, "b");
    assert_eq!(out[1].target_lang, "zh-CN");
    assert_eq!(out[1].detected_source_lang, Some("ja".to_string()));
}

#[test]
fn json_array_of_wrong_length_is_not_used() {
    let r = req(vec!["a", "b"]);
    let out = parse_translation_response(r#"["only"]"#, &r).unwrap();
    assert_eq!(out.len(), 2);
    assert_eq!(out[0].translated_text, "a");
    assert_eq!(out[1].translated_text, "b");
}

#[test]
fn parsed_json_items_are_taken_as_given() {
    let r = req(vec!["a", "b"]);
    let json = Some(vec![Some("A".to_string()), Some("B".to_string())]);
    let out = translations_from_response(json, "ignored", &r);
    assert_eq!(out[0].translated_text, "A");
    assert_eq!(out[1].translated_text, "B");
}

#[test]
fn normalize_trims_and_collapses() {
    assert_eq!(normalize_text("  Iron \t\n Sword  "), "Iron Sword");
    assert_eq!(normalize_text("   "), "");
    assert_eq!(normalize_text("a"), "a");
}

#[test]
fn error_messages_name_their_kind() {
    assert_eq!(TranslateError::Config("x".into()).message(), "translation config error: x");
    assert_eq!(TranslateError::Transient("x".into()).message(), "translation retryable error: x");
    assert_eq!(TranslateError::Parse("x".into()).message(), "translation parse error: x");
    assert_eq!(
        TranslateError::BatchTooLarge("x".into()).message(),
        "translation batch too large: x"
    );
}

#[test]
fn default_config_values() {
    let c = OpenAiConfig::default();
    assert_eq!(c.base_url, "https://api.openai.com/v1");
    assert_eq!(c.model, "gpt-4o-mini");
    assert_eq!(c.timeout_secs, 30);
    assert_eq!(c.max_retries, 2);
    assert_eq!(c.batch_size, 8);
    assert!(c.api_key.is_empty());
}
