use markdown_translator::endpoint::{build_request, interpret_response, uses_dptrans, JsonProbe, TranslationRequest};
use markdown_translator::orchestrate::{
    collect_in_order, join_translations, plan_translation, verbatim_result, TranslationPlan,
};
use markdown_translator::retry::{next_delay, RetryState, RetryStep};
use markdown_translator::{
    DeepLXResponse, RateLimiter, RetryConfig, TextSegment, TranslationConfig, TranslationError,
    TranslationService,
};

fn config(enabled: bool, max: usize, url: &str) -> TranslationConfig {
    TranslationConfig {
        enabled,
        source_lang: "en".to_string(),
        target_lang: "zh".to_string(),
        deeplx_api_url: url.to_string(),
        max_requests_per_second_milli: 1000,
        max_text_length: max,
        max_paragraphs_per_request: 10,
    }
}

#[test]
fn next_delay_grows_by_multiplier() {
    let p = RetryConfig::default();
    assert_eq!(next_delay(&p, 100), 120);
    assert_eq!(next_delay(&p, 172), 206);
}

#[test]
fn next_delay_is_capped() {
    let p = RetryConfig::default();
    assert_eq!(next_delay(&p, 900), 1000);
    assert_eq!(next_delay(&p, u64::MAX), 1000);
}

#[test]
fn retry_sequence_of_delays() {
    let p = RetryConfig { max_retries: 3, initial_delay_ms: 100, max_delay_ms: 150, backoff_multiplier_percent: 120 };
    let mut st = RetryState::start(&p);
    assert_eq!(st.after_failure(&p), RetryStep::Retry { delay_ms: 100 });
    assert_eq!(st.after_failure(&p), RetryStep::Retry { delay_ms: 120 });
    assert_eq!(st.after_failure(&p), RetryStep::Retry { delay_ms: 144 });
    assert_eq!(st.after_failure(&p), RetryStep::GiveUp);
    assert_eq!(st, RetryState { attempt: 3, delay_ms: 150 });
}

#[test]
fn always_failing_call_makes_max_retries_plus_one_attempts() {
    let p = RetryConfig::default();
    let mut st = RetryState::start(&p);
    let mut attempts = 0;
    let mut last_error = 0;
    loop {
        attempts += 1;
        last_error = attempts;
        match st.after_failure(&p) {
            RetryStep::Retry { .. } => continue,
            RetryStep::GiveUp => break,
        }
    }
    assert_eq!(attempts, p.max_retries + 1);
    assert_eq!(last_error, 2);
}

#[test]
fn default_retry_policy() {
    let p = RetryConfig::default();
    assert_eq!(p.max_retries, 1);
    assert_eq!(p.initial_delay_ms, 100);
    assert_eq!(p.max_delay_ms, 1000);
    assert_eq!(p.backoff_multiplier_percent, 120);
}

#[test]
fn default_translation_config() {
    let c = TranslationConfig::default();
    assert!(!c.enabled);
    assert_eq!(c.source_lang, "auto");
    assert_eq!(c.target_lang, "zh");
    assert_eq!(c.max_requests_per_second_milli, 500);
    assert_eq!(c.max_text_length, 3000);
}

#[test]
fn limiter_at_one_request_per_second() {
    let l = RateLimiter::new(1000);
    assert_eq!(l.permits(), 2);
    assert_eq!(l.delay_ms(), 500);
    assert_eq!(l.pacing_delay(), Some(500));
}

#[test]
fn limiter_rounds_permits_up() {
    let l = RateLimiter::new(1500);
    assert_eq!(l.permits(), 3);
    assert_eq!(l.delay_ms(), 333);
    let slow = RateLimiter::new(500);
    assert_eq!(slow.permits(), 1);
    assert_eq!(slow.delay_ms(), 1000);
}

#[test]
fn fast_limiter_skips_pacing() {
    let l = RateLimiter::new(10000);
    assert_eq!(l.permits(), 20);
    assert_eq!(l.delay_ms(), 50);
    assert_eq!(l.pacing_delay(), None);
}

#[test]
fn dptrans_address_is_recognised() {
    assert!(uses_dptrans("http://host/dptrans/api"));
    assert!(!uses_dptrans("http://localhost:1188/translate"));
    assert!(!uses_dptrans(""));
}

#[test]
fn request_shape_follows_address() {
    match build_request(&config(true, 10, "http://h/dptrans"), "hi") {
        TranslationRequest::DpTrans(q) => {
            assert_eq!(q.text, "hi");
            assert_eq!(q.source_lang, "en");
            assert_eq!(q.target_lang, "zh");
        }
        other => panic!("unexpected {:?}", other),
    }
    assert!(matches!(build_request(&config(true, 10, "http://h/translate"), "hi"), TranslationRequest::DeepLX(_)));
}

#[test]
fn http_failure_is_api_error() {
    let r = interpret_response(false, 503, "busy", None, JsonProbe::NotJson);
    assert!(matches!(r, Err(TranslationError::ApiError { code: 503, .. })));
}

#[test]
fn structured_success_gives_data() {
    let s = DeepLXResponse { code: 200, data: "hola".to_string() };
    assert_eq!(interpret_response(true, 200, "{}", Some(s), JsonProbe::NoField).unwrap(), "hola");
}

#[test]
fn structured_empty_data_is_custom_error() {
    let s = DeepLXResponse { code: 200, data: String::new() };
    let r = interpret_response(true, 200, "{}", Some(s), JsonProbe::NoField);
    assert!(matches!(r, Err(TranslationError::Custom(_))));
}

#[test]
fn structured_failure_code_is_api_error() {
    let s = DeepLXResponse { code: 404, data: "x".to_string() };
    let r = interpret_response(true, 200, "{}", Some(s), JsonProbe::NoField);
    assert!(matches!(r, Err(TranslationError::ApiError { code: 404, .. })));
}

#[test]
fn blank_body_is_custom_error() {
    let r = interpret_response(true, 200, "  \n", None, JsonProbe::NotJson);
    assert!(matches!(r, Err(TranslationError::Custom(_))));
}

#[test]
fn generic_json_field_is_taken() {
    let r = interpret_response(true, 200, "{\"result\":\"hi\"}", None, JsonProbe::Field("hi".to_string()));
    assert_eq!(r.unwrap(), "hi");
}

#[test]
fn json_without_field_is_parse_error() {
    let r = interpret_response(true, 200, "{\"x\":1}", None, JsonProbe::NoField);
    assert!(matches!(r, Err(TranslationError::ParseError(_))));
    let r = interpret_response(true, 200, "{broken", None, JsonProbe::NotJson);
    assert!(matches!(r, Err(TranslationError::ParseError(_))));
}

#[test]
fn plain_text_body_is_the_translation() {
    let r = interpret_response(true, 200, "bonjour", None, JsonProbe::NotJson);
    assert_eq!(r.unwrap(), "bonjour");
}

#[test]
fn disabled_translation_passes_text_through() {
    let text = "anything at all\n```\ncode\n```";
    match plan_translation(&config(false, 5, "u"), text) {
        TranslationPlan::Passthrough(t) => assert_eq!(t, text),
        other => panic!("unexpected {:?}", other),
    }
}

#[test]
fn short_text_is_one_request() {
    match plan_translation(&config(true, 3000, "u"), "Hello") {
        TranslationPlan::Single(t) => assert_eq!(t, "Hello"),
        other => panic!("unexpected {:?}", other),
    }
}

#[test]
fn long_text_is_chunked() {
    let text = "aaaa\n\nbbbb\n```\nc\n```\n";
    match plan_translation(&config(true, 6, "u"), text) {
        TranslationPlan::Chunked(cs) => {
            let remote = cs.iter().filter(|c| !c.is_code_block).count();
            assert_eq!(cs.len(), 3);
            assert_eq!(remote, 2);
            assert_eq!(cs[2].content, "```\nc\n```");
        }
        other => panic!("unexpected {:?}", other),
    }
}

#[test]
fn fence_led_prose_chunk_is_its_own_result() {
    let c = TextSegment { content: "  ```x".to_string(), is_code_block: false };
    assert_eq!(verbatim_result(&c), Some("  ```x".to_string()));
    let plan = plan_translation(&config(true, 3, "u"), "a ```");
    match plan {
        TranslationPlan::Chunked(cs) => {
            let sent = cs.iter().filter(|c| verbatim_result(c).is_none()).count();
            assert_eq!(sent, 1);
        }
        other => panic!("unexpected {:?}", other),
    }
}

#[test]
fn disabled_translation_needs_no_length_limit() {
    match plan_translation(&config(false, 0, "u"), "some text") {
        TranslationPlan::Passthrough(t) => assert_eq!(t, "some text"),
        other => panic!("unexpected {:?}", other),
    }
}

#[test]
fn code_chunk_is_its_own_result() {
    let code = TextSegment { content: "```\nx\n```".to_string(), is_code_block: true };
    assert_eq!(verbatim_result(&code), Some("```\nx\n```".to_string()));
    let prose = TextSegment { content: "x".to_string(), is_code_block: false };
    assert_eq!(verbatim_result(&prose), None);
}

#[test]
fn results_come_back_in_chunk_order() {
    let done = vec![(2, "c".to_string()), (0, "a".to_string()), (1, "b".to_string())];
    let ordered = collect_in_order(3, &done).unwrap();
    assert_eq!(ordered, vec!["a", "b", "c"]);
    assert_eq!(join_translations(&ordered), "a\n\nb\n\nc");
    let other = vec![(1, "b".to_string()), (2, "c".to_string()), (0, "a".to_string())];
    assert_eq!(join_translations(&collect_in_order(3, &other).unwrap()), "a\n\nb\n\nc");
}

#[test]
fn incomplete_or_repeated_results_are_refused() {
    assert_eq!(collect_in_order(2, &vec![(0, "a".to_string()), (0, "b".to_string())]), None);
    assert_eq!(collect_in_order(2, &vec![(0, "a".to_string()), (2, "b".to_string())]), None);
    assert_eq!(collect_in_order(3, &vec![(0, "a".to_string()), (1, "b".to_string())]), None);
    assert_eq!(collect_in_order(0, &vec![]), Some(vec![]));
}

#[test]
fn join_of_one_and_none() {
    assert_eq!(join_translations(&vec!["only".to_string()]), "only");
    assert_eq!(join_translations(&vec![]), "");
}

#[test]
fn service_tags_code_chunks() {
    let svc = TranslationService::new(config(true, 6, "u"));
    let chunks = svc.split_text_into_chunks("intro\n```\ncode\n```\noutro");
    assert_eq!(chunks, vec!["intro\n", "__CODE_BLOCK__```\ncode\n```", "\noutro"]);
    assert!(!svc.is_code_block_chunk(&chunks[0]));
    assert!(svc.is_code_block_chunk(&chunks[1]));
    assert!(!svc.is_code_block_chunk(&chunks[2]));
    assert!(svc.is_code_block_chunk("  ```rust"));
    assert!(!svc.is_code_block_chunk("``"));
}

#[test]
fn service_keeps_its_settings() {
    let svc = TranslationService::new(config(true, 3000, "http://h/dptrans"));
    assert_eq!(svc.config().max_text_length, 3000);
    assert_eq!(svc.rate_limiter().permits(), 2);
    assert_eq!(svc.rate_limiter().delay_ms(), 500);
    match svc.request_for("x") {
        TranslationRequest::DpTrans(q) => {
            assert_eq!(q.source_lang, "en");
            assert_eq!(q.target_lang, "zh");
        }
        other => panic!("unexpected {:?}", other),
    }
    assert_eq!(svc.retry_policy(), RetryConfig::default());
    assert!(matches!(svc.request_for("x"), TranslationRequest::DpTrans(_)));
    assert!(matches!(svc.plan("Hello"), TranslationPlan::Single(_)));
}
