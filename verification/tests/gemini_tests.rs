use ebook_translator::gemini::{
    api_error, backoff_delay, backoff_with, batch_input, batch_token_budget, check_output_status, classify_429,
    estimate_tokens, extract_output_text, fallback_models, model_rpm, parse_translations, ping_reply,
    rate_limit_delay, system_instruction, BatchRetry, FourTwentyNine, GeminiFailure, RateLimiter,
    Reply, Step,
};
use ebook_translator::job::{Batch, BatchItem};
use ebook_translator::json::Json;

const SEC: u64 = 1_000_000_000;

fn json(text: &str) -> Json {
    Json::parse(text).unwrap()
}

fn now_ns() -> u64 {
    std::time::SystemTime::now()
        .duration_since(std::time::UNIX_EPOCH)
        .unwrap()
        .as_nanos() as u64
}

#[test]
fn fallback_chain_stays_in_tier_and_rotates() {
    assert_eq!(
        fallback_models("gemini-3.5-flash"),
        ["gemini-3.6-flash", "gemini-3.7-flash", "gemini-3.8-flash"]
    );
    assert_eq!(
        fallback_models("gemini-3.7-flash"),
        ["gemini-3.8-flash", "gemini-3.5-flash", "gemini-3.6-flash"]
    );
    assert_eq!(fallback_models("gemini-3.5-flash-lite"), ["gemini-3.1-flash-lite"]);
    assert_eq!(fallback_models("my-own-model").len(), 4);
    assert_eq!(fallback_models("my-own-lite-model").len(), 2);
}

#[test]
fn classifies_rate_limit_vs_daily_quota() {
    assert!(matches!(
        classify_429("Rate of requests exceeded GenerateRequestsPerMinutePerProject", Some(30)),
        FourTwentyNine::RateLimit
    ));
    assert!(matches!(classify_429("resource exhausted", None), FourTwentyNine::RateLimit));
    assert!(matches!(
        classify_429("Quota exceeded GenerateRequestsPerDayPerProject_FreeTier", Some(1)),
        FourTwentyNine::DailyConfirmed
    ));
    assert!(matches!(
        classify_429("You exceeded your quota of 200 requests per day", None),
        FourTwentyNine::DailyConfirmed
    ));
    assert!(matches!(classify_429("resource exhausted", Some(1800)), FourTwentyNine::DailySuspected));
}

#[test]
fn penalize_reports_wait_to_logger() {
    let mut l = RateLimiter::new(60);
    let mut seen = Vec::new();
    seen.push(l.penalize(45 * SEC));
    assert_eq!(seen, vec![45 * SEC]);
}

#[test]
fn extracts_text_from_interactions_response() {
    let v = json(
        r#"{
          "id": "x", "status": "completed",
          "usage": { "total_tokens": 42 },
          "steps": [
            { "type": "thought", "signature": "..." },
            { "type": "model_output", "content": [
                { "type": "text", "text": "{\"translations\":" },
                { "type": "text", "text": "[{\"i\":1,\"t\":\"မင်္ဂလာပါ\"}]}" }
            ]}
          ]
        }"#,
    );
    let text = extract_output_text(&v).unwrap();
    assert!(text.contains("translations"));
    let map = parse_translations(&text).unwrap();
    assert_eq!(map.get(&1).map(String::as_str), Some("မင်္ဂလာပါ"));
}

#[test]
fn limiter_slows_down_on_penalize() {
    let mut l = RateLimiter::new(60);
    let (base, interval, _) = l.snapshot();
    assert_eq!(base, SEC);
    assert_eq!(interval, SEC);

    l.penalize(3 * SEC);
    let (_, interval, next) = l.snapshot();
    assert_eq!(interval, 2 * SEC);
    let now = now_ns();
    assert!(next.map(|t| t > now + 2 * SEC).unwrap_or(false));

    l.penalize(SEC);
    l.penalize(SEC);
    let (_, interval, _) = l.snapshot();
    assert_eq!(interval, 4 * SEC);
}

#[test]
fn maps_model_rpm() {
    assert_eq!(model_rpm("gemini-3.5-flash-lite"), 500);
    assert_eq!(model_rpm("gemini-3.8-flash"), 20);
    assert_eq!(model_rpm("something-else"), 20);
}

#[test]
fn limiter_relaxes_after_a_clean_stretch() {
    let mut l = RateLimiter::new(60);
    l.penalize(0);
    l.penalize(0);
    l.penalize(0);
    l.penalize(0);
    let (_, interval, _) = l.snapshot();
    assert_eq!(interval, 4 * SEC);

    for _ in 0..19 {
        l.note_success();
    }
    assert_eq!(l.snapshot().1, 4 * SEC);
    for _ in 0..8 {
        for _ in 0..20 {
            l.note_success();
        }
    }
    let (_, interval, _) = l.snapshot();
    assert!(interval <= 1_400_000_000, "interval should decay toward base, got {interval}");
}

#[test]
fn limiter_holds_starts_apart() {
    let mut l = RateLimiter::new(60);
    assert_eq!(l.try_start(10 * SEC), None);
    assert_eq!(l.try_start(10 * SEC + SEC / 2), Some(SEC / 2));
    assert_eq!(l.try_start(11 * SEC), None);
}

#[test]
fn estimates_tokens_by_script() {
    assert_eq!(estimate_tokens("Hello world, this is fine."), 6);
    assert_eq!(estimate_tokens("မင်္ဂလာပါကျွန်ုပ်"), 7);
    assert_eq!(batch_token_budget("gemini-3.5-flash-lite"), 5_000);
    assert_eq!(batch_token_budget("gemini-3.8-flash"), 10_000);
}

#[test]
fn flags_incomplete_status_as_truncation() {
    let v = json(r#"{"status": "incomplete"}"#);
    let err = check_output_status(&v).unwrap_err();
    assert!(err.text().contains("incomplete"), "{}", err.text());
    let v = json(r#"{"status": "completed"}"#);
    assert!(check_output_status(&v).is_ok());
    assert!(check_output_status(&json("{}")).is_ok());
}

#[test]
fn parses_fenced_json() {
    let map = parse_translations("```json\n{\"translations\":[{\"i\":1,\"t\":\"a\"}]}\n```").unwrap();
    assert_eq!(map.get(&1).map(String::as_str), Some("a"));
}

#[test]
fn rejects_malformed_translations() {
    assert_eq!(
        parse_translations("{\"x\":1}").unwrap_err().text(),
        "missing \"translations\" array in model output"
    );
    assert_eq!(parse_translations("{\"translations\":[]}").unwrap_err().text(), "translations array was empty");
    assert_eq!(
        parse_translations("{\"translations\":[{\"t\":\"a\"}]}").unwrap_err().text(),
        "translation item missing \"i\""
    );
    assert!(parse_translations("not json").unwrap_err().text().starts_with("model returned invalid JSON: "));
}

#[test]
fn backoff_doubles_and_honours_retry_after() {
    assert_eq!(backoff_delay(1, Some(7)), 7_000);
    assert_eq!(backoff_delay(1, Some(900)), 120_000);
    let d = backoff_delay(3, None);
    assert!((8_000..=8_500).contains(&d), "{d}");
    let d = backoff_delay(9, None);
    assert!((16_000..=16_500).contains(&d), "{d}");
    let d = backoff_delay(4, None);
    assert!((16_000..=16_500).contains(&d), "{d}");
    assert_eq!(rate_limit_delay(1), 5);
    assert_eq!(rate_limit_delay(9), 30);
}

#[test]
fn maps_api_errors_to_messages() {
    let body = json(r#"{"error":{"message":"bad thing"}}"#);
    assert_eq!(api_error(400, &body).text(), "API rejected the request (400): bad thing. Check the model ID and key.");
    assert_eq!(api_error(403, &body).text(), "Invalid or unauthorized API key (403 Forbidden): bad thing");
    assert_eq!(api_error(404, &body).text(), "Model not found (404): bad thing");
    assert_eq!(api_error(500, &body).text(), "API error 500: bad thing");
    let wrapped = json(r#"[{"error":{"message":"API key not valid. Please pass a valid API key."}}]"#);
    assert_eq!(api_error(400, &wrapped).text(), "API key is not valid — check it in Settings.");
    assert_eq!(api_error(418, &json("null")).text(), "API error 418: unknown API error");
}

fn answered(status: u16, body: &str, retry_after: Option<u64>) -> Reply {
    Reply::Answered { status, body: json(body), retry_after }
}

const GOOD: &str = r#"{"status":"completed","usage":{"total_tokens":17},
  "steps":[{"type":"model_output","content":[{"type":"text","text":"{\"translations\":[{\"i\":1,\"t\":\"A\"},{\"i\":2,\"t\":\"B\"},{\"i\":9,\"t\":\"Z\"}]}"}]}]}"#;

#[test]
fn batch_reply_success_keeps_requested_paragraphs() {
    let mut r = BatchRetry::new();
    let (step, counted) = r.on_reply(answered(200, GOOD, None), "m", 2);
    assert!(counted);
    match step {
        Step::Done(Ok(res)) => {
            assert_eq!(res.total_tokens, 17);
            assert_eq!(res.translations.len(), 2);
            assert_eq!(res.translations.get(&1).map(String::as_str), Some("A"));
            assert_eq!(res.translations.get(&2).map(String::as_str), Some("B"));
        }
        _ => panic!("expected success"),
    }
}

#[test]
fn batch_reply_missing_paragraph_retries() {
    let mut r = BatchRetry::new();
    let (step, counted) = r.on_reply(answered(200, GOOD, None), "m", 3);
    assert!(counted);
    assert!(matches!(step, Step::Retry(_)));
    assert_eq!(r.attempt, 1);
    assert_eq!(r.last_err.as_ref().unwrap().text(), "model returned 2 of 3 paragraphs");
}

#[test]
fn batch_reply_rate_limit_cools_down() {
    let mut r = BatchRetry::new();
    let (step, counted) = r.on_reply(answered(429, r#"{"error":{"message":"slow down"}}"#, None), "m", 1);
    assert!(!counted);
    assert!(matches!(step, Step::Cooldown(5)));
    assert_eq!(r.rate_hits, 1);
    let (step, _) = r.on_reply(answered(429, r#"{"error":{"message":"slow down"}}"#, Some(500)), "m", 1);
    assert!(matches!(step, Step::Cooldown(120)));
    let (step, _) = r.on_reply(
        answered(429, r#"{"error":{"message":"quota per day reached"}}"#, None),
        "gemini-3.5-flash",
        1,
    );
    match step {
        Step::Done(Err(GeminiFailure::QuotaExhausted(e, true))) => {
            assert_eq!(e.text(), "the free-tier daily quota for gemini-3.5-flash is exhausted")
        }
        _ => panic!("expected quota exhaustion"),
    }
}

#[test]
fn batch_reply_failures() {
    let mut r = BatchRetry::new();
    let (step, _) = r.on_reply(answered(401, r#"{"error":{"message":"no"}}"#, None), "m", 1);
    assert!(matches!(step, Step::Done(Err(GeminiFailure::Fatal(_)))));
    let (step, _) = r.on_reply(answered(503, "{}", Some(2)), "m", 1);
    assert!(matches!(step, Step::Retry(2_000)));
    let (step, counted) = r.on_reply(answered(200, r#"{"status":"incomplete"}"#, None), "m", 1);
    assert!(counted);
    assert!(matches!(step, Step::Done(Err(GeminiFailure::Truncated(_)))));
    for _ in 0..4 {
        assert!(r.can_send());
        let e = ebook_translator::error::AppError::msg("network error: down");
        let _ = r.on_reply(Reply::Failed(e), "m", 1);
    }
    assert!(!r.can_send());
    match r.give_up() {
        GeminiFailure::Exhausted(e) => assert_eq!(e.text(), "network error: down"),
        _ => panic!("expected exhaustion"),
    }
}

#[test]
fn builds_prompt_and_input() {
    let s = system_instruction("Burmese", "  formal tone ");
    assert!(s.starts_with("You are a professional literary translator. You translate numbered text paragraphs into Burmese.\nRules:"));
    assert!(s.ends_with("- Return only JSON matching the required schema.\nAdditional requirements from the user:\nformal tone\n"));
    assert!(system_instruction("Thai", "   ").ends_with("required schema."));
    let batch = Batch {
        items: vec![
            BatchItem { d: 0, b: 0, part: None, text: "Hi \"you\"".into() },
            BatchItem { d: 0, b: 1, part: None, text: "Bye".into() },
        ],
        chars: 0,
        tokens: 0,
    };
    assert_eq!(batch_input(&batch), r#"{"paragraphs":[{"i":1,"t":"Hi \"you\""},{"i":2,"t":"Bye"}]}"#);
}

#[test]
fn ping_reads_reply() {
    assert_eq!(ping_reply(200, &json(GOOD)).unwrap(), r#"{"translations":[{"i":1,"t":"A"},{"i":2,"t":"B"},{"i":9,"t":"Z"}]}"#);
    assert_eq!(ping_reply(200, &json("{}")).unwrap(), "");
    assert!(ping_reply(404, &json("{}")).is_err());
}

#[test]
fn request_text_quotes_like_serde_json() {
    let text = "say \"hi\" \\ now\n\ttab\u{1}\u{1f}\u{7f} é 😀";
    let batch = ebook_translator::job::Batch {
        items: vec![ebook_translator::job::BatchItem { d: 0, b: 0, part: None, text: text.to_string() }],
        chars: text.chars().count(),
        tokens: 1,
    };
    let want = format!("{{\"paragraphs\":[{{\"i\":1,\"t\":{}}}]}}", serde_json::to_string(text).unwrap());
    assert_eq!(batch_input(&batch), want);
}

#[test]
fn backoff_is_the_base_plus_the_jitter() {
    assert_eq!(backoff_with(0, None, 0), 1_000);
    assert_eq!(backoff_with(1, None, 250), 2_250);
    assert_eq!(backoff_with(3, None, 500), 8_500);
    assert_eq!(backoff_with(4, None, 7), 16_007);
    assert_eq!(backoff_with(9, None, 0), 16_000);
    assert_eq!(backoff_with(2, Some(30), 400), 30_000);
    assert_eq!(backoff_with(2, Some(500), 0), 120_000);
}
