use ebook_translator::usage::{load_usage, quota_day, UsageState, DAY_SECS, RESET_UTC_SECS};

#[test]
fn quota_day_boundary_is_08utc() {
    let e = 1_767_225_600; // 2026-01-01T00:00:00Z
    assert_eq!(quota_day(e + 7 * 3600 + 3599), quota_day(e)); // 07:59:59
    assert_eq!(quota_day(e + 8 * 3600), quota_day(e) + 1); // 08:00:00
}

#[test]
fn quota_day_does_not_overflow() {
    assert_eq!(quota_day(u64::MAX), ((u64::MAX as u128 + 57_600) / 86_400) as u64);
    assert_eq!(quota_day(0), 0);
    assert_eq!(quota_day(28_799), 0);
    assert_eq!(quota_day(28_800), 1);
}

#[test]
fn counts_requests_and_rolls_over() {
    let today = quota_day(1_767_225_600);
    let mut s = UsageState::new(today);
    s.record_request("gemini-3.5-flash", today);
    s.record_request("gemini-3.5-flash", today);
    s.mark_exhausted("gemini-3.5-flash", today);
    s.record_request("gemini-3.8-flash", today);
    let snap = s.snapshot(today);
    assert_eq!(snap.models.len(), 2);
    assert_eq!(snap.models[0].0, "gemini-3.5-flash");
    assert_eq!(snap.models[0].1.requests, 2);
    assert!(snap.models[0].1.exhausted);
    assert_eq!(snap.models[1].1.requests, 1);
    assert!(!snap.models[1].1.exhausted);
    assert_eq!(snap.reset_at % DAY_SECS, RESET_UTC_SECS);
    assert_eq!(quota_day(snap.reset_at), today + 1);
    assert_eq!(quota_day(snap.reset_at - 1), today);

    let snap = s.snapshot(today + 1);
    assert!(snap.models.is_empty(), "a new quota day starts clean");
    assert_eq!(s.current_day(today + 1), today + 1);
}

#[test]
fn loads_saved_usage() {
    let saved = r#"{"day": 7, "models": {"a": {"requests": 3, "exhausted": true}, "b": {"requests": "x"}}}"#;
    let s = load_usage(saved, 7);
    assert_eq!(s.day, 7);
    assert_eq!(s.models.len(), 2);
    assert_eq!(s.models[0].0, "a");
    assert_eq!(s.models[0].1.requests, 3);
    assert!(s.models[0].1.exhausted);
    assert_eq!(s.models[1].1.requests, 0);
    let s = load_usage(saved, 8);
    assert_eq!(s.day, 8);
    assert!(s.models.is_empty(), "a file from a previous quota day starts clean");
    let s = load_usage("garbage", 9);
    assert_eq!(s.day, 9);
    assert!(s.models.is_empty());
}

#[test]
fn moves_to_the_next_model_with_quota() {
    let mut st = UsageState::new(5);
    assert_eq!(st.next_model("gemini-3.5-flash").as_deref(), Some("gemini-3.6-flash"));
    st.mark_exhausted("gemini-3.6-flash", 5);
    assert_eq!(st.next_model("gemini-3.5-flash").as_deref(), Some("gemini-3.7-flash"));
    st.mark_exhausted("gemini-3.7-flash", 5);
    st.mark_exhausted("gemini-3.8-flash", 5);
    assert_eq!(st.next_model("gemini-3.5-flash"), None);
    st.mark_exhausted("gemini-3.5-flash-lite", 5);
    assert_eq!(st.next_model("gemini-3.5-flash-lite").as_deref(), Some("gemini-3.1-flash-lite"));
}

#[test]
fn recording_counts_only_that_model() {
    let mut s = UsageState::new(9);
    s.record_request("a", 9);
    s.mark_exhausted("b", 9);
    s.record_request("b", 9);
    s.record_request("b", 9);
    let snap = s.snapshot(9);
    let get = |m: &str| snap.models.iter().find(|(k, _)| k == m).map(|(_, u)| *u).unwrap();
    assert_eq!(get("a").requests, 1);
    assert!(!get("a").exhausted);
    assert_eq!(get("b").requests, 2);
    assert!(get("b").exhausted);
}

#[test]
fn reset_is_after_now_and_within_a_day() {
    for now in [0u64, 28_799, 28_800, 28_801, 1_767_225_600, 1_767_225_600 + 8 * 3600 - 1, 1_767_225_600 + 8 * 3600] {
        let mut s = UsageState::new(quota_day(now));
        let snap = s.snapshot(quota_day(now));
        assert!(now < snap.reset_at && snap.reset_at <= now + DAY_SECS, "{now}");
        assert_eq!(snap.reset_at % DAY_SECS, RESET_UTC_SECS);
    }
}
