use cable_bench::reply::{
    api_error_message, build_messages, classify_reply, first_choice_text, node_healthy, rate_limit_wait,
    ReplyAction,
};

#[test]
fn rate_limit_wait_reads_hint() {
    assert_eq!(rate_limit_wait("Please wait 30 seconds before retrying."), 32);
}

#[test]
fn rate_limit_wait_defaults_to_sixty_plus_two() {
    assert_eq!(rate_limit_wait("rate limited"), 62);
    assert_eq!(rate_limit_wait(""), 62);
    assert_eq!(rate_limit_wait("wait"), 62);
}

#[test]
fn rate_limit_wait_skips_wait_without_number() {
    assert_eq!(rate_limit_wait("wait a bit, then wait +7 s"), 9);
    assert_eq!(rate_limit_wait("wait -5 or wait 4"), 6);
}

#[test]
fn rate_limit_wait_is_case_sensitive_and_whole_word() {
    assert_eq!(rate_limit_wait("Wait 10"), 62);
    assert_eq!(rate_limit_wait("await 10"), 62);
}

#[test]
fn rate_limit_wait_overflowing_hint_is_no_hint() {
    assert_eq!(rate_limit_wait("wait 18446744073709551616"), 62);
}

#[test]
fn rate_limit_wait_wraps_at_max() {
    assert_eq!(rate_limit_wait("wait 18446744073709551615"), 1);
}

#[test]
fn classify_rate_limited_retries_until_last_attempt() {
    match classify_reply(0, 429, "wait 5") {
        ReplyAction::Wait { secs, retry } => {
            assert_eq!(secs, 7);
            assert!(retry);
        }
        _ => panic!("expected wait"),
    }
    match classify_reply(4, 429, "") {
        ReplyAction::Wait { secs, retry } => {
            assert_eq!(secs, 62);
            assert!(!retry);
        }
        _ => panic!("expected wait"),
    }
}

#[test]
fn classify_error_status_builds_message() {
    match classify_reply(0, 500, "boom") {
        ReplyAction::Fail { message } => assert_eq!(message, "API error 500 Internal Server Error: boom"),
        _ => panic!("expected failure"),
    }
    match classify_reply(1, 404, "") {
        ReplyAction::Fail { message } => assert_eq!(message, "API error 404 Not Found: "),
        _ => panic!("expected failure"),
    }
}

#[test]
fn classify_success_parses() {
    assert!(matches!(classify_reply(0, 200, "{}"), ReplyAction::Parse));
    assert!(matches!(classify_reply(0, 299, ""), ReplyAction::Parse));
    assert!(matches!(classify_reply(0, 300, ""), ReplyAction::Fail { .. }));
}

#[test]
fn api_error_message_truncates_to_200_chars() {
    let body = "é".repeat(250);
    let m = api_error_message("503 Service Unavailable", &body);
    assert_eq!(m, format!("API error 503 Service Unavailable: {}", "é".repeat(200)));
}

#[test]
fn build_messages_skips_empty_system() {
    let m = build_messages("", "hi");
    assert_eq!(m.len(), 1);
    assert_eq!(m[0].role, "user");
    assert_eq!(m[0].content, "hi");
    let m = build_messages("be brief", "hi");
    assert_eq!(m.len(), 2);
    assert_eq!(m[0].role, "system");
    assert_eq!(m[0].content, "be brief");
    assert_eq!(m[1].role, "user");
}

#[test]
fn node_health_from_status() {
    assert!(node_healthy(Some(200)));
    assert!(node_healthy(Some(204)));
    assert!(!node_healthy(Some(404)));
    assert!(!node_healthy(Some(500)));
    assert!(!node_healthy(None));
}

#[test]
fn first_choice_text_or_empty() {
    assert_eq!(first_choice_text(vec![]), "");
    assert_eq!(first_choice_text(vec!["a".to_string(), "b".to_string()]), "a");
}
