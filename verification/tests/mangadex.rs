use acerola_mangadex::data::mangadex::{
    api_url, cover_image_url, ensure_success_result, exponential_backoff, next_attempt_action,
    rate_limit_header_delay, retry_after_delay, retry_delay, summarize_body,
    x_rate_limit_retry_after_delay, AttemptAction, FeedPaging, next_attempt, RequestKind,
};
use acerola_mangadex::infra::AppError;

#[test]
fn accepts_only_ok_results() {
    assert!(ensure_success_result("ok").is_ok());
    match ensure_success_result("error") {
        Err(AppError::Api(m)) => assert_eq!(m, "MangaDex returned result 'error'"),
        other => panic!("unexpected {other:?}"),
    }
}

#[test]
fn backoff_doubles_up_to_a_cap() {
    assert_eq!(exponential_backoff(0), 500);
    assert_eq!(exponential_backoff(1), 1_000);
    assert_eq!(exponential_backoff(4), 8_000);
    assert_eq!(exponential_backoff(5), 16_000);
    assert_eq!(exponential_backoff(50), 16_000);
}

#[test]
fn reads_rate_limit_headers_with_a_margin() {
    assert_eq!(x_rate_limit_retry_after_delay(Some("110"), Some(100)), Some(10));
    assert_eq!(x_rate_limit_retry_after_delay(Some("90"), Some(100)), Some(0));
    assert_eq!(x_rate_limit_retry_after_delay(Some("soon"), Some(100)), None);
    assert_eq!(x_rate_limit_retry_after_delay(Some("110"), None), None);
    assert_eq!(retry_after_delay(Some("7")), Some(7));
    assert_eq!(retry_after_delay(Some(" 7")), None);
    assert_eq!(rate_limit_header_delay(Some("110"), Some("7"), Some(100)), Some(11_000));
    assert_eq!(rate_limit_header_delay(Some("x"), Some("7"), Some(100)), Some(8_000));
    assert_eq!(rate_limit_header_delay(None, None, Some(100)), None);
    assert_eq!(retry_delay(None, 2), 2_000);
    assert_eq!(retry_delay(Some(3), 2), 3);
}

#[test]
fn decides_each_attempt() {
    assert_eq!(next_attempt_action(0, 5, Some(200), None), AttemptAction::Deliver);
    assert_eq!(
        next_attempt_action(1, 5, Some(429), None),
        AttemptAction::Retry { delay_ms: 1_000 }
    );
    assert_eq!(
        next_attempt_action(5, 5, Some(429), Some(4_000)),
        AttemptAction::Retry { delay_ms: 4_000 }
    );
    assert_eq!(next_attempt_action(0, 5, Some(403), None), AttemptAction::Forbidden);
    assert_eq!(
        next_attempt_action(2, 5, Some(503), None),
        AttemptAction::Retry { delay_ms: 2_000 }
    );
    assert_eq!(next_attempt_action(5, 5, Some(503), None), AttemptAction::Fail);
    assert_eq!(next_attempt_action(0, 5, Some(404), None), AttemptAction::Fail);
    assert_eq!(
        next_attempt_action(0, 5, None, None),
        AttemptAction::Retry { delay_ms: 500 }
    );
    assert_eq!(next_attempt_action(5, 5, None, None), AttemptAction::GiveUp);
}

#[test]
fn pages_the_feed_without_passing_the_hard_limit() {
    let mut paging = FeedPaging::new(100, 250);
    assert_eq!(paging.next_request().unwrap(), (0, 100));
    assert_eq!(paging.accept_page("ok", 240, 100).unwrap(), false);
    assert_eq!(paging.next_request().unwrap(), (100, 100));
    assert_eq!(paging.accept_page("ok", 240, 100).unwrap(), false);
    assert_eq!(paging.next_request().unwrap(), (200, 50));
    assert_eq!(paging.accept_page("ok", 240, 40).unwrap(), true);
}

#[test]
fn stops_paging_on_bad_pages() {
    let mut paging = FeedPaging::new(100, 250);
    match paging.accept_page("ok", 300, 10) {
        Err(AppError::Api(m)) => assert_eq!(
            m,
            "Manga feed contains 300 entries, which exceeds MangaDex collection pagination limit 250"
        ),
        other => panic!("unexpected {other:?}"),
    }
    match paging.accept_page("ok", 10, 0) {
        Err(AppError::Api(m)) => assert_eq!(
            m,
            "MangaDex returned an empty chapter page before the feed was complete"
        ),
        other => panic!("unexpected {other:?}"),
    }
    assert!(matches!(paging.accept_page("error", 10, 5), Err(AppError::Api(_))));
    let done = FeedPaging { offset: 250, page_limit: 100, hard_limit: 250 };
    match done.next_request() {
        Err(AppError::Api(m)) => assert_eq!(
            m,
            "Manga feed cannot be paginated safely past offset 250 because MangaDex rejects offset + limit above 250"
        ),
        other => panic!("unexpected {other:?}"),
    }
}

#[test]
fn builds_urls() {
    assert_eq!(
        cover_image_url("https://uploads.mangadex.org//", "id", "f.jpg"),
        "https://uploads.mangadex.org/covers/id/f.jpg"
    );
    assert_eq!(
        api_url("https://api.mangadex.org/", "/manga/x"),
        "https://api.mangadex.org/manga/x"
    );
}

#[test]
fn summarises_error_bodies() {
    assert_eq!(summarize_body("  a \n b  "), "a b");
    let long = "x".repeat(301);
    assert_eq!(summarize_body(&long), format!("{}...", "x".repeat(300)));
    let exact = "y".repeat(300);
    assert_eq!(summarize_body(&exact), exact);
}

#[test]
fn attempts_stop_after_the_retry_budget() {
    assert_eq!(next_attempt(RequestKind::Api, 0, 3).unwrap(), 1);
    assert_eq!(next_attempt(RequestKind::Image, 2, 3).unwrap(), 3);
    match next_attempt(RequestKind::Api, 3, 3) {
        Err(AppError::RateLimit(m)) => assert_eq!(m, "MangaDex API request retry budget was exhausted"),
        other => panic!("unexpected {other:?}"),
    }
    match next_attempt(RequestKind::Image, 7, 3) {
        Err(AppError::RateLimit(m)) => assert_eq!(m, "image request retry budget was exhausted"),
        other => panic!("unexpected {other:?}"),
    }
    let mut attempt = 0;
    let mut requests = 1;
    while let Ok(next) = next_attempt(RequestKind::Api, attempt, 3) {
        attempt = next;
        requests += 1;
    }
    assert_eq!(requests, 4);
}
