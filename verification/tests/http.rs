//! Statuses and tries.
use hf_s3ream::http::{
    check_status, is_success, is_transient, page_backoff_ms, status_text, status_text_with,
    Backoff, Reply, Retries, RetryStep,
};

fn response(status: u16, retry_after: Option<&str>) -> Reply {
    Reply::Response {
        status,
        retry_after: retry_after.map(str::to_string),
    }
}

#[test]
fn statuses_are_told_apart() {
    assert!(is_success(200) && is_success(299));
    assert!(!is_success(199) && !is_success(300));
    assert!(is_transient(429) && is_transient(500) && is_transient(599));
    assert!(!is_transient(428) && !is_transient(600) && !is_transient(404));
}

#[test]
fn a_status_is_named_with_its_phrase() {
    assert_eq!(status_text(404), "404 Not Found");
    assert_eq!(status_text(299), "299 <unknown status code>");
    assert_eq!(status_text(7), "7 <unknown status code>");
    assert_eq!(status_text_with(200, Some("Fine".to_string())), "200 Fine");
    assert_eq!(check_status("x", 204, "y"), Ok(()));
    assert_eq!(
        check_status("paths-info", 500, "oops").unwrap_err(),
        "paths-info failed: HTTP 500 Internal Server Error: oops"
    );
}

#[test]
fn transport_failures_are_tried_six_times() {
    let mut r = Retries::new(true);
    for ms in [1000, 2000, 4000, 8000, 16_000] {
        assert_eq!(
            r.observe(&Reply::Transport),
            RetryStep::Again(Backoff::Millis(ms))
        );
    }
    assert_eq!(r.observe(&Reply::Transport), RetryStep::GiveUp);
    assert_eq!(r.attempt, 5);
}

#[test]
fn transport_failures_are_final_where_they_are_not_tried_again() {
    let mut r = Retries::new(false);
    assert_eq!(r.observe(&Reply::Transport), RetryStep::GiveUp);
}

#[test]
fn the_server_may_ask_for_a_wait() {
    let mut r = Retries::new(true);
    assert_eq!(
        r.observe(&response(429, Some("7"))),
        RetryStep::Again(Backoff::Secs(7))
    );
    assert_eq!(
        r.observe(&response(503, Some("Wed, 21 Oct 2015 07:28:00 GMT"))),
        RetryStep::Again(Backoff::Millis(2000))
    );
    assert_eq!(
        r.observe(&response(503, None)),
        RetryStep::Again(Backoff::Millis(4000))
    );
    assert_eq!(r.observe(&response(404, Some("7"))), RetryStep::Return);
    assert_eq!(r.observe(&response(200, None)), RetryStep::Return);
}

#[test]
fn the_last_transient_response_is_handed_on() {
    let mut r = Retries::new(true);
    let mut sent = 1;
    while r.observe(&response(500, None)) != RetryStep::Return {
        sent += 1;
    }
    assert_eq!(sent, 6);
}

#[test]
fn listing_pages_back_off_up_to_ten_seconds() {
    let waits: Vec<Option<u64>> = (1..9).map(page_backoff_ms).collect();
    assert_eq!(
        waits,
        [
            Some(500),
            Some(1000),
            Some(2000),
            Some(4000),
            Some(8000),
            Some(10_000),
            Some(10_000),
            None
        ]
    );
}
