//! Batch operations: what is named, what is sent again, what settles.
use hf_s3ream::bucket_client::{
    body_snippet, name_some, name_some_with, ndjson, retry_ops, BatchError, BatchOp, BatchReport,
    BatchResponse, FailedOp,
};
use hf_s3ream::settlement::{notice, Notice, Opening, Settlement, Step};

fn add(path: &str) -> BatchOp {
    BatchOp::AddFile {
        path: path.to_string(),
        xet_hash: "deadbeef".to_string(),
        mtime: 0,
        content_type: None,
    }
}

/// `n` operations named `f0..fn`.
fn ops(n: usize) -> Vec<BatchOp> {
    (0..n).map(|i| add(&format!("f{i}"))).collect()
}

/// A text member of a JSON object; absent is empty.
fn text_member(v: &serde_json::Value, name: &str) -> String {
    v.get(name).and_then(|p| p.as_str()).unwrap_or("").to_string()
}

/// The report in a body, where it holds one.
fn report(body: &str) -> Option<BatchReport> {
    let v: serde_json::Value = serde_json::from_str(body).ok()?;
    let success = v.get("success")?.as_bool()?;
    let none: Vec<serde_json::Value> = Vec::new();
    let failed = v.get("failed").and_then(|f| f.as_array()).unwrap_or(&none);
    Some(BatchReport {
        success,
        failed: failed
            .iter()
            .map(|f| FailedOp {
                path: text_member(f, "path"),
                error: text_member(f, "error"),
            })
            .collect(),
        processed: v.get("processed").and_then(|n| n.as_i64()),
        succeeded: v.get("succeeded").and_then(|n| n.as_i64()),
    })
}

fn response(status: u16, body: &str) -> BatchResponse {
    BatchResponse {
        status,
        request_id: "req-1".to_string(),
        body: body.to_string(),
        report: report(body),
    }
}

fn ok(body: &str) -> BatchResponse {
    response(200, body)
}

fn unprocessable(body: &str) -> BatchResponse {
    response(422, body)
}

/// The clean body for `n` operations.
fn clean(n: usize) -> String {
    format!(r#"{{"success":true,"processed":{n},"succeeded":{n},"failed":[]}}"#)
}

/// The partial-failure body for `sent` operations, consistent with itself.
fn partial(sent: usize, failed: &[&str]) -> String {
    let entries: Vec<String> = failed
        .iter()
        .map(|p| format!(r#"{{"path":"{p}","error":"boom"}}"#))
        .collect();
    format!(
        r#"{{"success":false,"processed":{sent},"succeeded":{},"failed":[{}]}}"#,
        sent - failed.len(),
        entries.join(",")
    )
}

fn pending<'a>(s: &Settlement<'a>) -> Vec<&'a str> {
    s.pending().iter().copied().map(BatchOp::path).collect()
}

fn err_text(r: Result<Step, BatchError>) -> String {
    r.expect_err("expected an error").message()
}

/// Seconds.
const S2: u64 = 2;
const S4: u64 = 4;

#[test]
fn retry_targets_only_the_failed_paths() {
    let ops = [add("a"), add("b"), add("c")];
    let sent: Vec<&BatchOp> = ops.iter().collect();
    let failed = vec![
        FailedOp {
            path: "c".to_string(),
            error: "boom".to_string(),
        },
        FailedOp {
            path: "a".to_string(),
            error: "boom".to_string(),
        },
    ];
    let retry = retry_ops(&sent, &failed).unwrap();
    assert_eq!(
        retry.iter().map(|op| op.path()).collect::<Vec<_>>(),
        vec!["a", "c"]
    );
}

#[test]
fn a_failed_path_we_never_sent_is_an_error_that_names_it() {
    let ops = [add("a")];
    let sent: Vec<&BatchOp> = ops.iter().collect();
    let failed = vec![
        FailedOp {
            path: "".to_string(),
            error: "boom".to_string(),
        },
        FailedOp {
            path: "zz/never".to_string(),
            error: "boom".to_string(),
        },
    ];
    let msg = retry_ops(&sent, &failed).unwrap_err().message();
    assert!(msg.contains("2 failed path(s)"), "{msg}");
    assert!(msg.contains(r#""", "zz/never""#), "{msg}");
}

#[test]
fn name_some_caps_at_five_and_quotes() {
    let many: Vec<&str> = (0..7).map(|_| "p").collect();
    assert_eq!(name_some(&many), r#""p", "p", "p", "p", "p", …"#);
    assert_eq!(name_some(&["a", "b"]), r#""a", "b""#);
}

#[test]
fn body_snippet_cuts_on_a_char_boundary() {
    let long = "é".repeat(400);
    let cut = body_snippet(&long);
    assert_eq!(cut.chars().count(), 301);
    assert!(cut.ends_with('…'));
    assert_eq!(body_snippet("short"), "short");
}

#[test]
fn a_clean_batch_is_done_on_the_first_attempt() {
    let ops = ops(19);
    let mut s = Settlement::new(&ops);
    assert_eq!(s.observe(&ok(&clean(19))).unwrap(), Step::Done(19));
}

#[test]
fn failed_ops_are_re_sent_alone_and_confirmed_on_the_next_body() {
    let ops = ops(19);
    let mut s = Settlement::new(&ops);
    let first = ok(&partial(19, &["f2", "f7", "f18"]));
    assert_eq!(s.observe(&first).unwrap(), Step::Retry(S2));
    assert_eq!(pending(&s), ["f2", "f7", "f18"]);
    assert_eq!(s.observe(&ok(&clean(3))).unwrap(), Step::Done(19));
}

#[test]
fn a_second_partial_failure_narrows_the_re_send_further() {
    let ops = ops(19);
    let mut s = Settlement::new(&ops);
    let first = ok(&partial(19, &["f2", "f7", "f18"]));
    assert_eq!(s.observe(&first).unwrap(), Step::Retry(S2));
    let second = ok(&partial(3, &["f7"]));
    assert_eq!(s.observe(&second).unwrap(), Step::Retry(S4));
    assert_eq!(pending(&s), ["f7"]);
    assert_eq!(s.observe(&ok(&clean(1))).unwrap(), Step::Done(19));
}

#[test]
fn named_failures_are_re_sent_whatever_success_says() {
    let ops = ops(3);
    let mut s = Settlement::new(&ops);
    let body = r#"{"success":true,"processed":3,"succeeded":2,"failed":[{"path":"f1","error":"boom"}]}"#;
    assert_eq!(s.observe(&ok(body)).unwrap(), Step::Retry(S2));
    assert_eq!(pending(&s), ["f1"]);
}

#[test]
fn an_unreadable_body_on_the_first_attempt_trusts_the_status_code() {
    for body in ["", "<html>ok</html>", r#"{"ok":true}"#] {
        let ops = ops(19);
        let mut s = Settlement::new(&ops);
        assert_eq!(s.observe(&ok(body)).unwrap(), Step::Done(19), "{body}");
    }
}

#[test]
fn an_unreadable_body_on_a_re_send_does_not_confirm_the_ops_it_covered() {
    let ops = ops(19);
    let mut s = Settlement::new(&ops);
    let first = ok(&partial(19, &["f2", "f7", "f18"]));
    assert_eq!(s.observe(&first).unwrap(), Step::Retry(S2));
    assert_eq!(s.observe(&ok("")).unwrap(), Step::Retry(S4));
    assert_eq!(pending(&s), ["f2", "f7", "f18"]);
    assert_eq!(s.observe(&ok(&clean(3))).unwrap(), Step::Done(19));
}

#[test]
fn unreadable_re_sends_run_out_of_attempts_like_failed_ones() {
    let ops = ops(19);
    let mut s = Settlement::new(&ops);
    let first = ok(&partial(19, &["f2", "f7", "f18"]));
    assert_eq!(s.observe(&first).unwrap(), Step::Retry(S2));
    assert_eq!(s.observe(&ok("<html>")).unwrap(), Step::Retry(S4));
    let msg = err_text(s.observe(&ok("<html>")));
    assert!(
        msg.contains("3 operation(s) still failing after 3 attempts"),
        "{msg}"
    );
    assert!(msg.contains(r#""f2", "f7", "f18""#), "{msg}");
}

#[test]
fn success_false_with_nothing_named_fails_the_chunk() {
    let ops = ops(19);
    let mut s = Settlement::new(&ops);
    let body = r#"{"success":false,"processed":19,"succeeded":19,"failed":[]}"#;
    assert!(err_text(s.observe(&ok(body))).contains("success=false"));
}

#[test]
fn ops_still_failing_after_the_last_attempt_are_an_error() {
    let ops = ops(19);
    let mut s = Settlement::new(&ops);
    let first = ok(&partial(19, &["f2", "f7"]));
    assert_eq!(s.observe(&first).unwrap(), Step::Retry(S2));
    let again = ok(&partial(2, &["f2", "f7"]));
    assert_eq!(s.observe(&again).unwrap(), Step::Retry(S4));
    let msg = err_text(s.observe(&again));
    assert!(msg.contains("after 3 attempts"), "{msg}");
    assert!(msg.contains(r#""f2", "f7""#), "{msg}");
}

#[test]
fn a_report_that_does_not_add_up_against_the_request_is_fatal() {
    let ops = ops(19);
    let mut s = Settlement::new(&ops);
    let body = r#"{"success":true,"processed":16,"succeeded":16,"failed":[]}"#;
    let msg = err_text(s.observe(&ok(body)));
    assert!(msg.contains("processed=16 for 19 ops sent"), "{msg}");

    let mut s = Settlement::new(&ops);
    let body = r#"{"success":true,"processed":19,"succeeded":16,"failed":[]}"#;
    let msg = err_text(s.observe(&ok(body)));
    assert!(msg.contains("succeeded=16 for 19 ops sent"), "{msg}");
    assert!(msg.contains("expected 19"), "{msg}");

    // Named failures and a `succeeded` that does not leave room for them.
    let mut s = Settlement::new(&ops);
    let body = r#"{"success":false,"processed":19,"succeeded":19,"failed":[{"path":"f2","error":"boom"}]}"#;
    let msg = err_text(s.observe(&ok(body)));
    assert!(
        msg.contains("succeeded=19 for 19 ops sent with 1 named failed"),
        "{msg}"
    );
    assert!(msg.contains("expected 18"), "{msg}");

    // A negative counter is readable (so `failed[]` is not lost) and fails
    // here rather than falling back to the status code.
    let mut s = Settlement::new(&ops);
    let body = r#"{"success":true,"processed":-1,"succeeded":19,"failed":[]}"#;
    assert!(err_text(s.observe(&ok(body))).contains("processed=-1"));
}

#[test]
fn a_re_send_cannot_confirm_more_than_it_re_sent() {
    let ops = ops(19);
    let mut s = Settlement::new(&ops);
    let first = ok(&partial(19, &["f2", "f7", "f18"]));
    assert_eq!(s.observe(&first).unwrap(), Step::Retry(S2));
    let inflated = r#"{"success":true,"processed":3,"succeeded":19,"failed":[]}"#;
    let msg = err_text(s.observe(&ok(inflated)));
    assert!(msg.contains("succeeded=19 for 3 ops sent"), "{msg}");
}

#[test]
fn counters_may_be_absent_and_the_verdict_still_decides() {
    let ops = ops(19);
    let mut s = Settlement::new(&ops);
    assert_eq!(
        s.observe(&ok(r#"{"success":true}"#)).unwrap(),
        Step::Done(19)
    );

    let mut s = Settlement::new(&ops);
    let body = r#"{"success":false,"failed":[{"path":"f4","error":"boom"}]}"#;
    assert_eq!(s.observe(&ok(body)).unwrap(), Step::Retry(S2));
    assert_eq!(pending(&s), ["f4"]);
}

#[test]
fn a_reported_path_we_never_sent_fails_the_chunk_and_is_named() {
    let ops = ops(3);
    let mut s = Settlement::new(&ops);
    let body = r#"{"success":false,"processed":3,"succeeded":2,"failed":[{"path":"nope","error":"boom"}]}"#;
    let msg = err_text(s.observe(&ok(body)));
    assert!(msg.contains(r#""nope""#), "{msg}");
}

#[test]
fn a_422_with_the_documented_body_is_settled_like_a_200() {
    let ops = ops(19);
    let mut s = Settlement::new(&ops);
    let first = unprocessable(&partial(19, &["f2"]));
    assert_eq!(s.observe(&first).unwrap(), Step::Retry(S2));
    assert_eq!(pending(&s), ["f2"]);
    assert_eq!(s.observe(&ok(&clean(1))).unwrap(), Step::Done(19));
}

#[test]
fn a_422_without_a_readable_body_is_final() {
    let ops = ops(3);
    let mut s = Settlement::new(&ops);
    let msg = err_text(s.observe(&unprocessable(r#"{"error":"bad request"}"#)));
    assert!(msg.contains("422"), "{msg}");
    assert!(msg.contains("bad request"), "{msg}");
}

#[test]
fn other_non_2xx_statuses_are_final_and_carry_their_body() {
    for status in [403, 404] {
        let ops = ops(3);
        let mut s = Settlement::new(&ops);
        let msg = err_text(s.observe(&response(status, "the reason")));
        assert!(msg.contains(&status.to_string()), "{msg}");
        assert!(msg.contains("the reason"), "{msg}");
        assert!(msg.contains("req-1"), "{msg}");
    }
}

#[test]
fn batch_errors_spell_out_what_they_know() {
    let refused = BatchError::Status {
        status: 503,
        request_id: "r".to_string(),
        body: "busy".to_string(),
    };
    assert_eq!(
        refused.message(),
        "bucket batch failed: HTTP 503 Service Unavailable (x-request-id: r): busy"
    );
    let odd = BatchError::Status {
        status: 599,
        request_id: String::new(),
        body: String::new(),
    };
    assert_eq!(
        odd.message(),
        "bucket batch failed: HTTP 599 <unknown status code> (x-request-id: ): "
    );
    let processed = BatchError::Processed {
        processed: -1,
        sent: 19,
        succeeded: Some(16),
        failed: 2,
        request_id: "r".to_string(),
    };
    assert_eq!(
        processed.message(),
        "bucket batch reported processed=-1 for 19 ops sent (succeeded=Some(16), failed=2, x-request-id: r)"
    );
    let succeeded = BatchError::Succeeded {
        succeeded: 19,
        sent: 19,
        named: 1,
        expected: 18,
        request_id: "r".to_string(),
    };
    assert_eq!(
        succeeded.message(),
        "bucket batch reported succeeded=19 for 19 ops sent with 1 named failed (expected 18, x-request-id: r)"
    );
    let unnamed = BatchError::Unnamed {
        sent: 2,
        processed: None,
        succeeded: Some(-9223372036854775808),
        request_id: "r".to_string(),
    };
    assert_eq!(
        unnamed.message(),
        "bucket batch reported success=false with an empty failed[] (2 ops, processed=None, succeeded=Some(-9223372036854775808), x-request-id: r)"
    );
    let unknown = BatchError::UnknownPaths {
        unknown: vec!["a\"b".to_string()],
        sent: 3,
    };
    assert_eq!(
        unknown.message(),
        r#"bucket batch reported 1 failed path(s) that are not among the 3 ops we sent: "a\"b""#
    );
    let exhausted = BatchError::Exhausted {
        pending: vec!["x".to_string(), "y".to_string()],
    };
    assert_eq!(
        exhausted.message(),
        r#"bucket batch: 2 operation(s) still failing after 3 attempts: "x", "y""#
    );
}

#[test]
fn unknown_paths_are_sorted_and_named_once() {
    let ops = ops(1);
    let sent: Vec<&BatchOp> = ops.iter().collect();
    let failed: Vec<FailedOp> = ["z", "f0", "b", "z", "a"]
        .iter()
        .map(|p| FailedOp {
            path: p.to_string(),
            error: String::new(),
        })
        .collect();
    assert_eq!(
        retry_ops(&sent, &failed).unwrap_err(),
        BatchError::UnknownPaths {
            unknown: vec!["a".to_string(), "b".to_string(), "z".to_string()],
            sent: 1,
        }
    );
}

#[test]
fn two_operations_on_one_path_are_sent_again_together() {
    let ops = [add("a"), add("b"), add("a")];
    let mut s = Settlement::new(&ops);
    let body = r#"{"success":false,"failed":[{"path":"a","error":"boom"}]}"#;
    assert_eq!(s.observe(&ok(body)).unwrap(), Step::Retry(2));
    assert_eq!(pending(&s), ["a", "a"]);
}

#[test]
fn every_operation_is_confirmed_by_the_time_a_batch_is_done() {
    let ops = ops(5);
    let mut s = Settlement::new(&ops);
    let bodies = [partial(5, &["f0", "f3", "f4"]), partial(3, &["f4"]), clean(1)];
    let mut confirmed: Vec<String> = Vec::new();
    for body in &bodies {
        let before: Vec<String> = pending(&s).iter().map(|p| p.to_string()).collect();
        let named: Vec<String> = report(body).unwrap().failed.iter().map(|f| f.path.clone()).collect();
        confirmed.extend(before.into_iter().filter(|p| !named.contains(p)));
        s.observe(&ok(body)).unwrap();
    }
    confirmed.sort();
    assert_eq!(confirmed, ["f0", "f1", "f2", "f3", "f4"]);
    assert_eq!(s.total, 5);
    assert_eq!(s.attempt, 3);
}

#[test]
fn a_request_body_has_one_operation_per_line() {
    let lines = vec!["{\"a\":1}".to_string(), "{}".to_string()];
    assert_eq!(ndjson(&lines), "{\"a\":1}\n{}\n");
    assert_eq!(ndjson(&Vec::new()), "");
}

#[test]
fn an_empty_batch_is_done_without_a_send() {
    assert!(matches!(Settlement::start(&[]), Opening::Done(0)));
    let ops = ops(2);
    match Settlement::start(&ops) {
        Opening::Send(s) => assert_eq!(pending(&s), ["f0", "f1"]),
        Opening::Done(_) => panic!("two operations are to be sent"),
    }
}

#[test]
fn quoted_paths_stand_in_one_line() {
    let quoted = vec!["'a'".to_string(), "'b'".to_string()];
    assert_eq!(name_some_with(&quoted, false), "'a', 'b'");
    assert_eq!(name_some_with(&quoted, true), "'a', 'b', …");
    assert_eq!(name_some_with(&vec![], false), "");
}

#[test]
fn the_log_names_what_was_not_confirmed() {
    let ops = ops(2);
    let mut s = Settlement::new(&ops);
    let named = ok(&partial(2, &["f1"]));
    let r = s.observe(&named);
    assert_eq!(notice(&named, &r), Notice::NotApplied);
    let unreadable = ok("<html>");
    let r = s.observe(&unreadable);
    assert_eq!(notice(&unreadable, &r), Notice::Unconfirmed);
    let r = s.observe(&unreadable);
    assert!(r.is_err());
    assert_eq!(notice(&unreadable, &r), Notice::Unconfirmed);
    let r = Settlement::new(&ops).observe(&unreadable);
    assert_eq!(notice(&unreadable, &r), Notice::Trusted);
    let whole = ok(&clean(2));
    let r = Settlement::new(&ops).observe(&whole);
    assert_eq!(notice(&whole, &r), Notice::Silent);
    let refused = response(403, "no");
    let r = Settlement::new(&ops).observe(&refused);
    assert_eq!(notice(&refused, &r), Notice::Silent);
}
