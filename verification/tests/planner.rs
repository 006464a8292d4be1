//! Planning: ranges, copiers, outcomes.
use hf_s3ream::jobs_client::{
    job_url, jobs_url, whoami_name, whoami_url, whoami_with, JobInfo, JobStatus,
};
use hf_s3ream::planner::{Planner, RangeLimits};
use hf_s3ream::verify::{locate, Tally};

const MIB: u64 = 1024 * 1024;

fn planner(bytes: u64, keys: u64, max_inflight: usize) -> Planner {
    Planner::new(RangeLimits { bytes, keys }, max_inflight)
}

/// Five objects, two keys to a range.
fn planned() -> Planner {
    let mut p = planner(0, 2, 2);
    for key in ["p/a", "p/b", "p/c", "p/d", "p/e"] {
        p.add(key, 10);
    }
    p.finish(Some("p/e"));
    p
}

#[test]
fn a_range_is_closed_by_keys_or_by_bytes() {
    let mut p = planner(100, 3, 8);
    assert!(!p.add("a", 40));
    assert!(!p.add("b", 59));
    assert!(p.add("c", 0)); // three keys
    assert!(p.add("d", 100)); // a hundred bytes
    assert!(!p.add("e", 99));
    assert!(p.finish(Some("e")));
    assert!(!p.finish(Some("e")));
    let bounds: Vec<(Option<&str>, &str, u64, u64)> = p
        .copiers
        .iter()
        .map(|c| (c.start_after.as_deref(), c.stop_at.as_str(), c.files, c.bytes))
        .collect();
    assert_eq!(
        bounds,
        [
            (None, "c", 3, 99),
            (Some("c"), "d", 1, 100),
            (Some("d"), "e", 1, 99),
        ]
    );
    assert_eq!(p.totals(), Some((5, 298)));
    assert_eq!(p.copiers.iter().map(|c| c.idx).collect::<Vec<_>>(), [0, 1, 2]);
}

#[test]
fn without_limits_there_is_one_range() {
    let mut p = planner(0, 0, 1);
    for i in 0..50 {
        assert!(!p.add(&format!("k{i:02}"), u64::MAX));
    }
    assert!(p.finish(Some("k49")));
    assert_eq!(p.copiers.len(), 1);
    assert_eq!(p.copiers[0].bytes, u64::MAX);
    assert_eq!(p.copiers[0].files, 50);
}

#[test]
fn an_empty_listing_makes_no_range() {
    let mut p = planner(1, 1, 1);
    assert!(!p.finish(None));
    assert!(p.copiers.is_empty());
    assert_eq!(p.totals(), Some((0, 0)));
    assert_eq!(p.outcome().verdict(), Ok(()));
}

#[test]
fn sums_that_do_not_fit_are_none() {
    let mut p = planner(1, 0, 1);
    p.add("a", u64::MAX);
    p.add("b", 1);
    assert_eq!(p.copiers.len(), 2);
    assert_eq!(p.totals(), None);
}

#[test]
fn small_files_are_copied_with_more_in_flight() {
    let mut p = planner(0, 2, 1);
    p.add("a", 16 * MIB);
    p.add("b", 17 * MIB);
    p.add("c", 17 * MIB);
    p.add("d", 17 * MIB);
    assert_eq!(p.copiers[0].pf, 128); // half of them small
    assert_eq!(p.copiers[1].pf, 32);
}

#[test]
fn every_key_lies_in_the_range_it_was_planned_in() {
    let p = planned();
    let ranges = p.planned_ranges();
    assert_eq!(ranges.len(), 3);
    for (key, at) in [("p/a", 0), ("p/b", 0), ("p/c", 1), ("p/d", 1), ("p/e", 2)] {
        assert_eq!(locate(&ranges, key), Some(at), "{key}");
    }
    // Keys that were not listed have a range as well, up to the last.
    assert_eq!(locate(&ranges, "p/bb"), Some(1));
    assert_eq!(locate(&ranges, "p/f"), None);
}

#[test]
fn a_faithful_copy_raises_no_suspicion() {
    let ranges = planned().planned_ranges();
    let mut t = Tally::new(ranges.len());
    for path in ["d/e", "d/a", "d/c", "d/b", "d/d"] {
        t.observe(path, 10, "d", "p/", &ranges);
    }
    assert!(t.suspects(&ranges).is_empty());
    t.observe("d/cc", 1, "d", "p/", &ranges);
    assert_eq!(t.suspects(&ranges), [1]);
}

#[test]
fn ranges_close_when_full() {
    let mut p = planner(25, 0, 8);
    let closed: Vec<bool> = [("a", 10), ("b", 20), ("c", 25), ("d", 1)]
        .iter()
        .map(|(key, size)| p.add(key, *size))
        .collect();
    assert_eq!(closed, [false, true, true, false]);
    assert!(p.finish(Some("d")));
    let bytes: Vec<u64> = p.copiers.iter().map(|c| c.bytes).collect();
    assert_eq!(bytes, [30, 25, 1]);
    for c in &p.copiers {
        assert_eq!((c.attempts, c.job_id.is_none(), c.stage.as_str()), (0, true, ""));
    }
}

#[test]
fn a_lost_file_raises_suspicion() {
    let ranges = planned().planned_ranges();
    let mut t = Tally::new(ranges.len());
    for path in ["d/a", "d/b", "d/d", "d/e"] {
        t.observe(path, 10, "d", "p/", &ranges);
    }
    assert_eq!(t.suspects(&ranges), [1]);
}

#[test]
fn launches_keep_to_the_cap() {
    let mut p = planned();
    assert!(p.slot_free());
    p.launched(0, "j0".to_string(), "RUNNING".to_string());
    assert!(p.slot_free());
    p.launched(1, "j1".to_string(), "SCHEDULING".to_string());
    assert!(!p.slot_free());
    assert_eq!(p.active(), 2);
    assert_eq!(p.to_poll(), [0, 1]);
    assert!(!p.record_stage(0, Some("COMPLETED")));
    assert!(p.slot_free());
    assert_eq!(p.to_poll(), [1]);
    // No status leaves the stage as it is.
    assert!(!p.record_stage(1, None));
    assert_eq!(p.copiers[1].stage, "SCHEDULING");
}

#[test]
fn a_cap_of_zero_counts_as_one() {
    let mut p = planner(0, 1, 0);
    p.add("a", 1);
    assert!(p.slot_free());
    p.launched(0, "j".to_string(), "RUNNING".to_string());
    assert!(!p.slot_free());
}

#[test]
fn failed_copiers_are_launched_three_times() {
    let mut p = planner(0, 1, 1);
    p.add("a", 1);
    for attempt in 1..=3 {
        p.launched(0, format!("j{attempt}"), "RUNNING".to_string());
        assert_eq!(p.copiers[0].attempts, attempt);
        assert_eq!(p.pending(), 1);
        assert!(p.record_stage(0, Some("ERROR")));
        assert!(!p.record_stage(0, Some("ERROR")));
        assert_eq!(p.to_respawn().len(), usize::from(attempt < 3));
    }
    assert_eq!(p.pending(), 0);
    let outcome = p.outcome();
    assert_eq!((outcome.ranges, outcome.failed), (1, 1));
    assert_eq!(
        outcome.verdict().unwrap_err(),
        "1/1 copier(s) failed after 3 attempts"
    );
}

#[test]
fn outcomes_are_counted_by_stage() {
    let mut p = planned();
    for (i, stage) in ["COMPLETED", "CANCELED", "DELETED"].into_iter().enumerate() {
        p.launched(i, format!("j{i}"), stage.to_string());
    }
    assert_eq!(p.pending(), 0);
    let o = p.outcome();
    assert_eq!((o.ranges, o.completed, o.failed, o.canceled), (3, 1, 0, 2));
    assert_eq!(o.verdict(), Ok(()));
}

#[test]
fn only_final_stages_are_terminal() {
    for stage in ["COMPLETED", "ERROR", "CANCELED", "DELETED"] {
        assert!(JobInfo::is_terminal(stage));
    }
    for stage in ["RUNNING", "SCHEDULING", "", "completed", "ERROR "] {
        assert!(!JobInfo::is_terminal(stage), "{stage}");
    }
}

#[test]
fn a_new_job_without_a_status_runs() {
    let mut info = JobInfo {
        id: "x".to_string(),
        status: None,
    };
    assert_eq!(info.initial_stage(), "RUNNING");
    info.status = Some(JobStatus {
        stage: "SCHEDULING".to_string(),
        message: None,
    });
    assert_eq!(info.initial_stage(), "SCHEDULING");
}

#[test]
fn whoami_names_the_namespace() {
    assert_eq!(
        whoami_name(200, r#"{"type":"user","name":"me"}"#).as_deref(),
        Ok("me")
    );
    assert_eq!(
        whoami_name(200, r#"{"name":3}"#).unwrap_err(),
        "whoami response missing `name`"
    );
    assert!(whoami_name(200, "nope").unwrap_err().starts_with("decode whoami: "));
    assert_eq!(
        whoami_name(401, "who?").unwrap_err(),
        "whoami failed: HTTP 401 Unauthorized: who?"
    );
    assert_eq!(
        whoami_with(200, "", Err("bad".to_string())).unwrap_err(),
        "decode whoami: bad"
    );
    assert_eq!(
        whoami_with(200, "", Ok(Some("n".to_string()))).as_deref(),
        Ok("n")
    );
}

#[test]
fn job_addresses_name_the_namespace() {
    assert_eq!(jobs_url("https://h", "me"), "https://h/api/jobs/me");
    assert_eq!(job_url("https://h", "me", "7"), "https://h/api/jobs/me/7");
    assert_eq!(whoami_url("https://h"), "https://h/api/whoami-v2");
}
