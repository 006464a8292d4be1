//! The rules of a copy.
use bytes::Bytes;
use hf_s3ream::bucket_client::BatchOp;
use hf_s3ream::cas_uploader::Ingest;
use hf_s3ream::keymap::KeyMap;
use hf_s3ream::planner::Copier;
use hf_s3ream::sync::{
    at_least_one, build_copier_spec, channel_capacity, copier_timeout_s, explicit_value, file_op,
    parse_s3_url, read_plan, region_of_constraint, region_or_default, session_verdict, source_of,
    source_vanished, split_ranges, upload_outcome, xor_bytes, xor_chunk, PlanConfig, ReadEnd,
    ReadPlan, S3Object, Session, SourceError, UploadOutcome,
};
use hf_s3ream::urls::UrlParts;
use std::time::Duration;

#[test]
fn a_source_is_a_bucket_and_a_prefix() {
    let pair = |b: &str, p: &str| Ok((b.to_string(), p.to_string()));
    assert_eq!(parse_s3_url("s3://bucket/a/b/"), pair("bucket", "a/b/"));
    assert_eq!(parse_s3_url("s3://bucket"), pair("bucket", ""));
    assert_eq!(parse_s3_url("s3://bucket//a"), pair("bucket", "a"));
}

#[test]
fn a_text_that_is_no_source_is_refused() {
    let e = parse_s3_url("bucket/a").unwrap_err();
    assert_eq!(
        e,
        SourceError::Parse {
            url: "bucket/a".to_string(),
            error: "relative URL without a base".to_string(),
        }
    );
    assert_eq!(e.message(), "parse bucket/a: relative URL without a base");
    let e = parse_s3_url("https://bucket/a").unwrap_err();
    assert_eq!(e.message(), "source must be s3:// URL, got https://bucket/a");
    let e = parse_s3_url("s3:///a").unwrap_err();
    assert_eq!(e.message(), "S3 URL missing bucket: s3:///a");
}

#[test]
fn a_source_is_read_off_the_parts_of_a_url() {
    let parts = UrlParts {
        scheme: "s3".to_string(),
        host: Some("b".to_string()),
        path: "//x/y".to_string(),
        query: Vec::new(),
    };
    assert_eq!(
        source_of("u", &parts),
        Ok(("b".to_string(), "x/y".to_string()))
    );
    let parts = UrlParts {
        host: None,
        ..parts
    };
    assert_eq!(
        source_of("u", &parts),
        Err(SourceError::NoBucket {
            url: "u".to_string()
        })
    );
    let parts = UrlParts {
        scheme: "gs".to_string(),
        ..parts
    };
    assert_eq!(
        source_of("u", &parts),
        Err(SourceError::Scheme {
            url: "u".to_string()
        })
    );
}

#[test]
fn a_region_is_given_found_or_the_first() {
    assert_eq!(
        explicit_value(Some(" eu-west-3 ")).as_deref(),
        Some("eu-west-3")
    );
    assert_eq!(explicit_value(Some(" \t")), None);
    assert_eq!(explicit_value(None), None);
    assert_eq!(region_of_constraint(None), "us-east-1");
    assert_eq!(region_of_constraint(Some("")), "us-east-1");
    assert_eq!(region_of_constraint(Some("EU")), "eu-west-1");
    assert_eq!(region_of_constraint(Some("ap-south-1")), "ap-south-1");
    assert_eq!(region_or_default(None), "us-east-1");
    assert_eq!(region_or_default(Some("x".to_string())), "x");
}

#[test]
fn an_object_path_is_encoded_once() {
    let o = S3Object::new("a b/Batch_%23128", 7);
    assert_eq!(o.key, "a b/Batch_%23128");
    assert_eq!(o.path, "a b/Batch_%2523128");
    assert_eq!(o.size, 7);
    let path = object_store::path::Path::parse(&o.path).unwrap();
    assert_eq!(path.as_ref(), o.path);
    assert_eq!(S3Object::new("..", 0).path, "%2E%2E");
    assert_eq!(S3Object::new("a//b", 0).path, "a/b");
    assert_eq!(S3Object::new("", 0).path, "");
}

#[test]
fn parts_cover_an_object_once() {
    assert!(split_ranges(0, 4).is_empty());
    assert_eq!(split_ranges(10, 4), [(0, 4), (4, 8), (8, 10)]);
    assert_eq!(split_ranges(8, 4), [(0, 4), (4, 8)]);
    assert_eq!(split_ranges(u64::MAX, u64::MAX - 1).len(), 2);
}

#[test]
fn large_objects_are_read_in_ranges() {
    assert_eq!(read_plan(10, 8, 10), ReadPlan::Single);
    assert_eq!(read_plan(11, 1, 10), ReadPlan::Single);
    assert_eq!(read_plan(11, 8, 10), ReadPlan::Ranges(vec![(0, 10), (10, 11)]));
    assert_eq!(at_least_one(0), 1);
    assert_eq!(at_least_one(7), 7);
}

#[test]
fn masking_twice_gives_the_data_back() {
    let data = Bytes::from(vec![0u8, 1, 0x5a, 255]);
    let masked = xor_chunk(data.clone(), 0x5a);
    assert_eq!(masked.as_ref(), &[0x5a, 0x5b, 0, 0xa5]);
    assert_eq!(xor_chunk(masked, 0x5a), data);
    assert_eq!(xor_chunk(data.clone(), 0), data);
    assert_eq!(xor_bytes(&[1, 2], 3), [2, 1]);
}

#[test]
fn the_channel_is_bounded_on_both_sides() {
    assert_eq!(channel_capacity(1), 256);
    assert_eq!(channel_capacity(1000), 1000);
    assert_eq!(channel_capacity(1_000_000), 100_000);
}

#[test]
fn a_session_is_closed_by_files_or_by_bytes() {
    let mut s = Session::new();
    assert!(!s.add(5, 3, 100));
    assert!(!s.add(5, 3, 100));
    assert!(s.add(5, 3, 100));
    let mut s = Session::new();
    assert!(!s.add(99, 3, 100));
    assert!(s.add(1, 3, 100));
    let mut s = Session::new();
    assert!(!s.add(u64::MAX, 2, 0));
    assert!(s.add(u64::MAX, 2, 0));
    assert_eq!(s.bytes, u64::MAX);
    let mut s = Session::new();
    assert!(s.add(0, 0, 0));
}

#[test]
fn one_failed_file_aborts_a_session() {
    let fine: Vec<Result<UploadOutcome, String>> =
        vec![Ok(UploadOutcome::Uploaded), Ok(source_vanished("k"))];
    assert_eq!(session_verdict(&fine), Ok(1));
    assert_eq!(session_verdict(&Vec::new()), Ok(0));
    let mut bad = fine;
    bad.push(Err("boom".to_string()));
    bad.push(Err("boom".to_string()));
    assert_eq!(
        session_verdict(&bad).unwrap_err(),
        "2 files failed in chunk (non-recoverable); aborting (1 skipped)"
    );
}

#[test]
fn a_vanished_object_is_skipped_with_a_reason() {
    assert_eq!(
        source_vanished("k"),
        UploadOutcome::Skipped {
            key: "k".to_string(),
            reason: "S3 GET returned 404 (likely a phantom listing entry)".to_string(),
        }
    );
}

#[test]
fn an_uploaded_object_is_registered_at_its_path() {
    assert_eq!(
        file_op("p/x/y", "p/", "d", "hash".to_string(), 17),
        BatchOp::AddFile {
            path: "d/x/y".to_string(),
            xet_hash: "hash".to_string(),
            mtime: 17,
            content_type: None,
        }
    );
}

#[test]
fn timeouts_follow_the_slower_of_bytes_and_files() {
    let mib = 1024 * 1024;
    assert_eq!(copier_timeout_s(0, 0), 900);
    assert_eq!(copier_timeout_s(80 * mib * 300, 0), 900);
    assert_eq!(copier_timeout_s(80 * mib * 1000, 300 * 999), 1600);
    assert_eq!(copier_timeout_s(80 * mib * 999, 300 * 1000), 1600);
    assert_eq!(
        copier_timeout_s(u64::MAX, u64::MAX),
        600 + u64::MAX / 300
    );
}

fn plan_config() -> PlanConfig {
    let mut secrets: KeyMap<String> = KeyMap::new();
    secrets.insert("HF_TOKEN".to_string(), "SECRET-REDACTED".to_string());
    let mut env: KeyMap<String> = KeyMap::new();
    env.insert("RUST_LOG".to_string(), "info".to_string());
    PlanConfig {
        source_s3_url: "s3://b/p/".to_string(),
        dest: "org/name".to_string(),
        hub_endpoint: "https://h".to_string(),
        hf_token: "SECRET-REDACTED".to_string(),
        aws_region: None,
        exclude_globs: vec!["*.tmp".to_string(), "x y".to_string()],
        limit_bytes: 0,
        range_bytes: 0,
        range_keys: 0,
        copier_image: "image:v1".to_string(),
        copier_flavor: "cpu".to_string(),
        jobs_namespace: None,
        max_inflight: 1,
        launch_stagger: Duration::from_millis(750),
        run_label: "run-7".to_string(),
        commit_chunk: 1000,
        s3_part_concurrency: 8,
        s3_part_size_mib: 16,
        copier_secrets: secrets,
        copier_env: env,
    }
}

#[test]
fn a_copier_is_this_program_on_one_range() {
    let cfg = plan_config();
    let mut c = Copier {
        idx: 1,
        start_after: Some("p/a".to_string()),
        stop_at: "p/m".to_string(),
        files: 600_000,
        bytes: 1,
        pf: 128,
        job_id: None,
        attempts: 0,
        stage: String::new(),
    };
    let spec = build_copier_spec(&cfg, "eu-west-1", &c);
    assert_eq!(
        spec.command.join("|"),
        "hf-s3ream|s3://b/p/|org/name|--hub-endpoint|https://h|--aws-region|eu-west-1|--stop-at|p/m|--parallel-files|128|--s3-part-concurrency|8|--s3-part-size-mib|16|--commit-chunk|1000|--start-after|p/a|--exclude|*.tmp|--exclude|x y"
    );
    assert!(spec.arguments.is_empty());
    assert_eq!(spec.timeout_seconds, Some(2600));
    assert_eq!(spec.flavor, "cpu");
    assert_eq!(spec.docker_image, "image:v1");
    assert_eq!(spec.secrets, cfg.copier_secrets);
    assert_eq!(spec.environment, cfg.copier_env);
    assert_eq!(spec.labels.get("hf-s3ream-run").map(String::as_str), Some("run-7"));
    assert_eq!(spec.labels.len(), 1);
    // Secrets stay off the command line.
    assert!(!spec.command.iter().any(|a| a.contains("SECRET-REDACTED")));

    c.start_after = None;
    let first = build_copier_spec(&cfg, "eu-west-1", &c);
    assert!(!first.command.contains(&"--start-after".to_string()));
}

#[test]
fn a_short_read_is_never_finalized() {
    let mut i = Ingest::new();
    assert!(i.has_room(3));
    i.add(3);
    i.add(4);
    assert_eq!(i.check(7), Ok(()));
    assert_eq!(
        i.check(8).unwrap_err(),
        "read truncated: ingested 7 of 8 bytes before end-of-stream — refusing to finalize (reader died, partial S3 response, or source mutated)"
    );
    assert!(i.check(6).is_err());
    assert!(!i.has_room(u64::MAX));
}

#[test]
fn only_a_taken_object_is_registered() {
    let taken = ReadEnd::Taken { hash: "h".to_string() };
    assert_eq!(
        upload_outcome("p/a", "p/", "d", taken, 7),
        (
            Ok(UploadOutcome::Uploaded),
            Some(file_op("p/a", "p/", "d", "h".to_string(), 7))
        )
    );
    assert_eq!(
        upload_outcome("p/a", "p/", "d", ReadEnd::Gone, 7),
        (Ok(source_vanished("p/a")), None)
    );
    assert_eq!(
        upload_outcome("p/a", "p/", "d", ReadEnd::Failed("e".to_string()), 7),
        (Err("e".to_string()), None)
    );
}

#[test]
fn only_a_whole_file_passes_the_guard() {
    let mut i = Ingest::new();
    for n in [3, 0, 4] {
        i.add(n);
    }
    assert_eq!(i.total, 7);
    assert!(i.check(7).is_ok());
    assert!(i.check(8).is_err() && i.check(6).is_err());
}
