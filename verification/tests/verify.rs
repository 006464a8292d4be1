//! The destination check.
use hf_s3ream::dest::BucketRef;
use hf_s3ream::globs::build_globset;
use hf_s3ream::keymap::KeyMap;
use hf_s3ream::keys::{destination_path, relative_key_path, source_key};
use hf_s3ream::report::{
    planned_totals, select_page, PageEntry, Report, Settle, SettleStep, SAMPLE,
};
use hf_s3ream::rerun::{rerun_command, sh_quote};
use hf_s3ream::verify::{is_gone, locate, PlannedRange, RangeDiff, Source, SourceObject, Tally};

fn range(
    start_after: Option<&str>,
    stop_at: Option<&str>,
    files: u64,
    bytes: u64,
) -> PlannedRange {
    PlannedRange {
        start_after: start_after.map(str::to_string),
        stop_at: stop_at.map(str::to_string),
        files,
        bytes,
    }
}

fn obj(key: &str, dest_path: &str, size: u64) -> SourceObject {
    SourceObject {
        key: key.to_string(),
        dest_path: dest_path.to_string(),
        size,
    }
}

#[test]
fn source_key_inverts_the_copier_mapping() {
    let cases: &[(&str, &str, &[&str])] = &[
        ("foo/", "", &["foo/a", "foo/bar/a", "foo/x y/%23"]),
        ("foo", "", &["foo", "foo/a", "foo/bar/a"]),
        ("", "", &["a", "bar/a"]),
        ("foo/", "path/to/dest", &["foo/a", "foo/bar/a"]),
        ("foo", "path/to/dest", &["foo/a"]),
        ("data/x.gz", "dest", &["data/x.gz"]),
        ("", "dest", &["a", "bar/a"]),
    ];
    for (src, dst, keys) in cases {
        for key in *keys {
            let dest_path = destination_path(dst, &relative_key_path(key, src));
            assert_eq!(
                source_key(&dest_path, dst, src).as_deref(),
                Some(*key),
                "{dest_path}"
            );
        }
    }
    assert_eq!(source_key("other/a", "dest", "foo/"), None);
    assert_eq!(source_key("dest", "dest", "foo/"), None);
    assert_eq!(source_key("dest-2/a", "dest", "foo/"), None);
}

#[test]
fn locate_uses_exclusive_lower_and_inclusive_upper_bounds_in_byte_order() {
    let ranges = [
        range(None, Some("p/B"), 0, 0),
        range(Some("p/B"), Some("p/f"), 0, 0),
    ];
    assert_eq!(locate(&ranges, "p/A"), Some(0));
    assert_eq!(locate(&ranges, "p/B"), Some(0));
    assert_eq!(locate(&ranges, "p/B0"), Some(1));
    assert_eq!(locate(&ranges, "p/a"), Some(1)); // `B` < `a` in bytes
    assert_eq!(locate(&ranges, "p/f"), Some(1));
    assert_eq!(locate(&ranges, "p/f0"), None);
    // A windowed single-process copy, and an open one.
    let windowed = [range(Some("p/c"), Some("p/m"), 0, 0)];
    assert_eq!(locate(&windowed, "p/c"), None);
    assert_eq!(locate(&windowed, "p/c0"), Some(0));
    assert_eq!(locate(&[range(None, None, 0, 0)], "zzz"), Some(0));
}

#[test]
fn suspects_are_the_ranges_whose_count_or_bytes_differ() {
    let ranges = [
        range(None, Some("s/b"), 2, 30),
        range(Some("s/b"), Some("s/d"), 2, 70),
        range(Some("s/d"), Some("s/f"), 1, 50),
        range(Some("s/f"), Some("s/h"), 1, 70),
    ];
    let mut t = Tally::new(ranges.len());
    for (path, size) in [
        ("d/a", 10),
        ("d/b", 20),
        ("d/c", 30), // range 1: 1 of 2 files
        ("d/e", 51), // range 2: bytes differ
        ("d/g", 70),
        ("d/g0", 0),  // range 3: an extra empty file
        ("d/z", 5),   // past the last range
        ("d-2/a", 5), // a sibling prefix the listing also returns: ignored
    ] {
        t.observe(path, size, "d", "s/", &ranges);
    }
    assert_eq!(t.suspects(&ranges), vec![1, 2, 3]);
    assert_eq!((t.outside, t.dest_files, t.dest_bytes), (1, 7, 186));
}

#[test]
fn pass_2_sorts_planned_keys_into_present_missing_short_and_extra() {
    let mut found: KeyMap<u64> = KeyMap::new();
    for (path, size) in [("d/ok", 10), ("d/empty", 0), ("d/small", 9)] {
        found.insert(path.to_string(), size);
    }
    let mut d = RangeDiff::default();
    d.observe(obj("s/ok", "d/ok", 10), &found);
    d.observe(obj("s/empty", "d/empty", 0), &found);
    d.observe(obj("s/small", "d/small", 10), &found);
    d.observe(obj("s/gone", "d/gone", 10), &found);
    assert_eq!(d.present, 2);
    assert_eq!(d.short, vec![(obj("s/small", "d/small", 10), 9)]);
    assert_eq!(d.missing, vec![obj("s/gone", "d/gone", 10)]);
    assert!(d.failed());
    // Pass 1 listed 3 in this range: the short file is not an extra.
    d.set_extra(3);
    assert_eq!(d.extra, 0);
    d.set_extra(5);
    assert_eq!(d.extra, 2);
    // A listing behind the exact lookups is not a negative extra.
    d.set_extra(1);
    assert_eq!(d.extra, 0);
}

#[test]
fn missing_and_short_fail_the_run_raced_extra_and_outside_do_not() {
    let ranges = [range(None, None, 12, 120)];
    let tally = Tally {
        outside: 5,
        dest_files: 14,
        dest_bytes: 140,
        ..Tally::new(1)
    };

    let mut r = Report::new(true, &ranges, &tally);
    let benign = RangeDiff {
        present: 10,
        raced: vec![obj("s/r", "d/r", 1)],
        extra: 2,
        ..RangeDiff::default()
    };
    r.add(0, &benign);
    assert!(r.ok);
    assert_eq!((r.raced, r.extra, r.outside), (1, 2, 5));
    assert!(r.failed_ranges.is_empty() && r.sample.is_empty());

    let many: Vec<_> = (0..12)
        .map(|i| obj(&format!("s/{i:02}"), &format!("d/{i:02}"), 1))
        .collect();
    let lossy = RangeDiff {
        missing: many,
        short: vec![(obj("s/s", "d/s", 10), 9)],
        ..RangeDiff::default()
    };
    r.add(3, &lossy);
    assert!(!r.ok);
    assert_eq!((r.missing, r.short), (12, 1));
    assert_eq!(r.failed_ranges, vec![3]);
    assert_eq!(r.sample.len(), SAMPLE);
    assert_eq!(r.sample[0], "d/00");
    assert!(r.failure().contains("12 missing, 1 short"));
}

#[test]
fn rerun_command_is_the_copier_invocation_for_the_range() {
    let source = Source {
        url: "s3://my-bucket/crawl-data/".to_string(),
        bucket: "my-bucket".to_string(),
        prefix: "crawl-data/".to_string(),
        exclude_globs: vec!["*decay*".to_string()],
    };
    let dest = BucketRef {
        org: "org".to_string(),
        name: "name".to_string(),
        path: "sub/dir".to_string(),
    };
    let r = range(
        Some("crawl-data/seg 1/a.gz"),
        Some("crawl-data/b's.gz"),
        0,
        0,
    );
    assert_eq!(
        rerun_command(&source, &dest, &r, false),
        r#"hf-s3ream s3://my-bucket/crawl-data/ hf://buckets/org/name/sub/dir --start-after 'crawl-data/seg 1/a.gz' --stop-at 'crawl-data/b'\''s.gz' --exclude '*decay*' --skip-existing"#
    );
    let first = range(None, Some("crawl-data/x"), 0, 0);
    assert_eq!(
        rerun_command(&source, &dest, &first, false),
        r#"hf-s3ream s3://my-bucket/crawl-data/ hf://buckets/org/name/sub/dir --stop-at crawl-data/x --exclude '*decay*' --skip-existing"#
    );
    assert!(rerun_command(&source, &dest, &first, true).ends_with(" --skip-existing --no-sign-request"));
    assert_eq!(sh_quote("a/b-c_d.e=f:g@h%i+j,k"), "a/b-c_d.e=f:g@h%i+j,k");
    assert_eq!(sh_quote(""), "''");
    assert_eq!(sh_quote("$HOME"), "'$HOME'");
}

#[test]
fn the_shell_reads_a_quoted_text_back() {
    assert_eq!(sh_quote("it's"), r"'it'\''s'");
    assert_eq!(sh_quote("'"), r"''\'''");
    assert_eq!(sh_quote("a\\b"), r"'a\b'");
    assert_eq!(sh_quote("naïve"), "'naïve'");
}

#[test]
fn planned_totals_are_none_where_they_do_not_fit() {
    assert_eq!(
        planned_totals(&[range(None, Some("a"), 1, 2), range(Some("a"), None, 3, 4)]),
        Some((4, 6))
    );
    assert_eq!(
        planned_totals(&[range(None, Some("a"), 1, u64::MAX), range(Some("a"), None, 3, 1)]),
        None
    );
}

#[test]
fn a_tally_has_room_until_its_counts_are_full() {
    let mut t = Tally::new(1);
    assert!(t.has_room(u64::MAX));
    t.dest_bytes = 1;
    assert!(!t.has_room(u64::MAX));
    t.dest_files = u64::MAX;
    assert!(!t.has_room(0));
}

#[test]
fn the_order_of_the_listing_does_not_matter() {
    let ranges = [range(None, Some("b"), 0, 0), range(Some("b"), Some("d"), 0, 0)];
    let files = [("a", 1), ("c", 2), ("z", 3), ("b", 4)];
    let mut forth = Tally::new(2);
    for (path, size) in files {
        forth.observe(path, size, "", "", &ranges);
    }
    let mut back = Tally::new(2);
    for (path, size) in files.into_iter().rev() {
        back.observe(path, size, "", "", &ranges);
    }
    assert_eq!(forth, back);
    assert_eq!(forth.files, [2, 1]);
    assert_eq!(forth.bytes, [5, 2]);
}

#[test]
fn lookups_on_the_source_tell_raced_from_missing() {
    let mut d = RangeDiff {
        missing: vec![obj("a", "d/a", 1), obj("b", "d/b", 2), obj("c", "d/c", 3)],
        raced: vec![obj("z", "d/z", 9)],
        ..RangeDiff::default()
    };
    assert_eq!(d.checks(1000), 3);
    assert_eq!(d.checks(2), 2);
    d.settle_raced(&vec![true, false]);
    assert_eq!(d.missing, vec![obj("b", "d/b", 2), obj("c", "d/c", 3)]);
    assert_eq!(d.raced, vec![obj("z", "d/z", 9), obj("a", "d/a", 1)]);
}

#[test]
fn every_planned_object_is_sorted_once() {
    let mut found = KeyMap::new();
    found.insert("d/a".to_string(), 1);
    found.insert("d/b".to_string(), 3);
    let mut d = RangeDiff::default();
    d.observe(obj("s/a", "d/a", 1), &found);
    assert!(!d.failed());
    d.observe(obj("s/b", "d/b", 2), &found);
    assert!(d.failed());
    d.observe(obj("s/c", "d/c", 4), &found);
    assert_eq!((d.present, d.short.len(), d.missing.len()), (1, 1, 1));
}

#[test]
fn only_a_404_means_gone() {
    assert!(is_gone(true, None));
    assert!(is_gone(false, Some(404)));
    assert!(!is_gone(false, Some(403)));
    assert!(!is_gone(false, None));
}

#[test]
fn the_sample_holds_missing_then_short_paths() {
    let mut r = Report::new(false, &[], &Tally::new(0));
    let d = RangeDiff {
        missing: vec![obj("m", "d/m", 1)],
        short: vec![(obj("s", "d/s", 2), 1)],
        ..RangeDiff::default()
    };
    assert!(r.has_room(&d));
    r.add(2, &d);
    r.add(7, &d);
    assert_eq!(r.sample, ["d/m", "d/s", "d/m", "d/s"]);
    assert_eq!(
        r.failure(),
        "destination check failed: 2 missing, 2 short file(s) in range(s) [2, 7] (see the VERIFY line and the re-run commands above)"
    );
    let full = RangeDiff {
        extra: u64::MAX,
        ..RangeDiff::default()
    };
    r.extra = 1;
    assert!(!r.has_room(&full));
}

#[test]
fn a_destination_settles_after_two_unchanged_polls() {
    let mut s = Settle::new();
    assert_eq!(s.observe(Some("t1"), 0), SettleStep::Wait);
    assert_eq!(s.observe(Some("t1"), 10), SettleStep::Wait);
    assert_eq!(s.observe(Some("t2"), 20), SettleStep::Wait);
    assert_eq!(s.observe(Some("t2"), 30), SettleStep::Wait);
    assert_eq!(s.observe(Some("t2"), 40), SettleStep::Settled);

    let mut s = Settle::new();
    assert_eq!(s.observe(Some("t1"), 119), SettleStep::Wait);
    assert_eq!(s.observe(Some("t2"), 120), SettleStep::Restless);
    assert_eq!(s.observe(None, 0), SettleStep::Unreadable);
}

#[test]
fn a_page_is_cut_at_the_end_of_the_range() {
    let entry = |key: Option<&str>, size: Option<i64>| PageEntry {
        key: key.map(str::to_string),
        size,
    };
    let exclude = build_globset(&vec!["*.tmp".to_string()]).unwrap();
    let page = vec![
        entry(Some("s/a"), Some(5)),
        entry(None, Some(1)),
        entry(Some("s/b.tmp"), Some(1)),
        entry(Some("s//c"), Some(1)),
        entry(Some("s/d"), Some(-1)),
        entry(Some("s/e"), None),
        entry(Some("s/f"), Some(1)),
        entry(Some("s/a2"), Some(1)),
    ];
    let got = select_page(&page, "s/", "dest", &exclude, &Some("s/e".to_string()));
    assert!(got.range_end);
    assert_eq!(
        got.objects,
        vec![
            obj("s/a", "dest/a", 5),
            obj("s/d", "dest/d", 0),
            obj("s/e", "dest/e", 0),
        ]
    );
    let open = select_page(&page, "s/", "dest", &exclude, &None);
    assert!(!open.range_end);
    assert_eq!(open.objects.len(), 5);
}

#[test]
fn a_report_sums_up_its_ranges() {
    let ranges = [range(None, None, 0, 0)];
    let mut r = Report::new(true, &ranges, &Tally::new(1));
    for (idx, first) in [(4, 0), (5, 7), (7, 14)] {
        let diff = RangeDiff {
            missing: (first..first + 6).map(|i| obj("k", &format!("m{i}"), 1)).collect(),
            short: vec![(obj("k", &format!("s{idx}"), 2), 1)],
            ..RangeDiff::default()
        };
        r.add(idx, &diff);
        r.add(idx + 10, &RangeDiff::default());
    }
    assert_eq!((r.missing, r.short, r.ok), (18, 3, false));
    assert_eq!(r.failed_ranges, [4, 5, 7]);
    assert_eq!(r.sample, ["m0", "m1", "m2", "m3", "m4", "m5", "s4", "m7", "m8", "m9"]);
}
