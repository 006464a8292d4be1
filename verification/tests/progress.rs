//! Live counters and the watchdog.
use hf_s3ream::progress::{Metrics, Phase, Stall, Watchdog};

#[test]
fn phases_are_kept_as_numbers_and_named() {
    for (p, name) in [
        (Phase::Idle, "idle"),
        (Phase::Uploading, "uploading"),
        (Phase::Finalizing, "finalizing"),
        (Phase::Committing, "committing"),
    ] {
        assert_eq!(Phase::from_u8(p.as_u8()), p);
        assert_eq!(p.name(), name);
    }
    assert_eq!(Phase::from_u8(200), Phase::Idle);
}

#[test]
fn the_phase_has_an_age() {
    let mut m = Metrics::new(1000);
    assert_eq!(m.phase(), Phase::Idle);
    m.set_phase(Phase::Committing, 3000);
    assert_eq!(m.phase(), Phase::Committing);
    assert_eq!(m.phase_age_s(7999), 4);
    assert_eq!(m.phase_age_s(0), 0);
    assert_eq!(m.elapsed(1750), 750);
}

#[test]
fn bytes_are_counted_on_both_sides() {
    let mut m = Metrics::new(0);
    let a = m.track("a", 10, 100);
    let b = m.track("b", 20, 200);
    assert_ne!(a.file(), b.file());
    m.on_s3_chunk(a.file(), 4, 300);
    m.on_ingest(a.file(), 3, 400);
    m.on_s3_chunk(b.file(), 5, 500);
    assert_eq!((m.s3_bytes, m.hf_bytes), (9, 3));
    assert_eq!(m.inflight_len(), 2);
    let f = &m.inflight[0].1;
    assert_eq!((f.read, f.ingested, f.last_progress_ms, f.started_ms), (4, 3, 400, 100));
    m.untrack(a.file());
    assert_eq!(m.inflight_len(), 1);
    assert_eq!(m.inflight[0].1.key, "b");
    // A file that is no longer tracked still counts as transport.
    m.on_s3_chunk(a.file(), 1, 600);
    assert_eq!(m.s3_bytes, 10);
    m.untrack(a.file());
    assert_eq!(m.inflight_len(), 1);
}

#[test]
fn counters_wrap_around() {
    let mut m = Metrics::new(0);
    m.s3_bytes = u64::MAX;
    m.on_s3_chunk(0, 2, 0);
    assert_eq!(m.s3_bytes, 1);
}

#[test]
fn the_longest_stalled_files_come_first() {
    let mut m = Metrics::new(0);
    let a = m.track("a", 1, 0);
    m.track("b", 1, 0);
    m.track("c", 1, 2000);
    m.on_s3_chunk(a.file(), 1, 4000);
    let all = m.stalled_files(5, 10_000);
    let seen: Vec<(&str, u64, u64)> = all
        .iter()
        .map(|f| (f.key.as_str(), f.idle_s, f.age_s))
        .collect();
    assert_eq!(seen, [("b", 10, 10), ("c", 8, 8), ("a", 6, 10)]);
    assert_eq!(m.stalled_files(1, 10_000)[0].key, "b");
    assert!(m.stalled_files(0, 10_000).is_empty());
}

#[test]
fn the_watchdog_speaks_after_twenty_seconds_then_every_thirty() {
    let mut w = Watchdog::new();
    let mut said: Vec<u64> = Vec::new();
    for _ in 0..17 {
        if let Some((what, secs)) = w.observe(0, 0, 3, Phase::Uploading) {
            assert_eq!(what, Stall::Files);
            said.push(secs);
        }
    }
    assert_eq!(said, [20, 50, 80]);
    assert_eq!(w.observe(1, 0, 3, Phase::Uploading), None);
    assert_eq!(w.flat_ticks, 0);
}

#[test]
fn nothing_stalls_without_work() {
    let mut w = Watchdog::new();
    for _ in 0..10 {
        assert_eq!(w.observe(0, 0, 0, Phase::Idle), None);
    }
    let mut w = Watchdog::new();
    for _ in 0..3 {
        assert_eq!(w.observe(0, 0, 0, Phase::Committing), None);
    }
    assert_eq!(
        w.observe(0, 0, 0, Phase::Committing),
        Some((Stall::Committing, 20))
    );
    w.flat_ticks = 9;
    assert_eq!(
        w.observe(0, 0, 0, Phase::Finalizing),
        Some((Stall::Finalizing, 50))
    );
}

#[test]
fn counters_add_up_over_the_calls() {
    let mut m = Metrics::new(0);
    let a = m.track("a", 10, 0).file();
    let b = m.track("b", 10, 0).file();
    m.on_s3_chunk(a, 4, 1);
    m.on_s3_chunk(b, 5, 1);
    m.on_ingest(a, 3, 1);
    m.untrack(a);
    // An attempt that is over counts no more by itself, and is over once.
    m.untrack(a);
    m.on_s3_chunk(a, 1, 2);
    let c = m.track("a", 10, 3).file();
    assert_eq!((a, b, c), (0, 1, 2));
    assert_eq!((m.s3_bytes, m.hf_bytes, m.inflight_len()), (10, 3, 2));
}
