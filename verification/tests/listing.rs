//! The source listing and its statistics.
use hf_s3ream::globs::build_globset;
use hf_s3ream::keys::KeyFilter;
use hf_s3ream::listing::{
    is_past, object_size, page_start, Bounds, Listed, Listing, PageStart, SizeStats, SMALL_FILE,
};
use hf_s3ream::verify::checked_range;

fn bounds(prefix: &str, stop_at: Option<&str>, limit_bytes: u64) -> Bounds {
    Bounds {
        prefix: prefix.to_string(),
        stop_at: stop_at.map(str::to_string),
        limit_bytes,
    }
}

#[test]
fn a_listing_keeps_what_belongs_and_counts_the_rest() {
    let exclude = build_globset(&vec!["*.tmp".to_string()]).unwrap();
    let b = bounds("p/", Some("p/m"), 0);
    let mut l = Listing::new();
    assert_eq!(l.observe(None, Some(1), &b, &exclude), Listed::Nameless);
    assert_eq!(l.observe(Some("p/a"), Some(5), &b, &exclude), Listed::Kept(5));
    assert_eq!(
        l.observe(Some("p/b.tmp"), Some(5), &b, &exclude),
        Listed::Skipped(KeyFilter::Excluded)
    );
    assert_eq!(
        l.observe(Some("p//c"), Some(5), &b, &exclude),
        Listed::Skipped(KeyFilter::Invalid)
    );
    assert_eq!(
        l.observe(Some("o"), Some(5), &b, &exclude),
        Listed::Skipped(KeyFilter::Outside)
    );
    assert_eq!(
        l.observe(Some("p/m"), Some(SMALL_FILE as i64 + 1), &b, &exclude),
        Listed::Kept(SMALL_FILE + 1)
    );
    assert_eq!(l.observe(Some("p/m0"), Some(5), &b, &exclude), Listed::Past);
    assert_eq!(
        l,
        Listing {
            listed: 5,
            kept: 2,
            skipped_invalid: 1,
            bytes: SMALL_FILE + 6,
            le16: 1,
            limit_hit: false,
        }
    );
}

#[test]
fn the_byte_limit_ends_a_listing_once_it_is_reached() {
    let b = bounds("", None, 10);
    let mut l = Listing::new();
    assert_eq!(l.observe_with(Some("a"), Some(9), &b, false), Listed::Kept(9));
    assert_eq!(l.observe_with(Some("b"), Some(9), &b, false), Listed::Kept(9));
    // An excluded key is skipped before the limit is looked at.
    assert_eq!(
        l.observe_with(Some("c"), Some(9), &b, true),
        Listed::Skipped(KeyFilter::Excluded)
    );
    assert_eq!(l.observe_with(Some("d"), Some(9), &b, false), Listed::Limit);
    assert!(l.limit_hit);
    assert_eq!((l.listed, l.kept, l.bytes), (4, 2, 18));
}

#[test]
fn kept_bytes_saturate() {
    let b = bounds("", None, 0);
    let mut l = Listing {
        bytes: u64::MAX - 1,
        ..Listing::new()
    };
    assert_eq!(l.observe_with(Some("a"), Some(5), &b, false), Listed::Kept(5));
    assert_eq!(l.bytes, u64::MAX);
}

#[test]
fn a_missing_or_negative_size_is_zero() {
    assert_eq!(object_size(None), 0);
    assert_eq!(object_size(Some(-3)), 0);
    assert_eq!(object_size(Some(i64::MAX)), i64::MAX as u64);
}

#[test]
fn the_upper_bound_itself_is_inside() {
    let stop = Some("b".to_string());
    assert!(!is_past(&stop, "a"));
    assert!(!is_past(&stop, "b"));
    assert!(is_past(&stop, "b0"));
    assert!(is_past(&stop, "é"));
    assert!(!is_past(&None, "zzz"));
}

#[test]
fn progress_is_reported_every_hundred_thousand_keys() {
    let mut l = Listing::new();
    l.listed = 99_999;
    assert!(!l.reports());
    l.listed = 200_000;
    assert!(l.reports());
    l.skipped_invalid = 10;
    assert!(l.names_invalid());
    l.skipped_invalid = 11;
    assert!(!l.names_invalid());
}

#[test]
fn a_token_outweighs_the_lower_bound() {
    assert_eq!(page_start(None, None), PageStart::Begin);
    assert_eq!(page_start(None, Some("k")), PageStart::After("k".to_string()));
    assert_eq!(
        page_start(Some("t"), Some("k")),
        PageStart::Token("t".to_string())
    );
}

#[test]
fn size_statistics_describe_the_sizes() {
    let mut s = SizeStats::new();
    assert_eq!((s.min(), s.median(), s.largest), (0, 0, 0));
    for size in [0, 1, 5, 6, 1000] {
        s.observe(size);
    }
    assert_eq!((s.count, s.total), (5, 1012));
    assert_eq!((s.min(), s.largest), (0, 1000));
    // The middle one of five, 5, to its power of two.
    assert_eq!(s.median(), 4);
    assert_eq!((s.hist[1], s.hist[3], s.hist[10]), (2, 2, 1));
}

#[test]
fn the_largest_sizes_share_a_bucket() {
    let mut s = SizeStats::new();
    s.observe(u64::MAX);
    s.observe(1 << 62);
    assert_eq!(s.hist[63], 2);
    assert_eq!(s.total, u64::MAX);
    assert_eq!(s.median(), 1 << 62);
    assert_eq!(s.min(), 1 << 62);
}

#[test]
fn a_run_is_checked_as_what_it_kept() {
    let mut l = Listing::new();
    let b = bounds("", None, 5);
    for key in ["a", "b", "c"] {
        l.observe(Some(key), Some(3), &b, &None);
    }
    assert_eq!((l.listed, l.kept, l.bytes, l.limit_hit), (3, 2, 6, true));
    let r = checked_range(false, &l, Some("b".to_string())).unwrap();
    assert_eq!((r.start_after, r.stop_at.as_deref()), (None, Some("b")));
    assert_eq!((r.files, r.bytes), (2, 6));
    assert_eq!(checked_range(true, &l, Some("b".to_string())), None);
    l.limit_hit = false;
    assert_eq!(checked_range(false, &l, Some("b".to_string())).unwrap().stop_at, None);
}
