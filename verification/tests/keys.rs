//! Keys under a prefix, exclude patterns, destinations.
use hf_s3ream::dest::{parse_dest, split_at_first, BucketRef};
use hf_s3ream::globs::{build_globset, excludes, globs_fit, GlobsError};
use hf_s3ream::keys::{
    destination_path, empty_segment, filter_key, filter_key_with, key_belongs_to_prefix,
    relative_key_path, source_key, strip_slashes, KeyFilter,
};

fn texts(list: &[&str]) -> Vec<String> {
    list.iter().map(|s| s.to_string()).collect()
}

#[test]
fn prefix_with_trailing_slash_does_not_match_siblings() {
    assert!(key_belongs_to_prefix("foo/a", "foo/"));
    assert!(key_belongs_to_prefix("foo/bar/a", "foo/"));
    assert!(!key_belongs_to_prefix("foobar/a", "foo/"));
    assert!(!key_belongs_to_prefix("foo", "foo/"));
}

#[test]
fn prefix_without_trailing_slash_matches_exact_or_child_only() {
    assert!(key_belongs_to_prefix("foo", "foo"));
    assert!(key_belongs_to_prefix("foo/a", "foo"));
    assert!(!key_belongs_to_prefix("foobar/a", "foo"));
}

#[test]
fn relative_paths_respect_prefix_boundaries() {
    assert_eq!(relative_key_path("foo/a", "foo/"), "a");
    assert_eq!(relative_key_path("foo/bar/a", "foo/"), "bar/a");
    assert_eq!(relative_key_path("foo/a", "foo"), "a");
    assert_eq!(relative_key_path("foo", "foo"), "foo");
    assert_eq!(relative_key_path("foobar/a", "foo"), "foobar/a");
    assert_eq!(relative_key_path("foo/a", ""), "foo/a");
}

#[test]
fn keys_with_an_empty_segment_are_invalid() {
    for key in ["/a", "a/", "a//b", "/", "//"] {
        assert!(empty_segment(key), "{key}");
    }
    for key in ["", "a", "a/b", "a b/c"] {
        assert!(!empty_segment(key), "{key}");
    }
}

#[test]
fn leading_slashes_are_stripped_together() {
    assert_eq!(strip_slashes("//a/b/"), "a/b/");
    assert_eq!(strip_slashes("///"), "");
    assert_eq!(relative_key_path("foo//a", "foo"), "a");
    assert_eq!(relative_key_path("foo//a", "foo/"), "/a");
}

#[test]
fn a_key_is_filtered_by_prefix_then_form_then_pattern() {
    let set = build_globset(&texts(&["*decay*"])).unwrap();
    assert_eq!(filter_key("p/a", "p/", &set), KeyFilter::Keep);
    assert_eq!(filter_key("q/decay", "p/", &set), KeyFilter::Outside);
    assert_eq!(filter_key("p//decay", "p/", &set), KeyFilter::Invalid);
    assert_eq!(filter_key("p/x/decay.gz", "p/", &set), KeyFilter::Excluded);
    assert_eq!(filter_key("p/x/decay.gz", "p/", &None), KeyFilter::Keep);
    assert_eq!(filter_key_with("p/a", "p/", true), KeyFilter::Excluded);
    assert_eq!(filter_key_with("p/a", "p/", false), KeyFilter::Keep);
}

#[test]
fn any_pattern_that_matches_excludes() {
    let set = build_globset(&texts(&["*.tmp", "logs/**"])).unwrap();
    assert!(excludes(&set, "a/b.tmp"));
    assert!(excludes(&set, "logs/x"));
    assert!(!excludes(&set, "a/b.gz"));
    let none = build_globset(&Vec::new()).unwrap();
    assert!(none.is_none());
    assert!(!excludes(&none, "a/b.tmp"));
}

#[test]
fn the_first_pattern_that_is_no_glob_is_named() {
    let e = build_globset(&texts(&["*.ok", "[", "{"])).unwrap_err();
    match &e {
        GlobsError::Invalid { pattern, error } => {
            assert_eq!(pattern, "[");
            assert!(error.contains("unclosed character class"), "{error}");
        }
        other => panic!("{other:?}"),
    }
    assert!(e.message().starts_with("invalid --exclude glob: [: "));
    assert_eq!(
        GlobsError::Build("too big".to_string()).message(),
        "build globset: too big"
    );
}

#[test]
fn patterns_of_an_absurd_size_do_not_fit() {
    assert!(globs_fit(&texts(&["*", "{a,b}"])));
    assert!(globs_fit(&vec!["{".repeat(1000)]));
    assert!(!globs_fit(&vec!["{".repeat(1001)]));
    // Groups side by side do not nest.
    assert!(globs_fit(&vec!["{a,b}".repeat(5000)]));
    // With a class, a closing brace may stand for itself.
    assert!(!globs_fit(&vec!["{[}]".repeat(1001)]));
    assert!(!globs_fit(&vec![r"{\}".repeat(1001)]));
    assert!(!globs_fit(&vec!["x".repeat(0x100_0001)]));
    assert!(!globs_fit(&vec!["x".repeat(0x80_0001), "x".repeat(0x80_0000)]));
}

#[test]
fn the_prefix_twice_over_lands_where_the_prefix_would() {
    // The one key that the mapping does not keep apart.
    assert_eq!(relative_key_path("foo/foo", "foo"), "foo");
    assert_eq!(relative_key_path("foo", "foo"), "foo");
    assert_eq!(source_key("foo", "", "foo").as_deref(), Some("foo"));
}

#[test]
fn a_destination_names_a_bucket_and_a_directory() {
    let dest = |org: &str, name: &str, path: &str| BucketRef {
        org: org.to_string(),
        name: name.to_string(),
        path: path.to_string(),
    };
    assert_eq!(parse_dest("org/name").unwrap(), dest("org", "name", ""));
    assert_eq!(
        parse_dest("hf://buckets/org/name").unwrap(),
        dest("org", "name", "")
    );
    assert_eq!(
        parse_dest("hf://buckets/org/name/sub/dir").unwrap(),
        dest("org", "name", "sub/dir")
    );
    assert_eq!(
        parse_dest("hf://buckets/name").unwrap_err(),
        "bucket dest must be org/name or hf://buckets/org/name, got: name"
    );
}

#[test]
fn a_printed_destination_parses_to_itself() {
    for text in ["hf://buckets/org/name", "hf://buckets/org/name/sub/dir"] {
        let b = parse_dest(text).unwrap();
        assert_eq!(b.uri(), text);
        assert_eq!(b.id(), "org/name");
        assert_eq!(parse_dest(&b.uri()).unwrap(), b);
    }
}

#[test]
fn splitting_takes_the_first_separator() {
    let (a, b) = split_at_first("x=y=z", '=').unwrap();
    assert_eq!((a.as_str(), b.as_str()), ("x", "y=z"));
    assert_eq!(split_at_first("xyz", '='), None);
}

#[test]
fn a_destination_path_is_joined_with_a_slash() {
    assert_eq!(destination_path("", "a/b"), "a/b");
    assert_eq!(destination_path("d", "a/b"), "d/a/b");
}
