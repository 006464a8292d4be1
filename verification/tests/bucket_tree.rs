//! Listings of a bucket: entries, pages, addresses.
use hf_s3ream::bucket_tree::{
    add_sizes, api_url, cursor_of, file_sizes, lookups, next_cursor, next_link, tree_url, PathInfo,
    TreeUrlError,
};
use hf_s3ream::keymap::KeyMap;
use hf_s3ream::urls::UrlParts;
use std::collections::HashMap;

/// The entries in a listing's JSON.
fn entries(body: &str) -> Vec<PathInfo> {
    let v: serde_json::Value = serde_json::from_str(body).unwrap();
    v.as_array()
        .unwrap()
        .iter()
        .map(|e| PathInfo {
            kind: e["type"].as_str().unwrap().to_string(),
            path: e["path"].as_str().unwrap().to_string(),
            size: e.get("size").and_then(|s| s.as_u64()),
        })
        .collect()
}

#[test]
fn paths_info_keeps_only_files_with_a_size() {
    let entries = entries(
        r#"[
            {"type":"file","path":"a/x.bin","size":42,"xetHash":"ab","uploadedAt":"2026-09-14T12:13:09.512Z"},
            {"type":"file","path":"a/empty","size":0,"uploadedAt":"2026-09-14T12:13:09.512Z"},
            {"type":"file","path":"a/no-size","uploadedAt":"2026-09-14T12:13:09.512Z"},
            {"type":"directory","path":"a","uploadedAt":"2026-09-14T12:13:09.512Z"}
        ]"#,
    );
    let sizes: HashMap<_, _> = file_sizes(entries).into_iter().collect();
    assert_eq!(sizes.len(), 2);
    assert_eq!(sizes.get("a/x.bin"), Some(&42));
    assert_eq!(sizes.get("a/empty"), Some(&0));
}

#[test]
fn next_cursor_is_read_from_the_rel_next_link() {
    let link = r#"<https://huggingface.co/api/buckets/o/n/tree?limit=3&recursive=true&cursor=eyJwIjoiYSJ9>; rel="next""#;
    assert_eq!(next_cursor(link).as_deref(), Some("eyJwIjoiYSJ9"));
    let two = r#"<https://huggingface.co/x?cursor=first>; rel="first", <https://huggingface.co/x?cursor=abc%2Fdef>; rel="next""#;
    assert_eq!(next_cursor(two).as_deref(), Some("abc/def"));
    assert_eq!(
        next_cursor(r#"<https://huggingface.co/x?cursor=p>; rel="prev""#),
        None
    );
    assert_eq!(
        next_cursor(r#"<https://huggingface.co/x>; rel="next""#),
        None
    );
    assert_eq!(next_cursor(""), None);
}

#[test]
fn the_cursor_is_the_first_of_its_name() {
    let pair = |k: &str, v: &str| (k.to_string(), v.to_string());
    let parts = UrlParts {
        scheme: "https".to_string(),
        host: None,
        path: "/".to_string(),
        query: vec![pair("limit", "3"), pair("cursor", "one"), pair("cursor", "two")],
    };
    assert_eq!(cursor_of(&parts).as_deref(), Some("one"));
    let none = UrlParts {
        query: vec![pair("Cursor", "one")],
        ..parts
    };
    assert_eq!(cursor_of(&none), None);
}

#[test]
fn the_next_link_stands_between_angle_brackets() {
    assert_eq!(
        next_link(r#" <https://h/x> ; rel="next"; a="b""#).as_deref(),
        Some("https://h/x")
    );
    assert_eq!(next_link(r#"https://h/x; rel="next""#), None);
    assert_eq!(next_link(r#"<https://h/x; rel="next""#), None);
    assert_eq!(next_link("<https://h/x>; rel=next"), None);
    // An address that is no URL has no cursor.
    assert_eq!(next_cursor(r#"<not a url?cursor=x>; rel="next""#), None);
}

#[test]
fn a_tree_address_encodes_each_segment_once() {
    assert_eq!(
        tree_url("https://huggingface.co", "org/name", "", None).unwrap(),
        "https://huggingface.co/api/buckets/org/name/tree?recursive=true&limit=5000&sort=path"
    );
    assert_eq!(
        tree_url("https://huggingface.co", "org/name", "a b/100%", Some("x/y=")).unwrap(),
        "https://huggingface.co/api/buckets/org/name/tree/a%20b/100%25?recursive=true&limit=5000&sort=path&cursor=x%2Fy%3D"
    );
}

#[test]
fn an_endpoint_that_makes_no_url_has_no_tree_address() {
    let bare = tree_url("huggingface.co", "o/n", "", None).unwrap_err();
    assert_eq!(
        bare,
        TreeUrlError::Parse("relative URL without a base".to_string())
    );
    assert_eq!(bare.message(), "tree URL: relative URL without a base");
    assert_eq!(
        tree_url("huggingface.co", "o/n", "a", None).unwrap_err(),
        TreeUrlError::Parse("relative URL without a base".to_string())
    );
    let opaque = tree_url("mailto:x", "o/n", "a", None).unwrap_err();
    assert_eq!(opaque, TreeUrlError::NotABase);
    assert_eq!(opaque.message(), "tree URL cannot be a base");
    // Without a path no segment is appended, so that a base is not needed.
    assert!(tree_url("mailto:x", "o/n", "", None).is_ok());
}

#[test]
fn api_addresses_name_the_bucket() {
    assert_eq!(
        api_url("https://h", "o/n", "/paths-info"),
        "https://h/api/buckets/o/n/paths-info"
    );
    assert_eq!(api_url("https://h", "o/n", ""), "https://h/api/buckets/o/n");
}

#[test]
fn lookups_cover_every_path_once() {
    assert!(lookups(0).is_empty());
    assert_eq!(lookups(1), [(0, 1)]);
    assert_eq!(lookups(1000), [(0, 1000)]);
    assert_eq!(lookups(2500), [(0, 1000), (1000, 2000), (2000, 2500)]);
}

#[test]
fn later_responses_add_to_the_sizes() {
    let file = |path: &str, size: Option<u64>| PathInfo {
        kind: "file".to_string(),
        path: path.to_string(),
        size,
    };
    let mut sizes: KeyMap<u64> = KeyMap::new();
    add_sizes(&mut sizes, vec![file("b", Some(2)), file("a", Some(1))]);
    add_sizes(&mut sizes, vec![file("b", Some(3)), file("c", None)]);
    assert_eq!(sizes.len(), 2);
    assert_eq!(sizes.get("a"), Some(&1));
    assert_eq!(sizes.get("b"), Some(&3));
    assert_eq!(sizes.get("c"), None);
}
