//! Text, and maps keyed by it.
use hf_s3ream::keymap::{copy_of, KeyMap};
use hf_s3ream::text::{
    begins_with, decimal_text, ends_with_char, holds_text, join, parse_u64, pieces_of, same,
    signed_decimal_text, sorts_before, strip_prefix, strip_suffix, trim,
    white_space,
};

#[test]
fn keys_sort_as_their_bytes_do() {
    let keys = ["", "/", "A", "B", "a", "a/", "aa", "b", "é", "é0", "\u{fffd}", "😀"];
    for a in keys {
        for b in keys {
            assert_eq!(sorts_before(a, b), a.as_bytes() < b.as_bytes(), "{a} {b}");
            assert_eq!(same(a, b), a == b);
        }
    }
}

#[test]
fn numbers_are_written_in_decimal() {
    for n in [0, 7, 10, 99, 100, u64::MAX] {
        assert_eq!(decimal_text(n), n.to_string());
    }
    for i in [0, -1, 42, i64::MIN, i64::MAX] {
        assert_eq!(signed_decimal_text(i), i.to_string());
    }
}

#[test]
fn numbers_are_read_in_decimal() {
    for text in ["0", "+7", "18446744073709551615", "18446744073709551616", "", "+", "-1", "1x", " 1", "００"] {
        assert_eq!(parse_u64(text), text.parse::<u64>().ok(), "{text}");
    }
}

#[test]
fn texts_are_split_and_joined() {
    for text in ["", "a", "a,b", ",a,,b,"] {
        let v = pieces_of(text, ',');
        let want: Vec<String> = text.split(',').map(str::to_string).collect();
        assert_eq!(v, want);
        assert_eq!(join(&v, ","), text);
    }
    assert_eq!(join(&Vec::new(), ", "), "");
}

#[test]
fn texts_are_searched_and_stripped() {
    assert!(begins_with("abc", "ab") && !begins_with("abc", "b"));
    assert!(ends_with_char("a/", '/') && !ends_with_char("", '/'));
    assert!(holds_text("abc", "bc") && holds_text("abc", "") && !holds_text("abc", "cb"));
    assert_eq!(strip_prefix("abc", "ab").as_deref(), Some("c"));
    assert_eq!(strip_prefix("abc", "b"), None);
    assert_eq!(strip_suffix("abc", "bc").as_deref(), Some("a"));
    assert_eq!(strip_suffix("abc", "b"), None);
    assert_eq!(trim("\t a b\u{a0}\n"), "a b");
    assert_eq!(trim("  "), "");
}

#[test]
fn a_map_keeps_its_keys_in_order() {
    let mut m: KeyMap<String> = KeyMap::new();
    for (k, v) in [("b", "1"), ("a", "2"), ("c", "3"), ("b", "4")] {
        m.insert(k.to_string(), v.to_string());
    }
    let keys: Vec<&str> = m.entries.iter().map(|e| e.0.as_str()).collect();
    assert_eq!(keys, ["a", "b", "c"]);
    assert_eq!(m.get("b").map(String::as_str), Some("4"));
    assert_eq!(m.get("d"), None);
    assert_eq!(copy_of(&m), m);
}

#[test]
fn white_space_is_what_unicode_says() {
    for c in '\0'..=char::MAX {
        assert_eq!(white_space(c), c.is_whitespace(), "{c:?}");
    }
    assert_eq!(trim(" \u{2003}\u{3000}a b\u{85}\n"), "a b");
}
