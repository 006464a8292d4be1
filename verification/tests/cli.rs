//! The command line and the environment.
use hf_s3ream::cli::{
    choose_token, copier_env, copier_secrets, gib_to_bytes, mib_to_bytes, parse_u8_hex_or_dec,
    token_path,
};

#[test]
fn a_byte_is_decimal_or_hexadecimal() {
    for (text, value) in [
        ("0", 0),
        ("255", 255),
        (" 7 ", 7),
        ("+9", 9),
        ("0x5a", 0x5a),
        ("0XFF", 255),
        ("0x+f", 15),
        ("007", 7),
    ] {
        assert_eq!(parse_u8_hex_or_dec(text), Ok(value), "{text}");
    }
}

#[test]
fn a_text_that_is_no_byte_is_refused() {
    for (text, reason) in [
        ("256", "number too large to fit in target type"),
        ("0x100", "number too large to fit in target type"),
        ("", "cannot parse integer from empty string"),
        ("0x", "cannot parse integer from empty string"),
        ("-1", "invalid digit found in string"),
        ("5a", "invalid digit found in string"),
        ("+", "invalid digit found in string"),
    ] {
        assert_eq!(
            parse_u8_hex_or_dec(text).unwrap_err(),
            format!("invalid u8 (0..=255 or 0xNN): {reason}"),
            "{text}"
        );
    }
}

#[test]
fn sizes_are_turned_into_bytes() {
    assert_eq!(gib_to_bytes(0), 0);
    assert_eq!(gib_to_bytes(16), 17_179_869_184);
    assert_eq!(gib_to_bytes(u64::MAX), u64::MAX);
    assert_eq!(gib_to_bytes(1 << 34), u64::MAX);
    assert_eq!(gib_to_bytes((1 << 34) - 1), ((1 << 34) - 1) * (1 << 30));
    assert_eq!(mib_to_bytes(16), Some(16_777_216));
    assert_eq!(mib_to_bytes(usize::MAX), None);
}

#[test]
fn a_token_is_given_or_read() {
    let path = token_path("/home/me");
    assert_eq!(path, "/home/me/.cache/huggingface/token");
    assert_eq!(
        choose_token(Some(" t ".to_string()), Some("f"), &path).as_deref(),
        Ok(" t ")
    );
    assert_eq!(choose_token(None, Some("\n f\u{2003}"), &path).as_deref(), Ok("f"));
    assert_eq!(
        choose_token(None, None, &path).unwrap_err(),
        "no --hf-token / HF_TOKEN set and /home/me/.cache/huggingface/token not readable"
    );
}

#[test]
fn copiers_get_the_credentials_that_are_set() {
    let some = |s: &str| Some(s.to_string());
    let m = copier_secrets("t", some("id"), some("key"), some(""));
    let entries: Vec<(&str, &str)> = m
        .entries
        .iter()
        .map(|(k, v)| (k.as_str(), v.as_str()))
        .collect();
    assert_eq!(
        entries,
        [
            ("AWS_ACCESS_KEY_ID", "id"),
            ("AWS_SECRET_ACCESS_KEY", "key"),
            ("HF_TOKEN", "t"),
        ]
    );
    assert_eq!(copier_secrets("t", None, None, some("s")).len(), 2);
}

#[test]
fn copiers_get_the_log_filter() {
    let m = copier_env(Some("debug".to_string()));
    assert_eq!(m.get("RUST_LOG").map(String::as_str), Some("debug"));
    let m = copier_env(None);
    assert_eq!(
        m.get("RUST_LOG").map(String::as_str),
        Some("hf_s3ream=info,xet_data=warn,xet_client=warn")
    );
    assert_eq!(m.len(), 1);
}
