//! What the command line and the environment mean.
use vstd::prelude::*;
use crate::keymap::KeyMap;
use crate::text;

verus! {

// ---------------------------------------------------------------------------
// Numbers
// ---------------------------------------------------------------------------
/// The words of the error that `u8::from_str_radix` gives for a text.
pub uninterp spec fn u8_error(s: Seq<char>, radix: nat) -> Seq<char>;

/// Calls `u8::from_str_radix`: an optional plus sign and at least one digit,
/// of a value that fits. The words of its error are named, not described.
#[verifier::external_body]
fn u8_from_radix(s: &str, radix: u32) -> (r: Result<u8, String>)
    requires
        2 <= radix <= 36,
    ensures
        r is Ok <==> (text::number(s@, radix as nat) is Some && text::number(s@, radix as nat)->0
            <= u8::MAX),
        r is Ok ==> r->Ok_0 == text::number(s@, radix as nat)->0,
        r is Err ==> r->Err_0@ == u8_error(s@, radix as nat),
{
    u8::from_str_radix(s, radix).map_err(|e| e.to_string())
}

/// The digits of a number on the command line and their radix: hexadecimal
/// after `0x` or `0X`, else decimal.
pub open spec fn digits_of(s: Seq<char>) -> (Seq<char>, nat) {
    match text::after_prefix(s, "0x"@) {
        Some(hex) => (hex, 16),
        None => match text::after_prefix(s, "0X"@) {
            Some(hex) => (hex, 16),
            None => (s, 10),
        },
    }
}

/// The byte that a text on the command line names.
pub open spec fn byte_of(s: Seq<char>) -> Option<nat> {
    let (digits, radix) = digits_of(text::trimmed(s));
    let n = text::number(digits, radix);
    if n is Some && n->0 <= u8::MAX {
        n
    } else {
        None
    }
}

/// A byte on the command line: `0` to `255`, or `0x` and hexadecimal digits.
pub fn parse_u8_hex_or_dec(s: &str) -> (r: Result<u8, String>)
    ensures
        r is Ok <==> byte_of(s@) is Some,
        r is Ok ==> r->Ok_0 == byte_of(s@)->0,
        ({
            let (digits, radix) = digits_of(text::trimmed(s@));
            let n = text::number(digits, radix);
            &&& r is Ok <==> n is Some && n->0 <= u8::MAX
            &&& r is Ok ==> r->Ok_0 == n->0
            &&& r is Err ==> r->Err_0@ == "invalid u8 (0..=255 or 0xNN): "@ + u8_error(
                digits,
                radix,
            )
        }),
{
    let s = text::trim(s);
    let parsed = match text::strip_prefix(s.as_str(), "0x") {
        Some(hex) => u8_from_radix(hex.as_str(), 16),
        None => match text::strip_prefix(s.as_str(), "0X") {
            Some(hex) => u8_from_radix(hex.as_str(), 16),
            None => u8_from_radix(s.as_str(), 10),
        },
    };
    match parsed {
        Ok(n) => Ok(n),
        Err(e) => {
            let mut words = String::new();
            words.append("invalid u8 (0..=255 or 0xNN): ");
            words.append(e.as_str());
            Err(words)
        },
    }
}

/// GiB as bytes, held at the largest count.
pub open spec fn gib_bytes(gib: u64) -> int {
    if gib * 0x4000_0000 <= u64::MAX {
        gib * 0x4000_0000
    } else {
        u64::MAX as int
    }
}

/// MiB as bytes; `None` where that is too large.
pub open spec fn mib_bytes(mib: usize) -> Option<int> {
    if mib * 0x10_0000 <= u64::MAX {
        Some(mib * 0x10_0000)
    } else {
        None
    }
}

/// A GiB is 1024 MiB and a MiB 1024 KiB, as long as the bytes can be counted:
/// sixteen thousand million GiB are held at the largest count.
pub proof fn sizes_are_powers_of_two(gib: u64, mib: usize)
    ensures
        gib < 16 * 1024 * 1024 * 1024 ==> gib_bytes(gib) == gib * 1024 * 1024 * 1024,
        gib >= 16 * 1024 * 1024 * 1024 ==> gib_bytes(gib) == u64::MAX,
        mib_bytes(mib) is Some <==> mib < 16 * 1024 * 1024 * 1024 * 1024,
        mib_bytes(mib) is Some ==> mib_bytes(mib)->0 == mib * 1024 * 1024,
{
}

/// GiB as bytes, held at the largest count.
pub fn gib_to_bytes(gib: u64) -> (r: u64)
    ensures
        r == gib_bytes(gib),
{
    if gib <= u64::MAX / 0x4000_0000 {
        gib * 0x4000_0000
    } else {
        u64::MAX
    }
}

/// MiB as bytes; `None` where that is too large.
pub fn mib_to_bytes(mib: usize) -> (r: Option<u64>)
    ensures
        r is Some <==> mib_bytes(mib) is Some,
        r is Some ==> r->0 == mib_bytes(mib)->0,
{
    (mib as u64).checked_mul(0x10_0000)
}

// ---------------------------------------------------------------------------
// Credentials
// ---------------------------------------------------------------------------
/// Where the token is kept, given the home directory.
pub open spec fn token_file(home: Seq<char>) -> Seq<char> {
    home + "/.cache/huggingface/token"@
}

/// The outcome `r` of looking for the token.
pub open spec fn token_found(
    r: Result<String, String>,
    given: Option<String>,
    file: Option<Seq<char>>,
    path: Seq<char>,
) -> bool {
    &&& given is Some ==> r == Ok::<String, String>(given->0)
    &&& given is None && file is Some ==> r is Ok && r->Ok_0@ == text::trimmed(file->0)
    &&& given is None && file is None ==> r is Err && r->Err_0@
        == "no --hf-token / HF_TOKEN set and "@ + path + " not readable"@
}

/// The token that is given is used as it is, whatever the file holds; without
/// one, a token in the file is used, whatever white space stands around it;
/// without both, the error names the file.
pub proof fn a_given_token_comes_first(
    r: Result<String, String>,
    given: Option<String>,
    file: Option<Seq<char>>,
    path: Seq<char>,
    a: Seq<char>,
    token: Seq<char>,
    b: Seq<char>,
)
    requires
        token_found(r, given, file, path),
        forall|i: int| 0 <= i < a.len() ==> text::is_white_space(#[trigger] a[i]),
        forall|i: int| 0 <= i < b.len() ==> text::is_white_space(#[trigger] b[i]),
        token.len() > 0,
        !text::is_white_space(token[0]),
        !text::is_white_space(token.last()),
    ensures
        r is Err <==> given is None && file is None,
        given is Some ==> r->Ok_0 == given->0,
        given is None && file == Some(a + token + b) ==> r->Ok_0@ == token,
        r is Err ==> text::holds(r->Err_0@, path),
{
    text::trimming_leaves_the_core(a, token, b);
    if r is Err {
        let head = "no --hf-token / HF_TOKEN set and "@;
        text::texts_hold_what_is_inside(r->Err_0@, path, head, " not readable"@);
    }
}

/// The token file is below the home directory.
pub proof fn the_token_is_below_home(home: Seq<char>)
    ensures
        text::after_prefix(token_file(home), home) == Some("/.cache/huggingface/token"@),
{
    text::parts_are_taken_off(home, "/.cache/huggingface/token"@);
}

/// Where the token is kept, given the home directory.
pub fn token_path(home: &str) -> (r: String)
    ensures
        r@ == token_file(home@),
{
    let mut r = home.to_owned();
    r.append("/.cache/huggingface/token");
    r
}

/// The token to use: the one given, else what the token file holds, without
/// the white space around it. `file` is `None` where the file at `path` cannot
/// be read.
pub fn choose_token(given: Option<String>, file: Option<&str>, path: &str) -> (r: Result<
    String,
    String,
>)
    ensures
        token_found(
            r,
            given,
            match file {
                Some(s) => Some(s@),
                None => None,
            },
            path@,
        ),
{
    if let Some(t) = given {
        return Ok(t);
    }
    match file {
        Some(s) => Ok(text::trim(s)),
        None => {
            let mut words = String::new();
            words.append("no --hf-token / HF_TOKEN set and ");
            words.append(path);
            words.append(" not readable");
            assert(words@ =~= "no --hf-token / HF_TOKEN set and "@ + path@ + " not readable"@);
            Err(words)
        },
    }
}

/// A map with a value under `key`, where there is one that is not empty.
pub open spec fn with_value(m: Map<Seq<char>, String>, key: Seq<char>, value: Option<String>) -> Map<
    Seq<char>,
    String,
> {
    if value is Some && value->0@.len() > 0 {
        m.insert(key, value->0)
    } else {
        m
    }
}

/// Put a value under `key`, where there is one that is not empty.
fn put_value(m: &mut KeyMap<String>, key: &str, value: Option<String>)
    requires
        old(m).wf(),
    ensures
        final(m).wf(),
        final(m)@ == with_value(old(m)@, key@, value),
{
    if let Some(v) = value {
        if !v.as_str().is_empty() {
            m.insert(key.to_owned(), v);
        }
    }
}

/// The secrets of a copier, but for the token.
pub open spec fn source_secrets(
    access_key_id: Option<String>,
    secret_access_key: Option<String>,
    session_token: Option<String>,
) -> Map<Seq<char>, String> {
    with_value(
        with_value(
            with_value(Map::empty(), "AWS_ACCESS_KEY_ID"@, access_key_id),
            "AWS_SECRET_ACCESS_KEY"@,
            secret_access_key,
        ),
        "AWS_SESSION_TOKEN"@,
        session_token,
    )
}

/// A copier gets each of the source's credentials exactly when it is set and
/// not empty, under its own name, and nothing else.
pub proof fn copiers_get_what_is_set(
    access_key_id: Option<String>,
    secret_access_key: Option<String>,
    session_token: Option<String>,
    key: Seq<char>,
)
    ensures
        ({
            let m = source_secrets(access_key_id, secret_access_key, session_token);
            let value = if key == "AWS_ACCESS_KEY_ID"@ {
                access_key_id
            } else if key == "AWS_SECRET_ACCESS_KEY"@ {
                secret_access_key
            } else if key == "AWS_SESSION_TOKEN"@ {
                session_token
            } else {
                None
            };
            &&& m.contains_key(key) <==> value is Some && value->0@.len() > 0
            &&& m.contains_key(key) ==> m[key] == value->0
            &&& !m.contains_key("HF_TOKEN"@)
        }),
{
    reveal_strlit("AWS_ACCESS_KEY_ID");
    reveal_strlit("AWS_SECRET_ACCESS_KEY");
    reveal_strlit("AWS_SESSION_TOKEN");
    reveal_strlit("HF_TOKEN");
    assert("AWS_ACCESS_KEY_ID"@.len() == 17 && "AWS_SECRET_ACCESS_KEY"@.len() == 21
        && "AWS_SESSION_TOKEN"@.len() == 17 && "HF_TOKEN"@.len() == 8);
    assert("AWS_ACCESS_KEY_ID"@[4] != "AWS_SESSION_TOKEN"@[4]);
}

/// The secrets handed on to every copier: the source's credentials, as far as
/// they are set, and the token.
pub fn copier_secrets(
    hf_token: &str,
    access_key_id: Option<String>,
    secret_access_key: Option<String>,
    session_token: Option<String>,
) -> (m: KeyMap<String>)
    ensures
        m.wf(),
        m@.contains_key("HF_TOKEN"@) && m@["HF_TOKEN"@]@ == hf_token@,
        m@ == source_secrets(access_key_id, secret_access_key, session_token).insert(
            "HF_TOKEN"@,
            m@["HF_TOKEN"@],
        ),
{
    let mut m: KeyMap<String> = KeyMap::new();
    put_value(&mut m, "AWS_ACCESS_KEY_ID", access_key_id);
    put_value(&mut m, "AWS_SECRET_ACCESS_KEY", secret_access_key);
    put_value(&mut m, "AWS_SESSION_TOKEN", session_token);
    let ghost before = m@;
    let token = hf_token.to_owned();
    m.insert("HF_TOKEN".to_owned(), token);
    assert(m@ =~= before.insert("HF_TOKEN"@, m@["HF_TOKEN"@]));
    m
}

/// What is logged by default: this program, and only warnings of the upload
/// library.
pub fn default_log() -> (r: String)
    ensures
        r@ == "hf_s3ream=info,xet_data=warn,xet_client=warn"@,
{
    "hf_s3ream=info,xet_data=warn,xet_client=warn".to_owned()
}

/// The environment is the log filter, or the default one.
pub open spec fn logs(m: Map<Seq<char>, String>, rust_log: Option<String>) -> bool {
    &&& m.dom() == Set::empty().insert("RUST_LOG"@)
    &&& m["RUST_LOG"@]@ == match rust_log {
        Some(s) => s@,
        None => "hf_s3ream=info,xet_data=warn,xet_client=warn"@,
    }
}

/// A copier's environment has the log filter of the run, or the default one,
/// and nothing else.
pub proof fn copiers_log_as_the_run_does(
    m: Map<Seq<char>, String>,
    rust_log: Option<String>,
    key: Seq<char>,
)
    requires
        logs(m, rust_log),
    ensures
        m.contains_key(key) <==> key == "RUST_LOG"@,
        rust_log is Some ==> m["RUST_LOG"@]@ == rust_log->0@,
        rust_log is None ==> m["RUST_LOG"@]@ == "hf_s3ream=info,xet_data=warn,xet_client=warn"@,
{
    assert(m.contains_key(key) <==> m.dom().contains(key));
}

/// The environment handed on to every copier: the log filter, or the default
/// one.
pub fn copier_env(rust_log: Option<String>) -> (m: KeyMap<String>)
    ensures
        m.wf(),
        logs(m@, rust_log),
{
    let mut m: KeyMap<String> = KeyMap::new();
    let value = match rust_log {
        Some(s) => s,
        None => default_log(),
    };
    m.insert("RUST_LOG".to_owned(), value);
    assert(m@.dom() =~= Set::empty().insert("RUST_LOG"@));
    m
}

/// A byte is read back from its decimal digits, whatever white space stands
/// around them; a larger number is none.
pub proof fn bytes_are_read_in_decimal(a: Seq<char>, n: nat, b: Seq<char>)
    requires
        forall|i: int| 0 <= i < a.len() ==> text::is_white_space(#[trigger] a[i]),
        forall|i: int| 0 <= i < b.len() ==> text::is_white_space(#[trigger] b[i]),
    ensures
        n <= 255 ==> byte_of(a + text::decimal(n) + b) == Some(n),
        n > 255 ==> byte_of(a + text::decimal(n) + b) is None,
{
    let digits = text::decimal(n);
    text::decimals_are_read_back(n);
    assert('0' <= digits[0] <= '9');
    assert('0' <= digits[digits.len() - 1] <= '9');
    text::trimming_leaves_the_core(a, digits, b);
    reveal_strlit("0x");
    reveal_strlit("0X");
    assert(!"0x"@.is_prefix_of(digits)) by {
        if "0x"@.is_prefix_of(digits) {
            assert(digits.subrange(0, 2)[1] == 'x');
            assert(digits[1] == 'x');
        }
    }
    assert(!"0X"@.is_prefix_of(digits)) by {
        if "0X"@.is_prefix_of(digits) {
            assert(digits.subrange(0, 2)[1] == 'X');
            assert(digits[1] == 'X');
        }
    }
}

/// After `0x` or `0X`, two hexadecimal digits name a byte: sixteen times the
/// first and the second.
pub proof fn bytes_are_read_in_hexadecimal(h: char, l: char)
    requires
        text::hex_value(h) is Some,
        text::hex_value(l) is Some,
    ensures
        byte_of(seq!['0', 'x', h, l]) == Some((16 * text::hex_value(h)->0 + text::hex_value(l)->0)),
        byte_of(seq!['0', 'X', h, l]) == Some((16 * text::hex_value(h)->0 + text::hex_value(l)->0)),
{
    reveal_strlit("0x");
    reveal_strlit("0X");
    let none = Seq::<char>::empty();
    let digits = seq![h, l];
    let lower = seq!['0', 'x', h, l];
    let upper = seq!['0', 'X', h, l];
    text::hexadecimal_digits_count(h);
    text::hexadecimal_digits_count(l);
    text::trimming_leaves_the_core(none, lower, none);
    text::trimming_leaves_the_core(none, upper, none);
    assert(none + lower + none =~= lower);
    assert(none + upper + none =~= upper);
    assert("0x"@ =~= seq!['0', 'x']);
    assert("0X"@ =~= seq!['0', 'X']);
    assert(lower =~= "0x"@ + digits);
    assert(upper =~= "0X"@ + digits);
    text::parts_are_taken_off("0x"@, digits);
    text::parts_are_taken_off("0X"@, digits);
    assert(!"0x"@.is_prefix_of(upper)) by {
        assert(upper.subrange(0, 2)[1] == 'X');
    }
    reveal_with_fuel(text::digits_value, 3);
    assert(digits.drop_last() =~= seq![h]);
    assert(digits.drop_last().drop_last() =~= none);
}

/// What names a byte: after `0x` or `0X` a hexadecimal number, else a decimal
/// one, of 255 at most; white space around it does not matter.
pub proof fn bytes_are_numbers_that_fit(a: Seq<char>, s: Seq<char>, b: Seq<char>, n: nat)
    requires
        forall|i: int| 0 <= i < a.len() ==> text::is_white_space(#[trigger] a[i]),
        forall|i: int| 0 <= i < b.len() ==> text::is_white_space(#[trigger] b[i]),
        s.len() > 0,
        !text::is_white_space(s[0]),
        !text::is_white_space(s.last()),
    ensures
        ({
            let hexadecimal = s.len() >= 2 && s[0] == '0' && (s[1] == 'x' || s[1] == 'X');
            let read = if hexadecimal {
                text::number(s.skip(2), 16)
            } else {
                text::number(s, 10)
            };
            byte_of(a + s + b) == Some(n) <==> read == Some(n) && n <= 255
        }),
{
    text::trimming_leaves_the_core(a, s, b);
    reveal_strlit("0x");
    reveal_strlit("0X");
    let lower = "0x"@;
    let upper = "0X"@;
    if lower.is_prefix_of(s) {
        assert(s.subrange(0, 2)[0] == s[0] && s.subrange(0, 2)[1] == s[1]);
    }
    if upper.is_prefix_of(s) {
        assert(s.subrange(0, 2)[0] == s[0] && s.subrange(0, 2)[1] == s[1]);
    }
    if s.len() >= 2 && s[0] == '0' && s[1] == 'x' {
        assert(lower =~= s.subrange(0, 2));
    }
    if s.len() >= 2 && s[0] == '0' && s[1] == 'X' {
        assert(upper =~= s.subrange(0, 2));
    }
}

} // verus!
