//! Text as sequences of characters: the vocabulary of the other modules.
use vstd::prelude::*;

verus! {

/// `String::push` appends one character to the end of the string.
pub assume_specification[ String::push ](s: &mut String, c: char)
    ensures
        final(s)@ == old(s)@.push(c),
;

// ---------------------------------------------------------------------------
// Order
// ---------------------------------------------------------------------------
/// The order of keys: by the first character that differs, a proper prefix
/// first. `byte_order` shows that this is the order of their bytes, which is
/// how S3 sorts a listing.
pub open spec fn key_lt(a: Seq<char>, b: Seq<char>) -> bool
    decreases a.len(),
{
    if b.len() == 0 {
        false
    } else if a.len() == 0 {
        true
    } else if a[0] != b[0] {
        (a[0] as int) < (b[0] as int)
    } else {
        key_lt(a.drop_first(), b.drop_first())
    }
}

/// `a` sorts before `b`, or is `b`.
pub open spec fn key_le(a: Seq<char>, b: Seq<char>) -> bool {
    key_lt(a, b) || a == b
}

/// No key sorts before itself.
pub proof fn key_lt_irreflexive(a: Seq<char>)
    ensures
        !key_lt(a, a),
    decreases a.len(),
{
    if a.len() > 0 {
        key_lt_irreflexive(a.drop_first());
    }
}

/// The order of keys is transitive.
pub proof fn key_lt_transitive(a: Seq<char>, b: Seq<char>, c: Seq<char>)
    requires
        key_lt(a, b),
        key_lt(b, c),
    ensures
        key_lt(a, c),
    decreases a.len(),
{
    if a.len() > 0 && b.len() > 0 && c.len() > 0 && a[0] == b[0] && b[0] == c[0] {
        key_lt_transitive(a.drop_first(), b.drop_first(), c.drop_first());
    }
}

/// Any two keys are equal or one sorts before the other.
pub proof fn key_lt_total(a: Seq<char>, b: Seq<char>)
    ensures
        key_lt(a, b) || a == b || key_lt(b, a),
    decreases a.len(),
{
    if a.len() == 0 || b.len() == 0 {
        if a.len() == 0 && b.len() == 0 {
            assert(a =~= b);
        }
    } else if a[0] == b[0] {
        key_lt_total(a.drop_first(), b.drop_first());
        if a.drop_first() == b.drop_first() {
            assert(a =~= seq![a[0]] + a.drop_first());
            assert(b =~= seq![b[0]] + b.drop_first());
        }
    }
}

/// The negation of the strict order is the reversed weak order.
pub proof fn key_not_lt(a: Seq<char>, b: Seq<char>)
    ensures
        !key_lt(a, b) <==> key_le(b, a),
{
    key_lt_total(a, b);
    key_lt_irreflexive(a);
    if key_lt(a, b) && key_lt(b, a) {
        key_lt_transitive(a, b, a);
    }
}

/// The characters of `s`.
pub fn chars_of(s: &str) -> (v: Vec<char>)
    ensures
        v@ == s@,
{
    let mut v: Vec<char> = Vec::new();
    for c in it: s.chars()
        invariant
            v@ == it.seq().take(it.index()),
            it.seq() == s@,
    {
        v.push(c);
        assert(it.seq().take(it.index() + 1) =~= it.seq().take(it.index()).push(c));
    }
    assert(v@ =~= s@);
    v
}

/// The string made of `v[from..to]`.
pub fn text_of(v: &Vec<char>, from: usize, to: usize) -> (s: String)
    requires
        from <= to <= v@.len(),
    ensures
        s@ == v@.subrange(from as int, to as int),
{
    let mut s = String::new();
    let mut i: usize = from;
    while i < to
        invariant
            from <= i <= to <= v@.len(),
            s@ == v@.subrange(from as int, i as int),
        decreases to - i,
    {
        s.push(v[i]);
        assert(v@.subrange(from as int, i + 1) =~= v@.subrange(from as int, i as int).push(
            v@[i as int],
        ));
        i = i + 1;
    }
    s
}

/// Whether two texts are equal.
pub fn same(a: &str, b: &str) -> (r: bool)
    ensures
        r == (a@ == b@),
{
    let x = chars_of(a);
    let y = chars_of(b);
    same_at(&x, 0, &y) && x.len() == y.len()
}

/// Whether `v[at..]` begins with `p`.
pub fn same_at(v: &Vec<char>, at: usize, p: &Vec<char>) -> (r: bool)
    requires
        at <= v@.len(),
    ensures
        r == p@.is_prefix_of(v@.skip(at as int)),
        at == 0 && v@.len() == p@.len() ==> r == (v@ == p@),
{
    if p.len() > v.len() - at {
        return false;
    }
    let mut i: usize = 0;
    while i < p.len()
        invariant
            0 <= i <= p@.len() <= v@.len() - at,
            at <= v.len(),
            forall|j: int| 0 <= j < i ==> v@[at + j] == p@[j],
        decreases p@.len() - i,
    {
        if v[at + i] != p[i] {
            assert(v@.skip(at as int)[i as int] != p@[i as int]);
            return false;
        }
        i = i + 1;
    }
    assert(v@.skip(at as int).subrange(0, p@.len() as int) =~= p@);
    assert(at == 0 && v@.len() == p@.len() ==> v@ =~= p@);
    true
}

/// Whether `a` sorts before `b`.
pub fn sorts_before(a: &str, b: &str) -> (r: bool)
    ensures
        r == key_lt(a@, b@),
{
    let x = chars_of(a);
    let y = chars_of(b);
    let mut i: usize = 0;
    assert(x@.skip(0) =~= x@);
    assert(y@.skip(0) =~= y@);
    while i < x.len() && i < y.len()
        invariant
            0 <= i <= x@.len(),
            i <= y@.len(),
            key_lt(x@, y@) == key_lt(x@.skip(i as int), y@.skip(i as int)),
            x@ == a@,
            y@ == b@,
        decreases x@.len() - i,
    {
        let c: char = x[i];
        let d: char = y[i];
        assert(x@.skip(i as int)[0] == x@[i as int]);
        assert(y@.skip(i as int)[0] == y@[i as int]);
        assert(x@.skip(i as int).drop_first() =~= x@.skip(i + 1));
        assert(y@.skip(i as int).drop_first() =~= y@.skip(i + 1));
        if c != d {
            return c < d;
        }
        i = i + 1;
    }
    y.len() > i
}

// ---------------------------------------------------------------------------
// Numbers
// ---------------------------------------------------------------------------
/// The decimal digit of value `d`.
pub open spec fn digit(d: int) -> char {
    (48 + d) as char
}

/// `n` in decimal, without leading zeros.
pub open spec fn decimal(n: nat) -> Seq<char>
    decreases n,
{
    if n < 10 {
        seq![digit(n as int)]
    } else {
        decimal(n / 10).push(digit((n % 10) as int))
    }
}

/// A number below ten thousand has at most four digits.
pub proof fn lemma_decimal_len(n: nat)
    requires
        n < 10_000,
    ensures
        decimal(n).len() <= 4,
{
    reveal_with_fuel(decimal, 4);
}

/// `i` in decimal, with a minus sign when it is negative.
pub open spec fn signed_decimal(i: int) -> Seq<char> {
    if i < 0 {
        seq!['-'] + decimal((-i) as nat)
    } else {
        decimal(i as nat)
    }
}

/// `n` in decimal.
pub fn decimal_text(n: u64) -> (s: String)
    ensures
        s@ == decimal(n as nat),
    decreases n,
{
    let d: u8 = (n % 10) as u8;
    let c: char = (48u8 + d) as char;
    let mut s = if n < 10 {
        String::new()
    } else {
        decimal_text(n / 10)
    };
    s.push(c);
    assert(n < 10 ==> s@ =~= seq![c]);
    s
}

/// `i` in decimal.
pub fn signed_decimal_text(i: i64) -> (s: String)
    ensures
        s@ == signed_decimal(i as int),
{
    if i < 0 {
        let mut s = String::new();
        s.push('-');
        let magnitude: u64 = if i == i64::MIN {
            0x8000_0000_0000_0000u64
        } else {
            (0 - i) as u64
        };
        s.append(decimal_text(magnitude).as_str());
        assert(s@ =~= seq!['-'] + decimal((-i) as nat));
        s
    } else {
        decimal_text(i as u64)
    }
}

/// The value of `c` as a digit in `radix`.
pub open spec fn digit_value(c: char, radix: nat) -> Option<nat> {
    let n = c as int;
    let v = if 48 <= n <= 57 {
        n - 48
    } else if 97 <= n <= 122 {
        n - 87
    } else if 65 <= n <= 90 {
        n - 55
    } else {
        radix as int
    };
    if v < radix {
        Some(v as nat)
    } else {
        None
    }
}

/// The value of a run of digits; `None` where a character is no digit.
pub open spec fn digits_value(s: Seq<char>, radix: nat) -> Option<nat>
    decreases s.len(),
{
    if s.len() == 0 {
        Some(0)
    } else {
        match (digits_value(s.drop_last(), radix), digit_value(s.last(), radix)) {
            (Some(high), Some(low)) => Some(high * radix + low),
            _ => None,
        }
    }
}

/// An unsigned number as text: an optional plus sign, then one digit or more.
pub open spec fn number(s: Seq<char>, radix: nat) -> Option<nat> {
    let digits = if s.len() > 0 && s[0] == '+' {
        s.drop_first()
    } else {
        s
    };
    if digits.len() == 0 {
        None
    } else {
        digits_value(digits, radix)
    }
}

/// More digits do not make a number smaller, nor mend a wrong one.
proof fn lemma_digits_grow(s: Seq<char>, radix: nat, i: int)
    requires
        0 <= i <= s.len(),
        radix >= 1,
    ensures
        digits_value(s.take(i), radix) is None ==> digits_value(s, radix) is None,
        digits_value(s.take(i), radix) is Some && digits_value(s, radix) is Some ==> digits_value(
            s.take(i),
            radix,
        )->0 <= digits_value(s, radix)->0,
    decreases s.len() - i,
{
    if i == s.len() {
        assert(s.take(i) =~= s);
    } else {
        lemma_digits_grow(s, radix, i + 1);
        assert(s.take(i + 1).drop_last() =~= s.take(i));
        if digits_value(s.take(i), radix) is Some {
            let v = digits_value(s.take(i), radix)->0;
            assert(v * radix >= v) by (nonlinear_arith)
                requires
                    radix >= 1,
            ;
        }
    }
}

/// The number that `s` holds in decimal, when it fits.
pub open spec fn u64_of(s: Seq<char>) -> Option<nat> {
    if number(s, 10) is Some && number(s, 10)->0 <= u64::MAX {
        number(s, 10)
    } else {
        None
    }
}

/// The number that `s` holds in decimal, when it fits.
pub fn parse_u64(s: &str) -> (r: Option<u64>)
    ensures
        r is Some <==> u64_of(s@) is Some,
        r is Some ==> r->0 == u64_of(s@)->0,
{
    let x = chars_of(s);
    let from: usize = if x.len() > 0 && x[0] == '+' {
        1
    } else {
        0
    };
    let ghost digits = x@.skip(from as int);
    assert(digits =~= if s@.len() > 0 && s@[0] == '+' {
        s@.drop_first()
    } else {
        s@
    });
    if from == x.len() {
        return None;
    }
    let mut n: u64 = 0;
    let mut i: usize = from;
    assert(digits.take(0) =~= Seq::<char>::empty());
    while i < x.len()
        invariant
            from <= i <= x@.len(),
            digits == x@.skip(from as int),
            digits_value(digits.take(i - from), 10) == Some(n as nat),
            number(s@, 10) == digits_value(digits, 10),
        decreases x@.len() - i,
    {
        let c: char = x[i];
        let ghost k = i - from;
        assert(digits[k] == c);
        assert(digits.take(k + 1).drop_last() =~= digits.take(k));
        proof {
            lemma_digits_grow(digits, 10, k + 1);
        }
        if !('0' <= c && c <= '9') {
            return None;
        }
        let d: u64 = (c as u32 - 48) as u64;
        match n.checked_mul(10) {
            None => {
                return None;
            },
            Some(m) => {
                match m.checked_add(d) {
                    None => {
                        return None;
                    },
                    Some(t) => {
                        n = t;
                    },
                }
            },
        }
        i = i + 1;
    }
    assert(digits.take(digits.len() as int) =~= digits);
    Some(n)
}

// ---------------------------------------------------------------------------
// Pieces
// ---------------------------------------------------------------------------
/// The texts of a list of strings.
pub open spec fn texts(v: Seq<String>) -> Seq<Seq<char>> {
    v.map_values(|s: String| s@)
}

/// What follows `p` in `s`, when `s` begins with `p`.
pub open spec fn after_prefix(s: Seq<char>, p: Seq<char>) -> Option<Seq<char>> {
    if p.is_prefix_of(s) {
        Some(s.skip(p.len() as int))
    } else {
        None
    }
}

/// What precedes `p` in `s`, when `s` ends with `p`.
pub open spec fn before_suffix(s: Seq<char>, p: Seq<char>) -> Option<Seq<char>> {
    if p.is_suffix_of(s) {
        Some(s.take(s.len() - p.len()))
    } else {
        None
    }
}

/// `s` holds `p` somewhere.
pub open spec fn holds(s: Seq<char>, p: Seq<char>) -> bool {
    exists|i: int| 0 <= i <= s.len() && p.is_prefix_of(#[trigger] s.skip(i))
}

/// The pieces of `s` between the separators: one more than there are of them.
pub open spec fn pieces(s: Seq<char>, sep: char) -> Seq<Seq<char>>
    decreases s.len(),
{
    if s.len() == 0 {
        seq![Seq::<char>::empty()]
    } else {
        let before = pieces(s.drop_last(), sep);
        if s.last() == sep {
            before.push(Seq::<char>::empty())
        } else {
            before.drop_last().push(before.last().push(s.last()))
        }
    }
}

/// The list joined into one text, with `sep` between neighbours.
pub open spec fn joined(list: Seq<Seq<char>>, sep: Seq<char>) -> Seq<char>
    decreases list.len(),
{
    if list.len() == 0 {
        Seq::<char>::empty()
    } else if list.len() == 1 {
        list[0]
    } else {
        joined(list.drop_last(), sep) + sep + list.last()
    }
}

/// There is always a piece.
pub proof fn pieces_not_empty(s: Seq<char>, sep: char)
    ensures
        pieces(s, sep).len() > 0,
    decreases s.len(),
{
    if s.len() > 0 {
        pieces_not_empty(s.drop_last(), sep);
    }
}

/// Joining the pieces with the separator gives the text back.
pub proof fn joined_pieces(s: Seq<char>, sep: char)
    ensures
        joined(pieces(s, sep), seq![sep]) == s,
    decreases s.len(),
{
    if s.len() == 0 {
        assert(joined(pieces(s, sep), seq![sep]) =~= s);
    } else {
        let before = pieces(s.drop_last(), sep);
        let after = pieces(s, sep);
        joined_pieces(s.drop_last(), sep);
        pieces_not_empty(s.drop_last(), sep);
        if s.last() == sep {
            assert(after.drop_last() =~= before);
            assert(joined(after, seq![sep]) =~= s);
        } else {
            assert(after.drop_last() =~= before.drop_last());
            assert(after.last() == before.last().push(s.last()));
            if before.len() == 1 {
                assert(joined(after, seq![sep]) == after[0]);
            } else {
                assert(joined(after, seq![sep]) =~= joined(before, seq![sep]).push(s.last()));
            }
            assert(joined(after, seq![sep]) =~= s);
        }
    }
}

/// The pieces of `s` between the separators.
pub fn pieces_of(s: &str, sep: char) -> (v: Vec<String>)
    ensures
        texts(v@) == pieces(s@, sep),
{
    let x = chars_of(s);
    let mut out: Vec<String> = Vec::new();
    let mut cur = String::new();
    let mut i: usize = 0;
    assert(texts(out@).push(cur@) =~= pieces(x@.take(0), sep));
    while i < x.len()
        invariant
            0 <= i <= x@.len(),
            texts(out@).push(cur@) == pieces(x@.take(i as int), sep),
        decreases x@.len() - i,
    {
        let c: char = x[i];
        let ghost before = texts(out@).push(cur@);
        assert(x@.take(i + 1).drop_last() =~= x@.take(i as int));
        assert(x@.take(i + 1).last() == c);
        assert(before.drop_last() =~= texts(out@));
        if c == sep {
            out.push(cur);
            cur = String::new();
            assert(texts(out@) =~= before);
        } else {
            cur.push(c);
        }
        assert(texts(out@).push(cur@) =~= pieces(x@.take(i + 1), sep));
        i = i + 1;
    }
    assert(x@.take(x@.len() as int) =~= x@);
    let ghost before = texts(out@).push(cur@);
    out.push(cur);
    assert(texts(out@) =~= before);
    out
}

/// The list joined into one text, with `sep` between neighbours.
pub fn join(list: &Vec<String>, sep: &str) -> (s: String)
    ensures
        s@ == joined(texts(list@), sep@),
{
    let mut s = String::new();
    let mut i: usize = 0;
    while i < list.len()
        invariant
            0 <= i <= list@.len(),
            s@ == joined(texts(list@).take(i as int), sep@),
        decreases list@.len() - i,
    {
        if i > 0 {
            s.append(sep);
        }
        s.append(list[i].as_str());
        assert(texts(list@).take(i + 1).drop_last() =~= texts(list@).take(i as int));
        assert(s@ =~= joined(texts(list@).take(i + 1), sep@));
        i = i + 1;
    }
    assert(texts(list@).take(list@.len() as int) =~= texts(list@));
    s
}

/// Whether `s` begins with `p`.
pub fn begins_with(s: &str, p: &str) -> (r: bool)
    ensures
        r == p@.is_prefix_of(s@),
{
    let x = chars_of(s);
    let y = chars_of(p);
    assert(x@.skip(0) =~= x@);
    same_at(&x, 0, &y)
}

/// Whether `s` ends with the character `c`.
pub fn ends_with_char(s: &str, c: char) -> (r: bool)
    ensures
        r == (s@.len() > 0 && s@.last() == c),
{
    let x = chars_of(s);
    x.len() > 0 && x[x.len() - 1] == c
}

/// What follows `p` in `s`, when `s` begins with `p`.
pub fn strip_prefix(s: &str, p: &str) -> (r: Option<String>)
    ensures
        r is Some <==> after_prefix(s@, p@) is Some,
        r is Some ==> r->0@ == after_prefix(s@, p@)->0,
{
    let x = chars_of(s);
    let y = chars_of(p);
    assert(x@.skip(0) =~= x@);
    if same_at(&x, 0, &y) {
        Some(text_of(&x, y.len(), x.len()))
    } else {
        None
    }
}

/// What precedes `p` in `s`, when `s` ends with `p`.
pub fn strip_suffix(s: &str, p: &str) -> (r: Option<String>)
    ensures
        r is Some <==> before_suffix(s@, p@) is Some,
        r is Some ==> r->0@ == before_suffix(s@, p@)->0,
{
    let x = chars_of(s);
    let y = chars_of(p);
    if y.len() > x.len() {
        return None;
    }
    let at: usize = x.len() - y.len();
    if same_at(&x, at, &y) {
        assert(x@.skip(at as int).subrange(0, y@.len() as int) =~= x@.skip(at as int));
        assert(x@.subrange(x@.len() - y@.len(), x@.len() as int) =~= x@.skip(at as int));
        Some(text_of(&x, 0, at))
    } else {
        assert(y@.is_suffix_of(x@) ==> {
            let tail = x@.skip(at as int);
            tail =~= y@ && y@.is_prefix_of(tail)
        });
        None
    }
}

/// Whether `s` holds `p` somewhere.
pub fn holds_text(s: &str, p: &str) -> (r: bool)
    ensures
        r == holds(s@, p@),
{
    let x = chars_of(s);
    let y = chars_of(p);
    let mut i: usize = 0;
    while i < x.len()
        invariant
            0 <= i <= x@.len(),
            x@ == s@,
            y@ == p@,
            forall|j: int| 0 <= j < i ==> !y@.is_prefix_of(#[trigger] x@.skip(j)),
        decreases x@.len() - i,
    {
        if same_at(&x, i, &y) {
            return true;
        }
        i = i + 1;
    }
    same_at(&x, i, &y)
}

// ---------------------------------------------------------------------------
// White space
// ---------------------------------------------------------------------------
/// The characters to which Unicode gives the `White_Space` property.
pub open spec fn is_white_space(c: char) -> bool {
    let n = c as int;
    ||| 0x9 <= n <= 0xd
    ||| n == 0x20
    ||| n == 0x85
    ||| n == 0xa0
    ||| n == 0x1680
    ||| 0x2000 <= n <= 0x200a
    ||| n == 0x2028
    ||| n == 0x2029
    ||| n == 0x202f
    ||| n == 0x205f
    ||| n == 0x3000
}

/// Whether Unicode gives the character the `White_Space` property.
pub fn white_space(c: char) -> (r: bool)
    ensures
        r == is_white_space(c),
{
    let n: u32 = c as u32;
    (0x9 <= n && n <= 0xd) || n == 0x20 || n == 0x85 || n == 0xa0 || n == 0x1680 || (0x2000 <= n
        && n <= 0x200a) || n == 0x2028 || n == 0x2029 || n == 0x202f || n == 0x205f || n == 0x3000
}

/// `s` without the white space at its start.
pub open spec fn trimmed_start(s: Seq<char>) -> Seq<char>
    decreases s.len(),
{
    if s.len() > 0 && is_white_space(s[0]) {
        trimmed_start(s.drop_first())
    } else {
        s
    }
}

/// `s` without the white space at its end.
pub open spec fn trimmed_end(s: Seq<char>) -> Seq<char>
    decreases s.len(),
{
    if s.len() > 0 && is_white_space(s.last()) {
        trimmed_end(s.drop_last())
    } else {
        s
    }
}

/// `s` without the white space at its two ends.
pub open spec fn trimmed(s: Seq<char>) -> Seq<char> {
    trimmed_end(trimmed_start(s))
}

/// `s` without the white space at its two ends.
pub fn trim(s: &str) -> (r: String)
    ensures
        r@ == trimmed(s@),
{
    let x = chars_of(s);
    let mut from: usize = 0;
    assert(x@.skip(0) =~= x@);
    while from < x.len() && white_space(x[from])
        invariant
            0 <= from <= x@.len(),
            trimmed_start(x@) == trimmed_start(x@.skip(from as int)),
        decreases x@.len() - from,
    {
        assert(x@.skip(from as int).drop_first() =~= x@.skip(from + 1));
        from = from + 1;
    }
    let mut to: usize = x.len();
    assert(x@.subrange(from as int, to as int) =~= x@.skip(from as int));
    while to > from && white_space(x[to - 1])
        invariant
            from <= to <= x@.len(),
            trimmed(x@) == trimmed_end(x@.subrange(from as int, to as int)),
        decreases to,
    {
        assert(x@.subrange(from as int, to as int).drop_last() =~= x@.subrange(
            from as int,
            to - 1,
        ));
        to = to - 1;
    }
    text_of(&x, from, to)
}

// ---------------------------------------------------------------------------
// Quotes
// ---------------------------------------------------------------------------
/// What `format!("{:?}")` makes of a text: quoted, with what needs it escaped.
pub uninterp spec fn quoted(s: Seq<char>) -> Seq<char>;

/// Calls `format!` with `{:?}` on a `str`. The escapes of its `Debug` output
/// are named, not described.
#[verifier::external_body]
pub(crate) fn quote(s: &str) -> (r: String)
    ensures
        r@ == quoted(s@),
{
    format!("{s:?}")
}

// ---------------------------------------------------------------------------
// Laws
// ---------------------------------------------------------------------------
/// Keys sort by the first character that differs; where one ends first, it
/// sorts first.
pub proof fn keys_sort_by_the_first_difference(a: Seq<char>, b: Seq<char>, i: int)
    requires
        0 <= i <= a.len(),
        i <= b.len(),
        forall|j: int| 0 <= j < i ==> a[j] == b[j],
    ensures
        i < a.len() && i < b.len() && a[i] != b[i] ==> (key_lt(a, b) <==> (a[i] as int) < (
        b[i] as int)),
        i == a.len() ==> (key_lt(a, b) <==> i < b.len()),
        i == b.len() ==> !key_lt(a, b),
    decreases i,
{
    if i > 0 {
        assert(a[0] == b[0]);
        assert forall|j: int| 0 <= j < i - 1 implies a.drop_first()[j] == b.drop_first()[j] by {
            assert(a[j + 1] == b[j + 1]);
        }
        keys_sort_by_the_first_difference(a.drop_first(), b.drop_first(), i - 1);
    }
}

/// A digit more at the end makes ten times the number and the digit; the
/// digits are those from `0` on.
pub proof fn decimals_grow_by_a_digit(n: nat, d: nat)
    requires
        d < 10,
    ensures
        decimal(d).len() == 1,
        decimal(d)[0] as int == '0' as int + d,
        n > 0 ==> decimal(10 * n + d).len() == decimal(n).len() + 1,
        n > 0 ==> decimal(10 * n + d).drop_last() == decimal(n),
        n > 0 ==> decimal(10 * n + d).last() as int == '0' as int + d,
{
    if n > 0 {
        assert((10 * n + d) / 10 == n);
        assert((10 * n + d) % 10 == d);
        assert(decimal(10 * n + d).drop_last() =~= decimal(n));
    }
}

/// What is written in decimal is read back as the number, and begins with a
/// zero only where it is one.
pub proof fn decimals_are_read_back(n: nat)
    ensures
        number(decimal(n), 10) == Some(n),
        decimal(n).len() > 0,
        n > 0 ==> decimal(n)[0] != '0',
        forall|i: int| 0 <= i < decimal(n).len() ==> '0' <= #[trigger] decimal(n)[i] <= '9',
    decreases n,
{
    let s = decimal(n);
    if n >= 10 {
        decimals_are_read_back(n / 10);
        decimals_grow_by_a_digit(n / 10, n % 10);
        assert(s.drop_last() =~= decimal(n / 10));
        assert(decimal(n / 10)[0] == s[0]);
    } else {
        decimals_grow_by_a_digit(0, n);
        assert(s.drop_last() =~= Seq::empty());
        assert(digits_value(s.drop_last(), 10) == Some(0nat));
    }
}

/// `s` without a plus sign at its start.
pub open spec fn without_plus(s: Seq<char>) -> Seq<char> {
    if s.len() > 0 && s[0] == '+' {
        s.skip(1)
    } else {
        s
    }
}

/// What is a number: after a plus sign or none, one decimal digit or more.
/// Each digit counts ten times what follows it.
pub proof fn numbers_are_runs_of_digits(s: Seq<char>)
    ensures
        number(s, 10) is Some <==> without_plus(s).len() > 0 && forall|i: int|
            0 <= i < without_plus(s).len() ==> '0' <= #[trigger] without_plus(s)[i] <= '9',
        s.len() == 1 && number(s, 10) is Some ==> number(s, 10)->0 == s[0] as int - '0' as int,
        s.len() == 2 && s[0] == '+' && number(s, 10) is Some ==> number(s, 10)->0 == s[1] as int
            - '0' as int,
        s.len() > 1 && number(s.drop_last(), 10) is Some && number(s, 10) is Some ==> number(
            s,
            10,
        )->0 == 10 * number(s.drop_last(), 10)->0 + (s.last() as int - '0' as int),
{
    let digits = without_plus(s);
    reveal_with_fuel(digits_value, 2);
    assert(s.len() > 0 ==> s.drop_first() =~= s.skip(1));
    lemma_digits_are_some(digits);
    assert(number(s, 10) == if digits.len() == 0 {
        None
    } else {
        digits_value(digits, 10)
    });
    if s.len() > 1 && s[0] == '+' {
        assert(s.drop_last().drop_first() =~= digits.drop_last());
        assert(digits.last() == s.last());
    }
    if digits.len() == 1 {
        assert(digits.drop_last() =~= Seq::empty());
    }
}

/// A run of characters has a value exactly when all of them are digits.
proof fn lemma_digits_are_some(s: Seq<char>)
    ensures
        digits_value(s, 10) is Some <==> forall|i: int|
            0 <= i < s.len() ==> '0' <= #[trigger] s[i] <= '9',
    decreases s.len(),
{
    if s.len() > 0 {
        let front = s.drop_last();
        lemma_digits_are_some(front);
        assert(s[s.len() - 1] == s.last());
        if digits_value(s, 10) is Some {
            assert forall|i: int| 0 <= i < s.len() implies '0' <= #[trigger] s[i] <= '9' by {
                if i < front.len() {
                    assert(front[i] == s[i]);
                }
            }
        }
        if forall|i: int| 0 <= i < s.len() ==> '0' <= #[trigger] s[i] <= '9' {
            assert forall|i: int| 0 <= i < front.len() implies '0' <= #[trigger] front[i] <= '9' by {
                assert(s[i] == front[i]);
            }
        }
    }
}

/// A negative number is written as a minus sign and its magnitude, any other
/// without a sign.
pub proof fn signs_are_written(n: nat)
    ensures
        signed_decimal(n as int) == decimal(n),
        n > 0 ==> signed_decimal(-(n as int)).len() == decimal(n).len() + 1,
        n > 0 ==> signed_decimal(-(n as int))[0] == '-',
        n > 0 ==> signed_decimal(-(n as int)).skip(1) == decimal(n),
{
    if n > 0 {
        assert(signed_decimal(-(n as int)).skip(1) =~= decimal(n));
    }
}

/// A text in two parts is split where the first ends, or before the second.
pub proof fn parts_are_taken_off(a: Seq<char>, b: Seq<char>)
    ensures
        after_prefix(a + b, a) == Some(b),
        before_suffix(a + b, b) == Some(a),
{
    let s = a + b;
    assert(s.subrange(0, a.len() as int) =~= a);
    assert(s.skip(a.len() as int) =~= b);
    assert(s.subrange(s.len() - b.len(), s.len() as int) =~= b);
    assert(s.take(s.len() - b.len()) =~= a);
}

/// What is taken off a text was part of it.
pub proof fn what_is_taken_off_was_there(s: Seq<char>, p: Seq<char>)
    ensures
        after_prefix(s, p) is Some ==> s == p + after_prefix(s, p)->0,
        before_suffix(s, p) is Some ==> s == before_suffix(s, p)->0 + p,
{
    if after_prefix(s, p) is Some {
        assert(s.subrange(0, p.len() as int) == p);
        assert(s =~= p + after_prefix(s, p)->0);
    }
    if before_suffix(s, p) is Some {
        assert(s.subrange(s.len() - p.len(), s.len() as int) == p);
        assert(s =~= before_suffix(s, p)->0 + p);
    }
}

/// A text holds what stands inside it, and nothing else.
pub proof fn texts_hold_what_is_inside(s: Seq<char>, p: Seq<char>, a: Seq<char>, b: Seq<char>)
    ensures
        s == a + p + b ==> holds(s, p),
        holds(s, p) ==> exists|i: int|
            0 <= i && i + p.len() <= s.len() && #[trigger] s.subrange(i, i + p.len()) == p,
{
    if s == a + p + b {
        assert(s.skip(a.len() as int).subrange(0, p.len() as int) =~= p);
    }
    if holds(s, p) {
        let i = choose|i: int| 0 <= i <= s.len() && p.is_prefix_of(#[trigger] s.skip(i));
        assert(s.skip(i).subrange(0, p.len() as int) == p);
        assert(s.subrange(i, i + p.len()) =~= p);
    }
}

/// No piece holds the separator.
pub proof fn pieces_hold_no_separator(s: Seq<char>, sep: char)
    ensures
        forall|i: int| 0 <= i < pieces(s, sep).len() ==> !(#[trigger] pieces(s, sep)[i]).contains(sep),
    decreases s.len(),
{
    if s.len() > 0 {
        let before = pieces(s.drop_last(), sep);
        let all = pieces(s, sep);
        pieces_hold_no_separator(s.drop_last(), sep);
        pieces_not_empty(s.drop_last(), sep);
        assert forall|i: int| 0 <= i < all.len() implies !(#[trigger] all[i]).contains(sep) by {
            if s.last() != sep && i == all.len() - 1 {
                assert(all[i] == before.last().push(s.last()));
                assert(!before[before.len() - 1].contains(sep));
                if all[i].contains(sep) {
                    let k = choose|k: int| 0 <= k < all[i].len() && all[i][k] == sep;
                    assert(before.last()[k] == sep);
                }
            } else if i < before.len() {
                assert(all[i] == before[i]);
            }
        }
    } else {
        assert forall|i: int| 0 <= i < pieces(s, sep).len() implies !(#[trigger] pieces(
            s,
            sep,
        )[i]).contains(sep) by {}
    }
}

/// What follows without a separator is part of the last piece.
proof fn lemma_pieces_extend(a: Seq<char>, b: Seq<char>, sep: char)
    requires
        !b.contains(sep),
    ensures
        pieces(a + b, sep) == pieces(a, sep).drop_last().push(pieces(a, sep).last() + b),
    decreases b.len(),
{
    pieces_not_empty(a, sep);
    let before = pieces(a, sep);
    if b.len() == 0 {
        assert(a + b =~= a);
        assert(before.last() + b =~= before.last());
        assert(before.drop_last().push(before.last()) =~= before);
    } else {
        let front = b.drop_last();
        assert forall|k: int| 0 <= k < front.len() implies front[k] != sep by {
            assert(b[k] != sep);
        }
        lemma_pieces_extend(a, front, sep);
        assert((a + b).drop_last() =~= a + front);
        assert(b[b.len() - 1] != sep);
        assert((before.last() + front).push(b.last()) =~= before.last() + b);
        assert(pieces(a + b, sep) =~= before.drop_last().push(before.last() + b));
    }
}

/// Splitting what was joined gives the list back: texts that do not hold the
/// separator are the pieces of what they are joined into.
pub proof fn joined_texts_are_split(list: Seq<Seq<char>>, sep: char)
    requires
        list.len() > 0,
        forall|i: int| 0 <= i < list.len() ==> !(#[trigger] list[i]).contains(sep),
    ensures
        pieces(joined(list, seq![sep]), sep) == list,
    decreases list.len(),
{
    let last = list.last();
    assert(list[list.len() - 1] == last);
    if list.len() == 1 {
        lemma_pieces_extend(Seq::empty(), last, sep);
        assert(Seq::<char>::empty() + last =~= last);
        assert(pieces(last, sep) =~= list);
    } else {
        let front = list.drop_last();
        assert forall|i: int| 0 <= i < front.len() implies !(#[trigger] front[i]).contains(sep) by {
            assert(list[i] == front[i]);
        }
        joined_texts_are_split(front, sep);
        let head = joined(front, seq![sep]) + seq![sep];
        assert(head.drop_last() =~= joined(front, seq![sep]));
        assert(pieces(head, sep) == front.push(Seq::<char>::empty()));
        lemma_pieces_extend(head, last, sep);
        assert(Seq::<char>::empty() + last =~= last);
        assert(pieces(head, sep).drop_last() =~= front);
        assert(pieces(joined(list, seq![sep]), sep) =~= list);
    }
}

/// One more text is joined on with the separator before it, the first without.
pub proof fn texts_are_joined_in_order(list: Seq<Seq<char>>, more: Seq<char>, sep: Seq<char>)
    ensures
        joined(Seq::empty(), sep) == Seq::<char>::empty(),
        joined(seq![more], sep) == more,
        list.len() > 0 ==> joined(list.push(more), sep) == joined(list, sep) + sep + more,
{
    assert(list.push(more).drop_last() =~= list);
}

/// Trimming takes white space off the two ends, all of it and nothing else.
pub proof fn trimming_takes_the_white_space(s: Seq<char>)
    ensures
        exists|a: int, b: int|
            0 <= a <= b <= s.len() && trimmed(s) == #[trigger] s.subrange(a, b) && (forall|i: int|
                0 <= i < a ==> is_white_space(#[trigger] s[i])) && (forall|i: int|
                b <= i < s.len() ==> is_white_space(#[trigger] s[i])),
        trimmed(s).len() > 0 ==> !is_white_space(trimmed(s)[0]) && !is_white_space(
            trimmed(s).last(),
        ),
{
    let a = lemma_trim_start(s);
    let t = trimmed_start(s);
    let n = lemma_trim_end(t);
    let b = a + n;
    assert(t =~= s.skip(a));
    assert(trimmed(s) =~= s.subrange(a, b));
    assert forall|i: int| b <= i < s.len() implies is_white_space(#[trigger] s[i]) by {
        assert(t[i - a] == s[i]);
    }
}

/// How much white space a text begins with.
proof fn lemma_trim_start(s: Seq<char>) -> (a: int)
    ensures
        0 <= a <= s.len(),
        trimmed_start(s) == s.skip(a),
        forall|i: int| 0 <= i < a ==> is_white_space(#[trigger] s[i]),
        a < s.len() ==> !is_white_space(s[a]),
    decreases s.len(),
{
    if s.len() > 0 && is_white_space(s[0]) {
        let rest = s.drop_first();
        let n = lemma_trim_start(rest);
        assert(rest.skip(n) =~= s.skip(n + 1));
        assert forall|i: int| 0 <= i < n + 1 implies is_white_space(#[trigger] s[i]) by {
            if i > 0 {
                assert(rest[i - 1] == s[i]);
            }
        }
        assert(n < rest.len() ==> rest[n] == s[n + 1]);
        n + 1
    } else {
        assert(s.skip(0) =~= s);
        0
    }
}

/// Where the white space begins that a text ends with.
proof fn lemma_trim_end(s: Seq<char>) -> (b: int)
    ensures
        0 <= b <= s.len(),
        trimmed_end(s) == s.take(b),
        forall|i: int| b <= i < s.len() ==> is_white_space(#[trigger] s[i]),
        b > 0 ==> !is_white_space(s[b - 1]),
    decreases s.len(),
{
    if s.len() > 0 && is_white_space(s.last()) {
        let front = s.drop_last();
        let n = lemma_trim_end(front);
        assert(front.take(n) =~= s.take(n));
        assert forall|i: int| n <= i < s.len() implies is_white_space(#[trigger] s[i]) by {
            if i < front.len() {
                assert(front[i] == s[i]);
            }
        }
        n
    } else {
        assert(s.take(s.len() as int) =~= s);
        s.len() as int
    }
}

/// White space around a text that begins and ends otherwise is what trimming
/// takes.
pub proof fn trimming_leaves_the_core(a: Seq<char>, core: Seq<char>, b: Seq<char>)
    requires
        forall|i: int| 0 <= i < a.len() ==> is_white_space(#[trigger] a[i]),
        forall|i: int| 0 <= i < b.len() ==> is_white_space(#[trigger] b[i]),
        core.len() > 0,
        !is_white_space(core[0]),
        !is_white_space(core.last()),
    ensures
        trimmed(a + core + b) == core,
    decreases a.len() + b.len(),
{
    let s = a + core + b;
    if a.len() > 0 {
        assert(s[0] == a[0]);
        assert forall|i: int| 0 <= i < a.drop_first().len() implies is_white_space(
            #[trigger] a.drop_first()[i],
        ) by {
            assert(is_white_space(a[i + 1]));
        }
        trimming_leaves_the_core(a.drop_first(), core, b);
        assert(s.drop_first() =~= a.drop_first() + core + b);
    } else {
        assert(s =~= core + b);
        assert(s[0] == core[0]);
        assert(trimmed_start(s) == s);
        lemma_trim_tail(core, b);
    }
}

/// White space after a text that ends otherwise is what trimming its end takes.
proof fn lemma_trim_tail(core: Seq<char>, b: Seq<char>)
    requires
        forall|i: int| 0 <= i < b.len() ==> is_white_space(#[trigger] b[i]),
        core.len() > 0,
        !is_white_space(core.last()),
    ensures
        trimmed_end(core + b) == core,
    decreases b.len(),
{
    let s = core + b;
    if b.len() > 0 {
        assert(s.last() == b[b.len() - 1]);
        assert forall|i: int| 0 <= i < b.drop_last().len() implies is_white_space(
            #[trigger] b.drop_last()[i],
        ) by {
            assert(is_white_space(b[i]));
        }
        lemma_trim_tail(core, b.drop_last());
        assert(s.drop_last() =~= core + b.drop_last());
    } else {
        assert(s =~= core);
    }
}

/// What precedes the first separator is the first piece.
pub proof fn the_first_piece_ends_at_the_separator(a: Seq<char>, sep: char, b: Seq<char>)
    requires
        !a.contains(sep),
    ensures
        pieces(a, sep) == seq![a],
        pieces(a + seq![sep] + b, sep).len() >= 2,
        pieces(a + seq![sep] + b, sep)[0] == a,
    decreases b.len(),
{
    lemma_pieces_extend(Seq::empty(), a, sep);
    assert(Seq::<char>::empty() + a =~= a);
    assert(pieces(a, sep) =~= seq![a]);
    let s = a + seq![sep] + b;
    if b.len() == 0 {
        assert(s.drop_last() =~= a);
        assert(s.last() == sep);
    } else {
        the_first_piece_ends_at_the_separator(a, sep, b.drop_last());
        assert(s.drop_last() =~= a + seq![sep] + b.drop_last());
    }
}

/// The value of a hexadecimal digit.
pub open spec fn hex_value(c: char) -> Option<nat> {
    if '0' <= c <= '9' {
        Some((c as int - '0' as int) as nat)
    } else if 'a' <= c <= 'f' {
        Some((10 + c as int - 'a' as int) as nat)
    } else if 'A' <= c <= 'F' {
        Some((10 + c as int - 'A' as int) as nat)
    } else {
        None
    }
}

/// The digits of a hexadecimal number are `0` to `9` and the letters `a` to
/// `f`, small or large; of a decimal one only the first ten. None of them is
/// white space or a plus sign.
pub proof fn hexadecimal_digits_count(c: char)
    ensures
        digit_value(c, 16) == hex_value(c),
        digit_value(c, 10) is Some <==> '0' <= c <= '9',
        digit_value(c, 10) is Some ==> digit_value(c, 10) == hex_value(c),
        hex_value(c) is Some ==> !is_white_space(c) && c != '+',
{
}

/// What is a hexadecimal number: after a plus sign or none, one hexadecimal
/// digit or more. Each digit counts sixteen times what follows it.
pub proof fn hexadecimal_numbers_are_runs_of_digits(s: Seq<char>)
    ensures
        number(s, 16) is Some <==> without_plus(s).len() > 0 && forall|i: int|
            0 <= i < without_plus(s).len() ==> hex_value(#[trigger] without_plus(s)[i]) is Some,
        s.len() == 1 && number(s, 16) is Some ==> number(s, 16) == hex_value(s[0]),
        s.len() == 2 && s[0] == '+' && number(s, 16) is Some ==> number(s, 16) == hex_value(s[1]),
        s.len() > 1 && number(s.drop_last(), 16) is Some && number(s, 16) is Some ==> number(
            s,
            16,
        )->0 == 16 * number(s.drop_last(), 16)->0 + hex_value(s.last())->0,
{
    let digits = without_plus(s);
    reveal_with_fuel(digits_value, 2);
    assert(s.len() > 0 ==> s.drop_first() =~= s.skip(1));
    lemma_hex_digits_are_some(digits);
    assert(number(s, 16) == if digits.len() == 0 {
        None
    } else {
        digits_value(digits, 16)
    });
    if s.len() > 1 && s[0] == '+' {
        assert(s.drop_last().drop_first() =~= digits.drop_last());
        assert(digits.last() == s.last());
    }
    if digits.len() == 1 {
        assert(digits.drop_last() =~= Seq::empty());
    }
    if s.len() > 0 {
        hexadecimal_digits_count(s.last());
        hexadecimal_digits_count(s[0]);
    }
}

/// A run of characters has a hexadecimal value exactly when all of them are
/// hexadecimal digits.
proof fn lemma_hex_digits_are_some(s: Seq<char>)
    ensures
        digits_value(s, 16) is Some <==> forall|i: int|
            0 <= i < s.len() ==> hex_value(#[trigger] s[i]) is Some,
    decreases s.len(),
{
    if s.len() > 0 {
        let front = s.drop_last();
        lemma_hex_digits_are_some(front);
        assert(s[s.len() - 1] == s.last());
        hexadecimal_digits_count(s.last());
        if digits_value(s, 16) is Some {
            assert forall|i: int| 0 <= i < s.len() implies hex_value(#[trigger] s[i]) is Some by {
                if i < front.len() {
                    assert(front[i] == s[i]);
                }
            }
        }
        if forall|i: int| 0 <= i < s.len() ==> hex_value(#[trigger] s[i]) is Some {
            assert forall|i: int| 0 <= i < front.len() implies hex_value(
                #[trigger] front[i],
            ) is Some by {
                assert(s[i] == front[i]);
            }
        }
    }
}

/// A number that fits is read back from its digits, with a plus sign or
/// without; a larger one is not read, and nothing but a number is.
pub proof fn numbers_that_fit_are_read(n: nat, s: Seq<char>)
    ensures
        n <= 0xffff_ffff_ffff_ffff ==> u64_of(decimal(n)) == Some(n),
        n <= 0xffff_ffff_ffff_ffff ==> u64_of(seq!['+'] + decimal(n)) == Some(n),
        n > 0xffff_ffff_ffff_ffff ==> u64_of(decimal(n)) is None,
        u64_of(s) is Some ==> u64_of(s)->0 <= 0xffff_ffff_ffff_ffff && u64_of(s) == number(s, 10),
        number(s, 10) is None ==> u64_of(s) is None,
{
    decimals_are_read_back(n);
    assert('0' <= decimal(n)[0] <= '9');
    assert((seq!['+'] + decimal(n)).drop_first() =~= decimal(n));
}

/// The texts of a list are those of its strings, one for one.
pub proof fn texts_are_the_strings(v: Seq<String>, i: int)
    ensures
        texts(v).len() == v.len(),
        0 <= i < v.len() ==> texts(v)[i] == v[i]@,
{
}

} // verus!
