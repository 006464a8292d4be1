//! The order of keys is the order of their bytes.
use vstd::prelude::*;
use vstd::utf8;
use crate::text;

verus! {

/// The order of byte strings: by the first byte that differs, a proper prefix
/// first.
pub open spec fn bytes_lt(a: Seq<u8>, b: Seq<u8>) -> bool
    decreases a.len(),
{
    if b.len() == 0 {
        false
    } else if a.len() == 0 {
        true
    } else if a[0] != b[0] {
        a[0] < b[0]
    } else {
        bytes_lt(a.drop_first(), b.drop_first())
    }
}

/// The strings agree before `p` and the first is smaller there.
spec fn smaller_at(a: Seq<u8>, b: Seq<u8>, p: int) -> bool {
    &&& 0 <= p < a.len()
    &&& p < b.len()
    &&& forall|i: int| 0 <= i < p ==> a[i] == b[i]
    &&& a[p] < b[p]
}

/// The first difference decides, whatever follows.
proof fn lemma_decided(a: Seq<u8>, b: Seq<u8>, p: int, s: Seq<u8>, t: Seq<u8>)
    requires
        smaller_at(a, b, p),
    ensures
        bytes_lt(a + s, b + t),
        !bytes_lt(b + t, a + s),
    decreases a.len(),
{
    let x = a + s;
    let y = b + t;
    assert(x[0] == a[0] && y[0] == b[0]);
    if p > 0 {
        let c = a.drop_first();
        let d = b.drop_first();
        assert(a[0] == b[0]);
        assert forall|i: int| 0 <= i < p - 1 implies c[i] == d[i] by {
            assert(a[i + 1] == b[i + 1]);
        }
        lemma_decided(c, d, p - 1, s, t);
        assert(x.drop_first() =~= c + s);
        assert(y.drop_first() =~= d + t);
    }
}

/// A common start does not matter.
proof fn lemma_common(e: Seq<u8>, s: Seq<u8>, t: Seq<u8>)
    ensures
        bytes_lt(e + s, e + t) == bytes_lt(s, t),
    decreases e.len(),
{
    if e.len() == 0 {
        assert(e + s =~= s);
        assert(e + t =~= t);
    } else {
        let rest = e.drop_first();
        lemma_common(rest, s, t);
        assert((e + s).drop_first() =~= rest + s);
        assert((e + t).drop_first() =~= rest + t);
        assert((e + s)[0] == e[0] && (e + t)[0] == e[0]);
    }
}

/// The leading byte tells the width, and wider encodings have larger ones.
proof fn lemma_leading(x: u32)
    by (bit_vector)
    ensures
        utf8::has_width_1_encoding(x) ==> utf8::leading_byte_width_1(x) < 0x80,
        utf8::has_width_2_encoding(x) ==> 0xC0 <= utf8::leading_byte_width_2(x) < 0xE0,
        utf8::has_width_3_encoding(x) ==> 0xE0 <= utf8::leading_byte_width_3(x) < 0xF0,
        utf8::has_width_4_encoding(x) ==> 0xF0 <= utf8::leading_byte_width_4(x),
{
}

/// Among encodings of one byte, the larger scalar has the larger byte.
proof fn lemma_width_1(x: u32, y: u32)
    by (bit_vector)
    requires
        utf8::has_width_1_encoding(x),
        utf8::has_width_1_encoding(y),
        x < y,
    ensures
        utf8::leading_byte_width_1(x) < utf8::leading_byte_width_1(y),
{
}

/// Among encodings of two bytes, the first that differs is larger in the
/// larger scalar.
proof fn lemma_width_2(x: u32, y: u32)
    by (bit_vector)
    requires
        utf8::has_width_2_encoding(x),
        utf8::has_width_2_encoding(y),
        x < y,
    ensures
        utf8::leading_byte_width_2(x) < utf8::leading_byte_width_2(y) || (
        utf8::leading_byte_width_2(x) == utf8::leading_byte_width_2(y)
            && utf8::last_continuation_byte(x) < utf8::last_continuation_byte(y)),
{
}

/// Among encodings of three bytes, the first that differs is larger in the
/// larger scalar.
proof fn lemma_width_3(x: u32, y: u32)
    by (bit_vector)
    requires
        utf8::has_width_3_encoding(x),
        utf8::has_width_3_encoding(y),
        x < y,
    ensures
        utf8::leading_byte_width_3(x) < utf8::leading_byte_width_3(y) || (
        utf8::leading_byte_width_3(x) == utf8::leading_byte_width_3(y) && (
        utf8::second_last_continuation_byte(x) < utf8::second_last_continuation_byte(y) || (
        utf8::second_last_continuation_byte(x) == utf8::second_last_continuation_byte(y)
            && utf8::last_continuation_byte(x) < utf8::last_continuation_byte(y)))),
{
}

/// Among encodings of four bytes, the first that differs is larger in the
/// larger scalar.
proof fn lemma_width_4(x: u32, y: u32)
    by (bit_vector)
    requires
        utf8::has_width_4_encoding(x),
        utf8::has_width_4_encoding(y),
        x < y,
    ensures
        utf8::leading_byte_width_4(x) < utf8::leading_byte_width_4(y) || (
        utf8::leading_byte_width_4(x) == utf8::leading_byte_width_4(y) && (
        utf8::third_last_continuation_byte(x) < utf8::third_last_continuation_byte(y) || (
        utf8::third_last_continuation_byte(x) == utf8::third_last_continuation_byte(y) && (
        utf8::second_last_continuation_byte(x) < utf8::second_last_continuation_byte(y) || (
        utf8::second_last_continuation_byte(x) == utf8::second_last_continuation_byte(y)
            && utf8::last_continuation_byte(x) < utf8::last_continuation_byte(y)))))),
{
}

/// The encoding of a larger scalar is larger, at a byte that both have.
proof fn lemma_scalars(x: u32, y: u32)
    requires
        utf8::is_scalar(x),
        utf8::is_scalar(y),
        x < y,
    ensures
        exists|p: int| smaller_at(utf8::encode_scalar(x), utf8::encode_scalar(y), p),
{
    let a = utf8::encode_scalar(x);
    let b = utf8::encode_scalar(y);
    lemma_leading(x);
    lemma_leading(y);
    if utf8::has_width_1_encoding(x) && utf8::has_width_1_encoding(y) {
        lemma_width_1(x, y);
    } else if utf8::has_width_2_encoding(x) && utf8::has_width_2_encoding(y) {
        lemma_width_2(x, y);
    } else if utf8::has_width_3_encoding(x) && utf8::has_width_3_encoding(y) {
        lemma_width_3(x, y);
    } else if utf8::has_width_4_encoding(x) && utf8::has_width_4_encoding(y) {
        lemma_width_4(x, y);
    }
    assert(a.len() > 0 && b.len() > 0);
    if a[0] < b[0] {
        assert(smaller_at(a, b, 0));
    } else if a[1] < b[1] {
        assert(smaller_at(a, b, 1));
    } else if a[2] < b[2] {
        assert(smaller_at(a, b, 2));
    } else {
        assert(smaller_at(a, b, 3));
    }
}

/// A character's number is its scalar.
proof fn lemma_scalar_of(c: char)
    ensures
        (c as u32) as int == c as int,
        utf8::is_scalar(c as u32),
{
}

/// Keys sort by their characters exactly as their UTF-8 bytes sort, which is
/// how S3 orders a listing.
pub proof fn key_order_is_byte_order(a: Seq<char>, b: Seq<char>)
    ensures
        text::key_lt(a, b) <==> bytes_lt(utf8::encode_utf8(a), utf8::encode_utf8(b)),
    decreases a.len(),
{
    if b.len() > 0 {
        lemma_scalar_of(b[0]);
        assert(utf8::encode_scalar(b[0] as u32).len() > 0);
        if a.len() > 0 {
            lemma_scalar_of(a[0]);
            let x = a[0] as u32;
            let y = b[0] as u32;
            let s = utf8::encode_utf8(a.drop_first());
            let t = utf8::encode_utf8(b.drop_first());
            if a[0] == b[0] {
                key_order_is_byte_order(a.drop_first(), b.drop_first());
                lemma_common(utf8::encode_scalar(x), s, t);
            } else if x < y {
                lemma_scalars(x, y);
                let p = choose|p: int|
                    smaller_at(utf8::encode_scalar(x), utf8::encode_scalar(y), p);
                lemma_decided(utf8::encode_scalar(x), utf8::encode_scalar(y), p, s, t);
            } else {
                lemma_scalars(y, x);
                let p = choose|p: int|
                    smaller_at(utf8::encode_scalar(y), utf8::encode_scalar(x), p);
                lemma_decided(utf8::encode_scalar(y), utf8::encode_scalar(x), p, t, s);
            }
        }
    }
}

} // verus!
