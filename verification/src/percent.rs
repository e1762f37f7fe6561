//! Percent-decoding, as in URLs and form data.
use crate::text;
use vstd::prelude::*;

verus! {

/// The value of a hexadecimal digit.
pub open spec fn hex_value(b: u8) -> Option<u8> {
    if 48 <= b <= 57 {
        Some((b - 48) as u8)
    } else if 97 <= b <= 102 {
        Some((b - 87) as u8)
    } else if 65 <= b <= 70 {
        Some((b - 55) as u8)
    } else {
        None
    }
}

/// The value of a hexadecimal digit.
pub fn hex_val(b: u8) -> (r: Option<u8>)
    ensures
        r == hex_value(b),
{
    if 48 <= b && b <= 57 {
        Some(b - 48)
    } else if 97 <= b && b <= 102 {
        Some(b - 87)
    } else if 65 <= b && b <= 70 {
        Some(b - 55)
    } else {
        None
    }
}

/// Whether a percent sign and two hexadecimal digits stand at the start.
pub open spec fn is_escape(b: Seq<u8>) -> bool {
    b.len() > 2 && b[0] == 37 && hex_value(b[1]) is Some && hex_value(b[2]) is Some
}

/// The bytes with each escape `%XX` replaced by the byte it stands for and, if `plus` is set,
/// each plus sign by a space. A percent sign that begins no escape stays.
pub open spec fn unescaped(b: Seq<u8>, plus: bool) -> Seq<u8>
    decreases b.len(),
{
    if b.len() == 0 {
        seq![]
    } else if plus && b[0] == 43 {
        seq![32u8] + unescaped(b.skip(1), plus)
    } else if is_escape(b) {
        seq![(hex_value(b[1])->0 * 16 + hex_value(b[2])->0) as u8] + unescaped(b.skip(3), plus)
    } else {
        seq![b[0]] + unescaped(b.skip(1), plus)
    }
}

/// The text that a percent-encoded one stands for.
pub open spec fn percent_decoded(s: Seq<char>, plus: bool) -> Seq<char> {
    text::decoded_lossily(unescaped(vstd::utf8::encode_utf8(s), plus))
}

/// Replaces the escapes in bytes.
pub fn unescape(b: &[u8], plus: bool) -> (r: Vec<u8>)
    ensures
        r@ == unescaped(b@, plus),
{
    let n: usize = b.len();
    let mut out: Vec<u8> = Vec::new();
    let mut i: usize = 0;
    assert(b@.skip(0) =~= b@);
    assert(out@ + unescaped(b@, plus) =~= unescaped(b@, plus));
    while i < n
        invariant
            i <= n == b.len(),
            unescaped(b@, plus) == out@ + unescaped(b@.skip(i as int), plus),
        decreases n - i,
    {
        let ghost before = out@;
        let ghost rest = b@.skip(i as int);
        let mut step: usize = 1;
        let mut byte: u8 = b[i];
        if plus && byte == 43 {
            byte = 32;
        } else if byte == 37 && n - i > 2 {
            if let (Some(hi), Some(lo)) = (hex_val(b[i + 1]), hex_val(b[i + 2])) {
                byte = hi * 16 + lo;
                step = 3;
            }
        }
        out.push(byte);
        proof {
            assert(rest.skip(step as int) =~= b@.skip(i + step));
            assert(unescaped(rest, plus) == seq![byte] + unescaped(rest.skip(step as int), plus));
            assert(before + (seq![byte] + unescaped(rest.skip(step as int), plus)) =~= out@
                + unescaped(rest.skip(step as int), plus));
        }
        i += step;
    }
    assert(b@.skip(n as int) =~= Seq::<u8>::empty());
    assert(out@ + unescaped(b@.skip(n as int), plus) =~= out@);
    out
}

/// Decodes a percent-encoded text; with `plus`, a plus sign is a space.
pub fn percent_decode(s: &str, plus: bool) -> (r: String)
    ensures
        r@ == percent_decoded(s@, plus),
{
    let bytes = unescape(s.as_bytes(), plus);
    text::decode_lossily(&bytes)
}

/// Whether a text holds no percent sign and, where it counts, no plus sign.
pub open spec fn is_plain(s: Seq<char>, plus: bool) -> bool {
    forall|i: int| 0 <= i < s.len() ==> (#[trigger] s[i]) != '%' && (plus ==> s[i] != '+')
}

/// Whether bytes hold no percent sign and, where it counts, no plus sign.
pub open spec fn is_plain_in_bytes(b: Seq<u8>, plus: bool) -> bool {
    forall|i: int| 0 <= i < b.len() ==> (#[trigger] b[i]) != 37 && (plus ==> b[i] != 43)
}

/// Bytes without escapes stay as they are.
proof fn lemma_unescaped_plain(b: Seq<u8>, plus: bool)
    requires
        is_plain_in_bytes(b, plus),
    ensures
        unescaped(b, plus) == b,
    decreases b.len(),
{
    if b.len() > 0 {
        let rest = b.skip(1);
        assert forall|i: int| 0 <= i < rest.len() implies (#[trigger] rest[i]) != 37 && (plus
            ==> rest[i] != 43) by {
            assert(rest[i] == b[i + 1]);
        }
        lemma_unescaped_plain(rest, plus);
        assert(seq![b[0]] + rest =~= b);
    } else {
        assert(unescaped(b, plus) =~= b);
    }
}

/// The bytes of a character other than `%` and `+` are other than theirs.
proof fn lemma_scalar_bytes(c: char, k: int)
    requires
        0 <= k < vstd::utf8::encode_scalar(c as u32).len(),
    ensures
        c != '%' ==> vstd::utf8::encode_scalar(c as u32)[k] != 37,
        c != '+' ==> vstd::utf8::encode_scalar(c as u32)[k] != 43,
{
    vstd::utf8::char_is_scalar(c);
    let v = c as u32;
    let bytes = vstd::utf8::encode_scalar(v);
    if vstd::utf8::has_width_1_encoding(v) {
        lemma_one_byte(v);
    } else {
        lemma_more_bytes(v);
    }
}

/// The one byte of a small scalar is the scalar.
proof fn lemma_one_byte(v: u32)
    by (bit_vector)
    requires
        vstd::utf8::has_width_1_encoding(v),
    ensures
        vstd::utf8::leading_byte_width_1(v) as u32 == v,
{
}

/// The bytes of a large scalar are all large.
proof fn lemma_more_bytes(v: u32)
    by (bit_vector)
    ensures
        vstd::utf8::leading_byte_width_2(v) >= 128 || !vstd::utf8::has_width_2_encoding(v),
        vstd::utf8::leading_byte_width_3(v) >= 128 || !vstd::utf8::has_width_3_encoding(v),
        vstd::utf8::leading_byte_width_4(v) >= 128 || !vstd::utf8::has_width_4_encoding(v),
        vstd::utf8::last_continuation_byte(v) >= 128,
        vstd::utf8::second_last_continuation_byte(v) >= 128,
        vstd::utf8::third_last_continuation_byte(v) >= 128,
{
}

/// A text without a percent sign has bytes without one.
proof fn lemma_plain_bytes(s: Seq<char>, plus: bool)
    requires
        is_plain(s, plus),
    ensures
        is_plain_in_bytes(vstd::utf8::encode_utf8(s), plus),
    decreases s.len(),
{
    if s.len() > 0 {
        let first = vstd::utf8::encode_scalar(s[0] as u32);
        let rest = s.drop_first();
        assert forall|i: int| 0 <= i < rest.len() implies (#[trigger] rest[i]) != '%' && (plus
            ==> rest[i] != '+') by {
            assert(rest[i] == s[i + 1]);
        }
        lemma_plain_bytes(rest, plus);
        let all = vstd::utf8::encode_utf8(s);
        assert(s[0] != '%');
        assert forall|i: int| 0 <= i < all.len() implies (#[trigger] all[i]) != 37 && (plus
            ==> all[i] != 43) by {
            if i < first.len() {
                lemma_scalar_bytes(s[0], i);
            } else {
                assert(all[i] == vstd::utf8::encode_utf8(rest)[i - first.len()]);
            }
        }
    }
}

/// A text without escapes decodes to itself.
pub proof fn law_plain_text_decodes_to_itself(s: Seq<char>, plus: bool)
    requires
        is_plain(s, plus),
    ensures
        percent_decoded(s, plus) == s,
{
    let b = vstd::utf8::encode_utf8(s);
    lemma_plain_bytes(s, plus);
    lemma_unescaped_plain(b, plus);
    vstd::utf8::encode_utf8_valid_utf8(s);
    vstd::utf8::encode_utf8_decode_utf8(s);
}

/// Whether three bytes are an escape of a byte: a percent sign and two hexadecimal digits, of
/// either case, the higher half first.
pub open spec fn stands_for(percent: u8, high: u8, low: u8, byte: u8) -> bool {
    percent == 37 && hex_value(high) == Some((byte / 16) as u8) && hex_value(low) == Some(
        (byte % 16) as u8,
    )
}

/// Whether `e` writes the bytes `b` wholly in escapes.
pub open spec fn is_escaped_form(e: Seq<u8>, b: Seq<u8>) -> bool {
    &&& e.len() == 3 * b.len()
    &&& forall|i: int|
        0 <= i < b.len() ==> stands_for(e[3 * i], e[3 * i + 1], e[3 * i + 2], #[trigger] b[i])
}

/// Bytes that are written wholly in escapes come back.
pub proof fn law_escaped_bytes_come_back(e: Seq<u8>, b: Seq<u8>, plus: bool)
    requires
        is_escaped_form(e, b),
    ensures
        unescaped(e, plus) == b,
    decreases b.len(),
{
    if b.len() > 0 {
        let rest = e.skip(3);
        let tail = b.skip(1);
        assert forall|i: int| 0 <= i < tail.len() implies stands_for(
            rest[3 * i],
            rest[3 * i + 1],
            rest[3 * i + 2],
            #[trigger] tail[i],
        ) by {
            let k = i + 1;
            assert(tail[i] == b[k]);
            assert(stands_for(e[3 * k], e[3 * k + 1], e[3 * k + 2], b[k]));
        }
        law_escaped_bytes_come_back(rest, tail, plus);
        let first = b[0];
        assert(stands_for(e[0], e[1], e[2], first));
        assert((first / 16) * 16 + first % 16 == first);
        assert(seq![first] + tail =~= b);
    } else {
        assert(unescaped(e, plus) =~= b);
    }
}

/// A text whose bytes are written wholly in escapes, with digits of either case, decodes to
/// itself.
pub proof fn law_escaped_text_comes_back(s: Seq<char>, e: Seq<char>, plus: bool)
    requires
        is_escaped_form(vstd::utf8::encode_utf8(e), vstd::utf8::encode_utf8(s)),
    ensures
        percent_decoded(e, plus) == s,
{
    law_escaped_bytes_come_back(
        vstd::utf8::encode_utf8(e),
        vstd::utf8::encode_utf8(s),
        plus,
    );
    vstd::utf8::encode_utf8_valid_utf8(s);
    vstd::utf8::encode_utf8_decode_utf8(s);
}

/// A percent sign that two hexadecimal digits do not follow stays, and what follows it is decoded
/// as it would be alone.
pub proof fn law_stray_percent_stays(b: Seq<u8>, plus: bool)
    requires
        b.len() > 0,
        b[0] == 37,
        !is_escape(b),
    ensures
        unescaped(b, plus) == seq![37u8] + unescaped(b.skip(1), plus),
{
}

/// The hexadecimal digits of escapes are the ten digits and the first six letters of either case;
/// nothing else is one.
pub proof fn law_hex_digits(b: u8)
    ensures
        '0' as u8 <= b <= '9' as u8 ==> hex_value(b) == Some((b - '0' as u8) as u8),
        'a' as u8 <= b <= 'f' as u8 ==> hex_value(b) == Some((b - 'a' as u8 + 10) as u8),
        'A' as u8 <= b <= 'F' as u8 ==> hex_value(b) == Some((b - 'A' as u8 + 10) as u8),
        b < '0' as u8 || ('9' as u8) < b && b < 'A' as u8 || ('F' as u8) < b && b < 'a' as u8 || (
        'f' as u8) < b ==> hex_value(b) is None,
{
}

/// A plus sign stands for a space where that is asked for, and else for itself; an escape for its
/// byte; and what follows is read on.
pub proof fn law_unescaped(rest: Seq<u8>, high: u8, low: u8, b: u8)
    ensures
        unescaped(seq!['+' as u8] + rest, true) == seq![' ' as u8] + unescaped(rest, true),
        unescaped(seq!['+' as u8] + rest, false) == seq!['+' as u8] + unescaped(rest, false),
        b != '%' as u8 && b != '+' as u8 ==> unescaped(seq![b] + rest, true) == seq![b] + unescaped(
            rest,
            true,
        ),
        hex_value(high) is Some && hex_value(low) is Some ==> unescaped(
            seq!['%' as u8, high, low] + rest,
            true,
        ) == seq![(16 * hex_value(high)->0 + hex_value(low)->0) as u8] + unescaped(rest, true),
        unescaped(seq![], true).len() == 0,
{
    let p = seq!['+' as u8] + rest;
    let q = seq![b] + rest;
    let e = seq!['%' as u8, high, low] + rest;
    assert(p.skip(1) =~= rest && q.skip(1) =~= rest && e.skip(3) =~= rest);
    assert(e[0] == 37 && e[1] == high && e[2] == low);
    assert(p[0] == 43 && q[0] == b);
}

} // verus!
