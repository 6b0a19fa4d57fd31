//! Round-trip laws tying the encoder to the decoder.

use vstd::prelude::*;
use vstd::utf8::{decode_utf8, encode_scalar, encode_utf8, is_scalar, valid_utf8};
use crate::decode::{
    BACKSLASH, all_hex_digits, hex_digit_value, hex_value, is_hex_digit, lemma_prefixed_chain,
    lemma_prefixed_empty, prefixed, short_unescape, unescaped, combine_surrogates,
};
use crate::errors::PropertiesError;
use crate::writer::{
    escape_char, escape_from, escaped_bytes, hex4_digits, hex_upper_digit, high_surrogate_of,
    low_surrogate_of, unicode_escape,
};

verus! {

/// The uppercase hex digit of `n` is a hex digit and reads back as `n`.
proof fn lemma_hex_digit_round_trip(n: int)
    requires
        0 <= n < 16,
    ensures
        is_hex_digit(hex_upper_digit(n)),
        hex_digit_value(hex_upper_digit(n)) == n,
{
}

/// The four uppercase hex digits of a 16-bit value read back as the value.
proof fn lemma_hex4_round_trip(v: u32)
    requires
        v <= 0xFFFF,
    ensures
        all_hex_digits(hex4_digits(v as int)),
        hex4_digits(v as int).len() == 4,
        hex_value(hex4_digits(v as int)) == v,
{
    let s = hex4_digits(v as int);
    let d0 = (v as int / 4096) % 16;
    let d1 = (v as int / 256) % 16;
    let d2 = (v as int / 16) % 16;
    let d3 = v as int % 16;
    lemma_hex_digit_round_trip(d0);
    lemma_hex_digit_round_trip(d1);
    lemma_hex_digit_round_trip(d2);
    lemma_hex_digit_round_trip(d3);
    assert forall|i: int| 0 <= i < s.len() implies is_hex_digit(#[trigger] s[i]) by {
        if i == 0 {
        } else if i == 1 {
        } else if i == 2 {
        } else {
            assert(s[i] == hex_upper_digit(d3));
        }
    }
    assert(s.len() == 4);
    let s3 = seq![s[0], s[1], s[2]];
    let s2 = seq![s[0], s[1]];
    let s1 = seq![s[0]];
    assert(s.drop_last() =~= s3 && s3.drop_last() =~= s2 && s2.drop_last() =~= s1
        && s1.drop_last() =~= Seq::<u8>::empty());
    assert(hex_value(Seq::<u8>::empty()) == 0);
    assert(hex_value(s1) == hex_digit_value(s[0]));
    assert(hex_value(s2) == hex_value(s1) * 16 + hex_digit_value(s[1]));
    assert(hex_value(s3) == hex_value(s2) * 16 + hex_digit_value(s[2]));
    assert(hex_value(s) == hex_value(s3) * 16 + hex_digit_value(s[3]));
    assert(((v / 4096) % 16) * 4096 + ((v / 256) % 16) * 256 + ((v / 16) % 16) * 16 + (v % 16)
        == v) by (bit_vector)
        requires
            v <= 0xFFFF,
    ;
}

/// Splitting a code point at or above `U+10000` into a surrogate pair and
/// combining it again gives the code point back.
proof fn lemma_surrogate_round_trip(v: u32)
    requires
        0x10000 <= v <= 0x10FFFF,
    ensures
        0xD800 <= high_surrogate_of(v as int) <= 0xDBFF,
        0xDC00 <= low_surrogate_of(v as int) <= 0xDFFF,
        combine_surrogates(high_surrogate_of(v as int) as u32, low_surrogate_of(v as int) as u32)
            == v,
{
    assert((v - 0x10000) / 0x400 <= 0x3FF && v % 0x400 <= 0x3FF && 0x10000 + ((v - 0x10000)
        / 0x400) * 0x400 + (v % 0x400) == v) by (bit_vector)
        requires
            0x10000 <= v <= 0x10FFFF,
    ;
}

/// A scalar at or below `0x7F` encodes as its own single byte.
proof fn lemma_encode_scalar_ascii(v: u32)
    requires
        v <= 0x7F,
    ensures
        encode_scalar(v) == seq![v as u8],
{
    assert((v & 0x7F) == v) by (bit_vector)
        requires
            v <= 0x7F,
    ;
    assert(encode_scalar(v) =~= seq![v as u8]);
}

/// No byte of a UTF-8 encoding of a scalar other than `\` itself is the
/// backslash byte.
proof fn lemma_encode_scalar_no_backslash(v: u32)
    requires
        is_scalar(v),
        v != 0x5C,
    ensures
        forall|i: int|
            0 <= i < encode_scalar(v).len() ==> #[trigger] encode_scalar(v)[i] != BACKSLASH,
{
    let s = encode_scalar(v);
    if v <= 0x7F {
        lemma_encode_scalar_ascii(v);
    } else {
        assert((0xC0u8 | ((v >> 6) & 0x1F) as u8) != 0x5C && (0xE0u8 | ((v >> 12) & 0x0F) as u8)
            != 0x5C && (0xF0u8 | ((v >> 18) & 0x7) as u8) != 0x5C && (0x80u8 | (v & 0x3F) as u8)
            != 0x5C && (0x80u8 | ((v >> 6) & 0x3F) as u8) != 0x5C && (0x80u8 | ((v >> 12)
            & 0x3F) as u8) != 0x5C) by (bit_vector);
        assert forall|i: int| 0 <= i < s.len() implies #[trigger] s[i] != BACKSLASH by {
            if v <= 0x7FF {
                assert(s =~= seq![
                    vstd::utf8::leading_byte_width_2(v),
                    vstd::utf8::last_continuation_byte(v),
                ]);
            } else if v <= 0xFFFF {
                assert(s =~= seq![
                    vstd::utf8::leading_byte_width_3(v),
                    vstd::utf8::second_last_continuation_byte(v),
                    vstd::utf8::last_continuation_byte(v),
                ]);
            } else {
                assert(s =~= seq![
                    vstd::utf8::leading_byte_width_4(v),
                    vstd::utf8::third_last_continuation_byte(v),
                    vstd::utf8::second_last_continuation_byte(v),
                    vstd::utf8::last_continuation_byte(v),
                ]);
            }
        }
    }
}

/// A run of non-backslash bytes decodes to itself, literally.
proof fn lemma_unescape_literal_run(t: Seq<u8>, rest: Seq<u8>)
    requires
        forall|i: int| 0 <= i < t.len() ==> #[trigger] t[i] != BACKSLASH,
    ensures
        unescaped(t + rest) == prefixed(t, unescaped(rest)),
    decreases t.len(),
{
    if t.len() == 0 {
        assert(t + rest =~= rest);
        lemma_prefixed_empty(unescaped(rest));
    } else {
        let b = t + rest;
        assert(b[0] == t[0]);
        assert(b.skip(1) =~= t.skip(1) + rest);
        lemma_unescape_literal_run(t.skip(1), rest);
        lemma_prefixed_chain(seq![t[0]], t.skip(1), unescaped(rest));
        assert(seq![t[0]] + t.skip(1) =~= t);
    }
}

/// A two-byte escape decodes to its single unescaped byte.
proof fn lemma_unescape_short_escape(e: u8, rest: Seq<u8>)
    requires
        e != 0x75,
    ensures
        unescaped(seq![BACKSLASH, e] + rest) == prefixed(seq![short_unescape(e)], unescaped(rest)),
{
    let b = seq![BACKSLASH, e] + rest;
    assert(b[0] == BACKSLASH && b[1] == e && b.len() >= 2);
    assert(b.skip(2) =~= rest);
}

/// A `\uXXXX` escape of a 16-bit scalar outside the surrogate range decodes
/// to that scalar's UTF-8 bytes.
proof fn lemma_unescape_u16_escape(v: u32, rest: Seq<u8>)
    requires
        v <= 0xFFFF,
        !(0xD800 <= v <= 0xDFFF),
    ensures
        unescaped(unicode_escape(v as int) + rest) == prefixed(encode_scalar(v), unescaped(rest)),
{
    lemma_hex4_round_trip(v);
    let b = unicode_escape(v as int) + rest;
    assert(b[0] == BACKSLASH && b[1] == 0x75 && b.len() >= 6);
    assert(b.subrange(2, 6) =~= hex4_digits(v as int));
    assert(b.skip(6) =~= rest);
    assert(hex_value(b.subrange(2, 6)) as u32 == v);
}

/// The surrogate-pair escape of a code point at or above `U+10000` decodes
/// to that code point's UTF-8 bytes.
proof fn lemma_unescape_surrogate_escape(v: u32, rest: Seq<u8>)
    requires
        0x10000 <= v <= 0x10FFFF,
    ensures
        unescaped(unicode_escape(v as int) + rest) == prefixed(encode_scalar(v), unescaped(rest)),
{
    lemma_surrogate_round_trip(v);
    let hi = high_surrogate_of(v as int) as u32;
    let lo = low_surrogate_of(v as int) as u32;
    lemma_hex4_round_trip(hi);
    lemma_hex4_round_trip(lo);
    let b = unicode_escape(v as int) + rest;
    assert(b.len() >= 12);
    assert(b[0] == BACKSLASH && b[1] == 0x75 && b[6] == BACKSLASH && b[7] == 0x75);
    assert(b.subrange(2, 6) =~= hex4_digits(hi as int));
    assert(b.subrange(8, 12) =~= hex4_digits(lo as int));
    assert(b.skip(12) =~= rest);
    assert(hex_value(b.subrange(2, 6)) as u32 == hi);
    assert(hex_value(b.subrange(8, 12)) as u32 == lo);
    assert(combine_surrogates(hi, lo) == v);
}

/// One escaped character decodes back to exactly that character's UTF-8
/// bytes, whatever follows it.
proof fn lemma_unescape_one_char(c: char, first: bool, es: bool, eu: bool, rest: Seq<u8>)
    ensures
        unescaped(escape_char(c, first, es, eu) + rest) == prefixed(
            encode_scalar(c as u32),
            unescaped(rest),
        ),
{
    vstd::utf8::char_is_scalar(c);
    let v = c as u32;
    let ec = escape_char(c, first, es, eu);
    if 0x3D < v < 0x7F {
        lemma_encode_scalar_ascii(v);
        if v == 0x5C {
            lemma_unescape_short_escape(BACKSLASH, rest);
            assert(ec + rest =~= seq![BACKSLASH, BACKSLASH] + rest);
        } else {
            lemma_unescape_literal_run(seq![v as u8], rest);
            assert(ec + rest =~= seq![v as u8] + rest);
        }
    } else if v == 0x20 {
        lemma_encode_scalar_ascii(v);
        if first || es {
            lemma_unescape_short_escape(0x20, rest);
            assert(ec + rest =~= seq![BACKSLASH, 0x20u8] + rest);
        } else {
            lemma_unescape_literal_run(seq![0x20u8], rest);
            assert(ec + rest =~= seq![0x20u8] + rest);
        }
    } else if v == 0x09 {
        lemma_encode_scalar_ascii(v);
        lemma_unescape_short_escape(0x74, rest);
        assert(ec + rest =~= seq![BACKSLASH, 0x74u8] + rest);
    } else if v == 0x0A {
        lemma_encode_scalar_ascii(v);
        lemma_unescape_short_escape(0x6E, rest);
        assert(ec + rest =~= seq![BACKSLASH, 0x6Eu8] + rest);
    } else if v == 0x0D {
        lemma_encode_scalar_ascii(v);
        lemma_unescape_short_escape(0x72, rest);
        assert(ec + rest =~= seq![BACKSLASH, 0x72u8] + rest);
    } else if v == 0x0C {
        lemma_encode_scalar_ascii(v);
        lemma_unescape_short_escape(0x66, rest);
        assert(ec + rest =~= seq![BACKSLASH, 0x66u8] + rest);
    } else if v == 0x3D || v == 0x3A || v == 0x23 || v == 0x21 {
        lemma_encode_scalar_ascii(v);
        lemma_unescape_short_escape(v as u8, rest);
        assert(ec + rest =~= seq![BACKSLASH, v as u8] + rest);
        assert(short_unescape(v as u8) == v as u8);
    } else if eu && (v < 0x20 || v > 0x7E) {
        if v < 0x10000 {
            lemma_unescape_u16_escape(v, rest);
        } else {
            lemma_unescape_surrogate_escape(v, rest);
        }
    } else {
        lemma_encode_scalar_no_backslash(v);
        lemma_unescape_literal_run(encode_scalar(v), rest);
    }
}

/// The escaped bytes of the characters of `s` from `i` on decode back to
/// the UTF-8 encoding of those characters.
proof fn lemma_unescape_escape_from(s: Seq<char>, i: int, es: bool, eu: bool)
    requires
        0 <= i <= s.len(),
    ensures
        unescaped(escape_from(s, i, es, eu)) == Ok::<Seq<u8>, PropertiesError>(
            encode_utf8(s.skip(i)),
        ),
    decreases s.len() - i,
{
    if i == s.len() {
        assert(s.skip(i) =~= Seq::<char>::empty());
        assert(escape_from(s, i, es, eu) == Seq::<u8>::empty());
        assert(unescaped(Seq::<u8>::empty()) == Ok::<Seq<u8>, PropertiesError>(Seq::empty()));
    } else {
        lemma_unescape_escape_from(s, i + 1, es, eu);
        lemma_unescape_one_char(s[i], i == 0, es, eu, escape_from(s, i + 1, es, eu));
        let tail = s.skip(i);
        assert(tail[0] == s[i]);
        assert(tail.drop_first() =~= s.skip(i + 1));
        assert(encode_utf8(tail) == encode_scalar(s[i] as u32) + encode_utf8(s.skip(i + 1)));
    }
}

/// Round trip: the escape encoder's output, decoded, is exactly the UTF-8
/// bytes of the original string — and those bytes decode to the original
/// characters. This holds for every string and for every combination of the
/// `escape_space` and `escape_unicode` settings, surrogate-pair escapes
/// included.
pub proof fn lemma_escape_unescape_round_trip(s: Seq<char>, escape_space: bool, escape_unicode: bool)
    ensures
        unescaped(escaped_bytes(s, escape_space, escape_unicode)) == Ok::<Seq<u8>, PropertiesError>(
            encode_utf8(s),
        ),
        valid_utf8(encode_utf8(s)),
        decode_utf8(encode_utf8(s)) == s,
{
    lemma_unescape_escape_from(s, 0, escape_space, escape_unicode);
    assert(s.skip(0) =~= s);
    vstd::utf8::encode_utf8_valid_utf8(s);
    vstd::utf8::encode_utf8_decode_utf8(s);
}

} // verus!
