//! The store/load idempotence law: loading the bytes that `store` wrote
//! reproduces the stored key/value mapping exactly.

use vstd::prelude::*;
use vstd::utf8::{encode_scalar, is_scalar};
use crate::decode::{BACKSLASH, trailing_backslashes, even_trailing_backslashes};
use crate::line::{ScanState, initial_scan_state, is_line_whitespace, is_terminator, scan,
    scan_logical_line};
use crate::errors::PropertiesError;
use crate::props::map_of_entries;
use crate::reader::{EQUALS_SIGN, KeyStop, find_key_end, find_value_start, is_separator,
    load_outcome, split_line};
use crate::writer::{LineEnding, entries_output, entry_line, escape_char, escape_from,
    escaped_bytes, hex4_digits, hex_upper_digit, store_output, unicode_escape};

verus! {

/// A byte the line scanner passes through untouched in the middle of a
/// line: anything but a physical line terminator.
pub open spec fn is_plain_byte(b: u8) -> bool {
    !is_terminator(b)
}

/// The trailing backslash run of a concatenation: the second part's run,
/// extended into the first part only when the second part is nothing but
/// backslashes.
proof fn lemma_trailing_concat(a: Seq<u8>, b: Seq<u8>)
    ensures
        trailing_backslashes(a + b) == if trailing_backslashes(b) == b.len() {
            trailing_backslashes(a) + b.len()
        } else {
            trailing_backslashes(b)
        },
    decreases b.len(),
{
    crate::decode::lemma_trailing_bounds(b);
    if b.len() == 0 {
        assert(a + b =~= a);
    } else {
        assert((a + b).drop_last() =~= a + b.drop_last());
        assert((a + b).last() == b.last());
        lemma_trailing_concat(a, b.drop_last());
        crate::decode::lemma_trailing_bounds(b.drop_last());
    }
}

/// Every byte of a single character's escape output is free of line
/// terminators; the output is never empty, ends in an even backslash run,
/// and — when the character is the first of its string or spaces are being
/// escaped — begins with no whitespace or comment marker.
proof fn lemma_escape_char_bytes(c: char, first: bool, es: bool, eu: bool)
    ensures
        ({
            let ec = escape_char(c, first, es, eu);
            &&& ec.len() > 0
            &&& forall|i: int| 0 <= i < ec.len() ==> is_plain_byte(#[trigger] ec[i])
            &&& even_trailing_backslashes(ec)
            &&& ((first || es) ==> !is_line_whitespace(ec[0]))
            &&& ec[0] != 0x23 && ec[0] != 0x21
        }),
{
    vstd::utf8::char_is_scalar(c);
    let v = c as u32;
    let ec = escape_char(c, first, es, eu);
    assert(trailing_backslashes(Seq::<u8>::empty()) == 0);
    if 0x3D < v < 0x7F {
        if v == 0x5C {
            assert(ec =~= seq![BACKSLASH, BACKSLASH]);
            assert(ec.drop_last() =~= seq![BACKSLASH]);
            assert(seq![BACKSLASH].drop_last() =~= Seq::<u8>::empty());
            assert(trailing_backslashes(seq![BACKSLASH]) == 1);
            assert(trailing_backslashes(ec) == 2);
        } else {
            assert(trailing_backslashes(ec) == 0);
        }
    } else if v == 0x20 || v == 0x09 || v == 0x0A || v == 0x0D || v == 0x0C || v == 0x3D || v
        == 0x3A || v == 0x23 || v == 0x21 {
        assert(ec.len() <= 2 && ec.last() != BACKSLASH);
        assert(trailing_backslashes(ec) == 0);
    } else if eu && (v < 0x20 || v > 0x7E) {
        lemma_unicode_escape_bytes(v);
        assert(trailing_backslashes(ec) == 0) by {
            assert(ec.last() != BACKSLASH);
        }
    } else {
        lemma_encode_scalar_bytes(v);
        assert(ec.last() != BACKSLASH);
        assert(trailing_backslashes(ec) == 0);
    }
}

/// The bytes of a `\uXXXX` escape are backslashes, `u`, and uppercase hex
/// digits; it ends in a hex digit.
proof fn lemma_unicode_escape_bytes(v: u32)
    requires
        v <= 0x10FFFF,
    ensures
        ({
            let ue = unicode_escape(v as int);
            &&& ue.len() == 6 || ue.len() == 12
            &&& (v < 0x10000 <==> ue.len() == 6)
            &&& ue[0] == BACKSLASH && ue[1] == 0x75
            &&& forall|i: int| 2 <= i < 6 ==> is_hex_upper_byte(#[trigger] ue[i])
            &&& (ue.len() == 12 ==> ue[6] == BACKSLASH && ue[7] == 0x75 && forall|i: int|
                8 <= i < 12 ==> is_hex_upper_byte(#[trigger] ue[i]))
            &&& is_hex_upper_byte(ue.last())
        }),
{
    let ue = unicode_escape(v as int);
    lemma_hex_upper_range((v as int / 4096) % 16);
    lemma_hex_upper_range((v as int / 256) % 16);
    lemma_hex_upper_range((v as int / 16) % 16);
    lemma_hex_upper_range(v as int % 16);
    if v >= 0x10000 {
        let hi = crate::writer::high_surrogate_of(v as int);
        let lo = crate::writer::low_surrogate_of(v as int);
        lemma_hex_upper_range((hi / 4096) % 16);
        lemma_hex_upper_range((hi / 256) % 16);
        lemma_hex_upper_range((hi / 16) % 16);
        lemma_hex_upper_range(hi % 16);
        lemma_hex_upper_range((lo / 4096) % 16);
        lemma_hex_upper_range((lo / 256) % 16);
        lemma_hex_upper_range((lo / 16) % 16);
        lemma_hex_upper_range(lo % 16);
        assert(ue =~= seq![
            BACKSLASH,
            0x75u8,
            hex_upper_digit((hi / 4096) % 16),
            hex_upper_digit((hi / 256) % 16),
            hex_upper_digit((hi / 16) % 16),
            hex_upper_digit(hi % 16),
            BACKSLASH,
            0x75u8,
            hex_upper_digit((lo / 4096) % 16),
            hex_upper_digit((lo / 256) % 16),
            hex_upper_digit((lo / 16) % 16),
            hex_upper_digit(lo % 16),
        ]);
    } else {
        assert(ue =~= seq![
            BACKSLASH,
            0x75u8,
            hex_upper_digit((v as int / 4096) % 16),
            hex_upper_digit((v as int / 256) % 16),
            hex_upper_digit((v as int / 16) % 16),
            hex_upper_digit(v as int % 16),
        ]);
    }
}

/// An uppercase hex digit byte: `0`..`9` or `A`..`F`.
pub open spec fn is_hex_upper_byte(b: u8) -> bool {
    (0x30 <= b <= 0x39) || (0x41 <= b <= 0x46)
}

proof fn lemma_hex_upper_range(n: int)
    requires
        0 <= n < 16,
    ensures
        is_hex_upper_byte(hex_upper_digit(n)),
{
}

/// The UTF-8 bytes of a scalar that needed no escape contain no backslash,
/// separator, whitespace, terminator or comment marker.
proof fn lemma_encode_scalar_bytes(v: u32)
    requires
        is_scalar(v),
        !(0x3D < v < 0x7F),
        v != 0x20 && v != 0x09 && v != 0x0A && v != 0x0D && v != 0x0C && v != 0x3D && v != 0x3A
            && v != 0x23 && v != 0x21,
    ensures
        ({
            let s = encode_scalar(v);
            &&& s.len() > 0
            &&& forall|i: int|
                0 <= i < s.len() ==> (#[trigger] s[i] != BACKSLASH && !is_terminator(s[i])
                    && !is_line_whitespace(s[i]) && !crate::reader::is_separator(s[i]) && s[i]
                    != 0x23 && s[i] != 0x21)
        }),
{
    let s = encode_scalar(v);
    if v <= 0x7F {
        assert((v & 0x7F) == v) by (bit_vector)
            requires
                v <= 0x7F,
        ;
        assert(s =~= seq![v as u8]);
    } else {
        assert((0xC0u8 | ((v >> 6) & 0x1F) as u8) >= 0xC0 && (0xE0u8 | ((v >> 12) & 0x0F) as u8)
            >= 0xC0 && (0xF0u8 | ((v >> 18) & 0x7) as u8) >= 0xC0 && (0x80u8 | (v & 0x3F) as u8)
            >= 0x80 && (0x80u8 | ((v >> 6) & 0x3F) as u8) >= 0x80 && (0x80u8 | ((v >> 12)
            & 0x3F) as u8) >= 0x80) by (bit_vector);
        assert forall|i: int| 0 <= i < s.len() implies (#[trigger] s[i] != BACKSLASH
            && !is_terminator(s[i]) && !is_line_whitespace(s[i]) && !crate::reader::is_separator(
            s[i],
        ) && s[i] != 0x23 && s[i] != 0x21) by {
            if v <= 0x7FF {
                assert(s =~= seq![
                    vstd::utf8::leading_byte_width_2(v),
                    vstd::utf8::last_continuation_byte(v),
                ]);
            } else if v <= 0xFFFF {
                assert(s =~= seq![
                    vstd::utf8::leading_byte_width_3(v),
                    vstd::utf8::second_last_continuation_byte(v),
                    vstd::utf8::last_continuation_byte(v),
                ]);
            } else {
                assert(s =~= seq![
                    vstd::utf8::leading_byte_width_4(v),
                    vstd::utf8::third_last_continuation_byte(v),
                    vstd::utf8::second_last_continuation_byte(v),
                    vstd::utf8::last_continuation_byte(v),
                ]);
            }
        }
    }
}

/// The escaped bytes of a string's tail: terminator-free, even-ended, and
/// opening with no whitespace or comment marker.
#[verifier::rlimit(100)]
proof fn lemma_escape_from_bytes(s: Seq<char>, i: int, es: bool, eu: bool)
    requires
        0 <= i <= s.len(),
    ensures
        ({
            let e = escape_from(s, i, es, eu);
            &&& forall|m: int| 0 <= m < e.len() ==> is_plain_byte(#[trigger] e[m])
            &&& even_trailing_backslashes(e)
            &&& (i < s.len() ==> e.len() > 0)
            &&& (i < s.len() && (i == 0 || es) ==> !is_line_whitespace(e[0]) && e[0] != 0x23 && e[0]
                != 0x21)
        }),
    decreases s.len() - i,
{
    let e = escape_from(s, i, es, eu);
    if i == s.len() {
        assert(trailing_backslashes(Seq::<u8>::empty()) == 0);
    } else {
        let ec = escape_char(s[i], i == 0, es, eu);
        let rest = escape_from(s, i + 1, es, eu);
        lemma_escape_char_bytes(s[i], i == 0, es, eu);
        lemma_escape_from_bytes(s, i + 1, es, eu);
        assert forall|m: int| 0 <= m < e.len() implies is_plain_byte(#[trigger] e[m]) by {
            if m < ec.len() {
                assert(e[m] == ec[m]);
            } else {
                assert(e[m] == rest[m - ec.len()]);
            }
        }
        lemma_trailing_concat(ec, rest);
        crate::decode::lemma_trailing_bounds(rest);
        assert(e[0] == ec[0]);
    }
}

/// A line the scanner consumes literally: no terminators inside, nothing
/// skippable at its head, an even trailing backslash run.
pub open spec fn is_clean_line(line: Seq<u8>) -> bool {
    &&& line.len() > 0
    &&& (forall|m: int| 0 <= m < line.len() ==> is_plain_byte(#[trigger] line[m]))
    &&& even_trailing_backslashes(line)
    &&& !is_line_whitespace(line[0])
    &&& line[0] != 0x23
    &&& line[0] != 0x21
}

/// The scanner's state after consuming the first `j` bytes of a clean line.
spec fn mid_scan_state(line: Seq<u8>, j: int) -> ScanState {
    ScanState {
        skip_lf: false,
        skip_ws: j == 0,
        fresh_line: j == 0,
        comment: false,
        pending_backslash: trailing_backslashes(line.take(j)) % 2 == 1,
        joined: false,
    }
}

/// Scanning a clean line followed by a terminator yields exactly that line,
/// consuming it and one terminator byte.
proof fn lemma_scan_clean_line_mid(data: Seq<u8>, base: int, line: Seq<u8>, j: int)
    requires
        0 <= base,
        base + line.len() < data.len(),
        forall|m: int| 0 <= m < line.len() ==> data[base + m] == line[m],
        is_terminator(data[base + line.len()]),
        is_clean_line(line),
        0 <= j <= line.len(),
    ensures
        scan(data, base + j, mid_scan_state(line, j), line.take(j)) == (
            line,
            base + line.len() + 1,
        ),
    decreases line.len() - j,
{
    crate::decode::lemma_trailing_bounds(line.take(j));
    if j == line.len() {
        assert(line.take(j) =~= line);
    } else {
        let c = data[base + j];
        assert(c == line[j]);
        assert(line.take(j + 1) =~= line.take(j).push(c));
        assert(line.take(j + 1).drop_last() =~= line.take(j));
        if c == BACKSLASH {
            assert(trailing_backslashes(line.take(j + 1)) == 1 + trailing_backslashes(
                line.take(j),
            ));
        } else {
            assert(trailing_backslashes(line.take(j + 1)) == 0);
        }
        lemma_scan_clean_line_mid(data, base, line, j + 1);
        assert(scan(data, base + j, mid_scan_state(line, j), line.take(j)) == scan(
            data,
            base + j + 1,
            mid_scan_state(line, j + 1),
            line.take(j + 1),
        ));
    }
}

/// Scanning from the start of a clean line followed by a terminator yields
/// the line itself.
proof fn lemma_scan_clean_line(data: Seq<u8>, base: int, line: Seq<u8>)
    requires
        0 <= base,
        base + line.len() < data.len(),
        forall|m: int| 0 <= m < line.len() ==> data[base + m] == line[m],
        is_terminator(data[base + line.len()]),
        is_clean_line(line),
    ensures
        scan_logical_line(data, base) == (line, base + line.len() + 1),
{
    assert(line.take(0) =~= Seq::<u8>::empty());
    assert(trailing_backslashes(Seq::<u8>::empty()) == 0);
    assert(mid_scan_state(line, 0) == initial_scan_state());
    lemma_scan_clean_line_mid(data, base, line, 0);
}

/// The key scan walks over bytes that are not backslashes, separators or
/// whitespace without stopping.
proof fn lemma_find_key_plain_run(line: Seq<u8>, p: int, q: int)
    requires
        0 <= p <= q <= line.len(),
        forall|m: int|
            p <= m < q ==> (#[trigger] line[m] != BACKSLASH && !is_separator(line[m])
                && !is_line_whitespace(line[m])),
    ensures
        find_key_end(line, p, false) == find_key_end(line, q, false),
    decreases q - p,
{
    if p < q {
        lemma_find_key_plain_run(line, p + 1, q);
    }
}

/// The key scan steps over one escaped character of the key without
/// stopping, leaving the escape parity clear.
proof fn lemma_find_key_unit(line: Seq<u8>, p: int, c: char, first: bool, eu: bool)
    requires
        0 <= p,
        p + escape_char(c, first, true, eu).len() <= line.len(),
        forall|m: int|
            0 <= m < escape_char(c, first, true, eu).len() ==> line[p + m] == escape_char(
                c,
                first,
                true,
                eu,
            )[m],
    ensures
        find_key_end(line, p, false) == find_key_end(
            line,
            p + escape_char(c, first, true, eu).len(),
            false,
        ),
{
    vstd::utf8::char_is_scalar(c);
    let v = c as u32;
    let ec = escape_char(c, first, true, eu);
    if 0x3D < v < 0x7F {
        if v == 0x5C {
            assert(line[p + 0] == ec[0] && line[p + 1] == ec[1]);
            assert(find_key_end(line, p, false) == find_key_end(line, p + 1, true));
            assert(find_key_end(line, p + 1, true) == find_key_end(line, p + 2, false));
        } else {
            assert(line[p + 0] == ec[0] && ec[0] == v as u8);
            assert(!is_separator(line[p]) && !is_line_whitespace(line[p]) && line[p] != BACKSLASH);
            assert(find_key_end(line, p, false) == find_key_end(line, p + 1, false));
        }
    } else if v == 0x20 || v == 0x09 || v == 0x0A || v == 0x0D || v == 0x0C || v == 0x3D || v
        == 0x3A || v == 0x23 || v == 0x21 {
        assert(line[p + 0] == ec[0] && line[p + 1] == ec[1]);
        assert(ec[0] == BACKSLASH);
        assert(find_key_end(line, p, false) == find_key_end(line, p + 1, true));
        assert(find_key_end(line, p + 1, true) == find_key_end(line, p + 2, false));
    } else if eu && (v < 0x20 || v > 0x7E) {
        lemma_unicode_escape_bytes(v);
        assert(line[p + 0] == ec[0] && line[p + 1] == ec[1]);
        assert(find_key_end(line, p, false) == find_key_end(line, p + 1, true));
        assert(find_key_end(line, p + 1, true) == find_key_end(line, p + 2, false));
        assert forall|m: int| p + 2 <= m < p + 6 implies (#[trigger] line[m] != BACKSLASH
            && !is_separator(line[m]) && !is_line_whitespace(line[m])) by {
            assert(line[p + (m - p)] == ec[m - p]);
            assert(is_hex_upper_byte(ec[m - p]));
        }
        lemma_find_key_plain_run(line, p + 2, p + 6);
        if ec.len() == 12 {
            assert(line[p + 6] == ec[6] && line[p + 7] == ec[7]);
            assert(find_key_end(line, p + 6, false) == find_key_end(line, p + 7, true));
            assert(find_key_end(line, p + 7, true) == find_key_end(line, p + 8, false));
            assert forall|m: int| p + 8 <= m < p + 12 implies (#[trigger] line[m] != BACKSLASH
                && !is_separator(line[m]) && !is_line_whitespace(line[m])) by {
                assert(line[p + (m - p)] == ec[m - p]);
                assert(is_hex_upper_byte(ec[m - p]));
            }
            lemma_find_key_plain_run(line, p + 8, p + 12);
        }
    } else {
        lemma_encode_scalar_bytes(v);
        assert forall|m: int| p <= m < p + ec.len() implies (#[trigger] line[m] != BACKSLASH
            && !is_separator(line[m]) && !is_line_whitespace(line[m])) by {
            assert(line[p + (m - p)] == ec[m - p]);
        }
        lemma_find_key_plain_run(line, p, p + ec.len());
    }
}

/// The key scan walks over the whole escaped key without stopping.
proof fn lemma_find_key_through(line: Seq<u8>, p: int, s: Seq<char>, i: int, eu: bool)
    requires
        0 <= i <= s.len(),
        0 <= p,
        p == escape_from(s, 0, true, eu).len() - escape_from(s, i, true, eu).len(),
        p + escape_from(s, i, true, eu).len() <= line.len(),
        forall|m: int|
            0 <= m < escape_from(s, i, true, eu).len() ==> line[p + m] == escape_from(
                s,
                i,
                true,
                eu,
            )[m],
    ensures
        find_key_end(line, p, false) == find_key_end(
            line,
            p + escape_from(s, i, true, eu).len(),
            false,
        ),
    decreases s.len() - i,
{
    if i < s.len() {
        let ec = escape_char(s[i], i == 0, true, eu);
        let rest = escape_from(s, i + 1, true, eu);
        assert(escape_from(s, i, true, eu) == ec + rest);
        lemma_escape_char_bytes(s[i], i == 0, true, eu);
        assert(forall|m: int| 0 <= m < ec.len() ==> line[p + m] == (#[trigger] ec[m])) by {
            assert(forall|m: int|
                0 <= m < ec.len() ==> (ec + rest)[m] == (#[trigger] ec[m]));
        }
        lemma_find_key_unit(line, p, s[i], i == 0, eu);
        assert(forall|m: int|
            0 <= m < rest.len() ==> line[p + ec.len() + m] == (#[trigger] rest[m])) by {
            assert(forall|m: int|
                0 <= m < rest.len() ==> (ec + rest)[ec.len() + m] == (#[trigger] rest[m]));
        }
        lemma_find_key_through(line, p + ec.len(), s, i + 1, eu);
    }
}

/// The splitter cuts an entry's line exactly at its `=`: the raw key is the
/// escaped key, the raw value the escaped value.
proof fn lemma_split_entry_line(k: Seq<char>, v: Seq<char>, eu: bool)
    ensures
        ({
            let ek = escaped_bytes(k, true, eu);
            let ev = escaped_bytes(v, false, eu);
            split_line(ek + seq![EQUALS_SIGN] + ev) == (ek, ev)
        }),
{
    let ek = escaped_bytes(k, true, eu);
    let ev = escaped_bytes(v, false, eu);
    let line = ek + seq![EQUALS_SIGN] + ev;
    assert(forall|m: int| 0 <= m < ek.len() ==> line[m] == (#[trigger] ek[m]));
    lemma_find_key_through(line, 0, k, 0, eu);
    assert(line[ek.len() as int] == EQUALS_SIGN);
    assert(find_key_end(line, ek.len() as int, false) == (ek.len() as int, KeyStop::Separator));
    lemma_escape_from_bytes(v, 0, false, eu);
    if v.len() == 0 {
        assert(ev.len() == 0);
        assert(ek.len() as int + 1 == line.len());
        assert(find_value_start(line, ek.len() as int + 1, true) == line.len() as int);
    } else {
        assert(line[ek.len() as int + 1] == ev[0]);
        assert(!is_line_whitespace(ev[0]));
        assert(find_value_start(line, ek.len() as int + 1, true) == ek.len() as int + 1);
    }
    assert(line.take(ek.len() as int) =~= ek);
    assert(line.skip(ek.len() as int + 1) =~= ev);
}

/// The UTF-8 bytes of any character other than `\r` and `\n` contain no
/// line terminator.
proof fn lemma_encode_scalar_no_terminator(v: u32)
    requires
        is_scalar(v),
        v != 0x0A,
        v != 0x0D,
    ensures
        forall|i: int|
            0 <= i < encode_scalar(v).len() ==> !is_terminator(#[trigger] encode_scalar(v)[i]),
{
    let s = encode_scalar(v);
    if v <= 0x7F {
        assert((v & 0x7F) == v) by (bit_vector)
            requires
                v <= 0x7F,
        ;
        assert(s =~= seq![v as u8]);
    } else {
        assert((0xC0u8 | ((v >> 6) & 0x1F) as u8) >= 0xC0 && (0xE0u8 | ((v >> 12) & 0x0F) as u8)
            >= 0xC0 && (0xF0u8 | ((v >> 18) & 0x7) as u8) >= 0xC0 && (0x80u8 | (v & 0x3F) as u8)
            >= 0x80 && (0x80u8 | ((v >> 6) & 0x3F) as u8) >= 0x80 && (0x80u8 | ((v >> 12)
            & 0x3F) as u8) >= 0x80) by (bit_vector);
        assert forall|i: int| 0 <= i < s.len() implies !is_terminator(#[trigger] s[i]) by {
            if v <= 0x7FF {
                assert(s =~= seq![
                    vstd::utf8::leading_byte_width_2(v),
                    vstd::utf8::last_continuation_byte(v),
                ]);
            } else if v <= 0xFFFF {
                assert(s =~= seq![
                    vstd::utf8::leading_byte_width_3(v),
                    vstd::utf8::second_last_continuation_byte(v),
                    vstd::utf8::last_continuation_byte(v),
                ]);
            } else {
                assert(s =~= seq![
                    vstd::utf8::leading_byte_width_4(v),
                    vstd::utf8::third_last_continuation_byte(v),
                    vstd::utf8::second_last_continuation_byte(v),
                    vstd::utf8::last_continuation_byte(v),
                ]);
            }
        }
    }
}

/// The scanner's state in the middle of a comment line, after its marker.
spec fn mid_comment_state(pb: bool) -> ScanState {
    ScanState {
        skip_lf: false,
        skip_ws: false,
        fresh_line: false,
        comment: true,
        pending_backslash: pb,
        joined: false,
    }
}

/// Inside a comment, terminator-free bytes change nothing the scanner will
/// keep: if every continuation of the comment ends the same way, so does
/// the scan from before those bytes.
proof fn lemma_scan_comment_plain_run(
    data: Seq<u8>,
    p: int,
    q: int,
    pb: bool,
    acc: Seq<u8>,
    r: (Seq<u8>, int),
)
    requires
        0 <= p <= q <= data.len(),
        forall|m: int| p <= m < q ==> !is_terminator(#[trigger] data[m]),
        forall|pb2: bool, acc2: Seq<u8>| #[trigger]
            scan(data, q, mid_comment_state(pb2), acc2) == r,
    ensures
        scan(data, p, mid_comment_state(pb), acc) == r,
    decreases q - p,
{
    if p == q {
        assert(scan(data, q, mid_comment_state(pb), acc) == r);
    } else {
        let c = data[p];
        let pb2 = if c == BACKSLASH {
            !pb
        } else {
            false
        };
        assert(scan(data, p, mid_comment_state(pb), acc) == scan(
            data,
            p + 1,
            mid_comment_state(pb2),
            acc.push(c),
        ));
        lemma_scan_comment_plain_run(data, p + 1, q, pb2, acc.push(c), r);
    }
}

/// Scanning a line terminator — from inside a comment line or at a fresh
/// blank line — lands at a fresh scan right after the terminator's bytes.
proof fn lemma_scan_over_ending(data: Seq<u8>, p: int, le: LineEnding, pb: bool, acc: Seq<u8>)
    requires
        0 <= p,
        p + le.to_bytes().len() <= data.len(),
        forall|m: int| 0 <= m < le.to_bytes().len() ==> data[p + m] == le.to_bytes()[m],
    ensures
        scan(data, p, mid_comment_state(pb), acc) == scan(
            data,
            p + le.to_bytes().len(),
            initial_scan_state(),
            Seq::<u8>::empty(),
        ),
        scan(data, p, initial_scan_state(), Seq::<u8>::empty()) == scan(
            data,
            p + le.to_bytes().len(),
            initial_scan_state(),
            Seq::<u8>::empty(),
        ),
{
    let ending = le.to_bytes();
    assert(data[p + 0] == ending[0]);
    if le is CrLf {
        assert(data[p + 1] == ending[1]);
        assert(scan(data, p, mid_comment_state(pb), acc) == scan(
            data,
            p + 1,
            initial_scan_state(),
            Seq::<u8>::empty(),
        ));
        assert(scan(data, p, initial_scan_state(), Seq::<u8>::empty()) == scan(
            data,
            p + 1,
            initial_scan_state(),
            Seq::<u8>::empty(),
        ));
        assert(scan(data, p + 1, initial_scan_state(), Seq::<u8>::empty()) == scan(
            data,
            p + 2,
            initial_scan_state(),
            Seq::<u8>::empty(),
        ));
    }
}

/// From inside a comment line, scanning the remaining bytes of the comment
/// block ends where a fresh logical-line scan after the block would begin.
#[verifier::rlimit(100)]
proof fn lemma_scan_comment_tail(data: Seq<u8>, p: int, s: Seq<char>, i: int, eu: bool, le: LineEnding)
    requires
        0 <= i <= s.len(),
        0 <= p,
        p + crate::writer::comment_from(s, i, eu, le.to_bytes()).len() <= data.len(),
        forall|m: int|
            0 <= m < crate::writer::comment_from(s, i, eu, le.to_bytes()).len() ==> data[p + m]
                == crate::writer::comment_from(s, i, eu, le.to_bytes())[m],
    ensures
        forall|pb: bool, acc: Seq<u8>|
            #[trigger] scan(data, p, mid_comment_state(pb), acc) == scan_logical_line(
                data,
                p + crate::writer::comment_from(s, i, eu, le.to_bytes()).len(),
            ),
    decreases s.len() - i,
{
    let ending = le.to_bytes();
    let cf = crate::writer::comment_from(s, i, eu, ending);
    let q = p + cf.len();
    assert(1 <= ending.len() <= 2 && is_terminator(ending[0]));
    if i >= s.len() {
        assert(cf == ending);
        assert forall|pb: bool, acc: Seq<u8>| #[trigger]
            scan(data, p, mid_comment_state(pb), acc) == scan_logical_line(data, q) by {
            lemma_scan_over_ending(data, p, le, pb, acc);
        }
    } else {
        let c = s[i];
        if c == '\r' || c == '\n' {
            let j = if c == '\r' && i + 1 < s.len() && s[i + 1] == '\n' {
                i + 2
            } else {
                i + 1
            };
            let hash_part: Seq<u8> = if j < s.len() && s[j] != '#' {
                seq![crate::line::HASH_MARK]
            } else {
                Seq::<u8>::empty()
            };
            let cf_next = crate::writer::comment_from(s, j, eu, ending);
            assert(cf == ending + hash_part + cf_next);
            assert(cf =~= ending + (hash_part + cf_next));
            let r0 = p + ending.len();
            assert forall|m: int| 0 <= m < ending.len() implies data[p + m] == ending[m] by {
                assert(data[p + m] == cf[m]);
                assert(cf[m] == ending[m]);
            }
            assert forall|m: int|
                0 <= m < hash_part.len() + cf_next.len() implies data[r0 + m] == (hash_part
                + cf_next)[m] by {
                assert(data[p + (ending.len() + m)] == cf[ending.len() + m]);
                assert(cf[ending.len() + m] == (hash_part + cf_next)[m]);
            }
            if j < s.len() && s[j] != '#' {
                assert(data[r0 + 0] == (hash_part + cf_next)[0]);
                assert(data[r0] == crate::line::HASH_MARK);
                assert forall|m: int|
                    0 <= m < cf_next.len() implies data[r0 + 1 + m] == cf_next[m] by {
                    assert(data[r0 + (1 + m)] == (hash_part + cf_next)[1 + m]);
                }
                lemma_scan_comment_tail(data, r0 + 1, s, j, eu, le);
                assert forall|pb: bool, acc: Seq<u8>| #[trigger]
                    scan(data, p, mid_comment_state(pb), acc) == scan_logical_line(data, q) by {
                    lemma_scan_over_ending(data, p, le, pb, acc);
                    assert(scan(data, r0, initial_scan_state(), Seq::<u8>::empty()) == scan(
                        data,
                        r0 + 1,
                        mid_comment_state(false),
                        Seq::<u8>::empty(),
                    ));
                    assert(scan(data, r0 + 1, mid_comment_state(false), Seq::<u8>::empty())
                        == scan_logical_line(data, r0 + 1 + cf_next.len()));
                    assert(r0 + 1 + cf_next.len() == q);
                }
            } else if j < s.len() {
                // the source itself continues with `#`
                let inner = crate::writer::comment_from(s, j + 1, eu, ending);
                assert(s[j] == '#');
                assert(('#' as u32) == 0x23);
                assert(encode_scalar('#' as u32) =~= seq![crate::line::HASH_MARK]) by {
                    assert((0x23u32 & 0x7F) == 0x23) by (bit_vector);
                }
                assert(cf_next == encode_scalar('#' as u32) + inner);
                assert(data[r0 + 0] == (hash_part + cf_next)[0]);
                assert(data[r0] == cf_next[0] && cf_next[0] == crate::line::HASH_MARK);
                assert forall|m: int|
                    0 <= m < inner.len() implies data[r0 + 1 + m] == inner[m] by {
                    assert(data[r0 + (1 + m)] == (hash_part + cf_next)[1 + m]);
                    assert((hash_part + cf_next)[1 + m] == cf_next[1 + m]);
                    assert(cf_next[1 + m] == inner[m]);
                }
                lemma_scan_comment_tail(data, r0 + 1, s, j + 1, eu, le);
                assert forall|pb: bool, acc: Seq<u8>| #[trigger]
                    scan(data, p, mid_comment_state(pb), acc) == scan_logical_line(data, q) by {
                    lemma_scan_over_ending(data, p, le, pb, acc);
                    assert(scan(data, r0, initial_scan_state(), Seq::<u8>::empty()) == scan(
                        data,
                        r0 + 1,
                        mid_comment_state(false),
                        Seq::<u8>::empty(),
                    ));
                    assert(scan(data, r0 + 1, mid_comment_state(false), Seq::<u8>::empty())
                        == scan_logical_line(data, r0 + 1 + inner.len()));
                    assert(r0 + 1 + inner.len() == q);
                }
            } else {
                // the terminator ended the source: one closing blank line
                assert(j == s.len());
                assert(cf_next == ending);
                assert forall|m: int| 0 <= m < ending.len() implies data[r0 + m] == ending[m] by {
                    assert(data[r0 + m] == (hash_part + cf_next)[m]);
                }
                assert forall|pb: bool, acc: Seq<u8>| #[trigger]
                    scan(data, p, mid_comment_state(pb), acc) == scan_logical_line(data, q) by {
                    lemma_scan_over_ending(data, p, le, pb, acc);
                    lemma_scan_over_ending(data, r0, le, pb, acc);
                    assert(r0 + ending.len() == q);
                }
            }
        } else {
            let v = c as u32;
            vstd::utf8::char_is_scalar(c);
            assert(v != 0x0A && v != 0x0D) by {
                vstd::utf8::char_u32_cast(c, v);
                vstd::utf8::char_u32_cast('\n', '\n' as u32);
                vstd::utf8::char_u32_cast('\r', '\r' as u32);
            }
            let unit: Seq<u8> = if eu && v > 0x7F {
                unicode_escape(v as int)
            } else {
                encode_scalar(v)
            };
            let cf_next = crate::writer::comment_from(s, i + 1, eu, ending);
            assert(cf == unit + cf_next);
            if eu && v > 0x7F {
                lemma_unicode_escape_bytes(v);
                assert forall|m: int| p <= m < p + unit.len() implies !is_terminator(
                    #[trigger] data[m],
                ) by {
                    assert(data[p + (m - p)] == cf[m - p]);
                    assert(cf[m - p] == unit[m - p]);
                    assert(unit[m - p] == BACKSLASH || unit[m - p] == 0x75 || is_hex_upper_byte(
                        unit[m - p],
                    )) by {
                        if 2 <= m - p < 6 || (unit.len() == 12 && 8 <= m - p < 12) {
                        } else {
                            assert(unit[m - p] == BACKSLASH || unit[m - p] == 0x75);
                        }
                    }
                }
            } else {
                lemma_encode_scalar_no_terminator(v);
                assert forall|m: int| p <= m < p + unit.len() implies !is_terminator(
                    #[trigger] data[m],
                ) by {
                    assert(data[p + (m - p)] == cf[m - p]);
                    assert(cf[m - p] == unit[m - p]);
                }
            }
            assert forall|m: int|
                0 <= m < cf_next.len() implies data[p + unit.len() + m] == cf_next[m] by {
                assert(data[p + (unit.len() + m)] == cf[unit.len() + m]);
                assert(cf[unit.len() + m] == cf_next[m]);
            }
            lemma_scan_comment_tail(data, p + unit.len(), s, i + 1, eu, le);
            assert forall|pb: bool, acc: Seq<u8>| #[trigger]
                scan(data, p, mid_comment_state(pb), acc) == scan_logical_line(data, q) by {
                lemma_scan_comment_plain_run(
                    data,
                    p,
                    p + unit.len(),
                    pb,
                    acc,
                    scan_logical_line(data, q),
                );
            }
        }
    }
}


/// The whole comment block that `store` writes is invisible to the logical
/// line scanner: scanning resumes after it as if it were not there.
proof fn lemma_scan_comment_block(data: Seq<u8>, p: int, s: Seq<char>, eu: bool, le: LineEnding)
    requires
        0 <= p,
        p + crate::writer::comment_block(s, eu, le.to_bytes()).len() <= data.len(),
        forall|m: int|
            0 <= m < crate::writer::comment_block(s, eu, le.to_bytes()).len() ==> data[p + m]
                == crate::writer::comment_block(s, eu, le.to_bytes())[m],
    ensures
        scan_logical_line(data, p) == scan_logical_line(
            data,
            p + crate::writer::comment_block(s, eu, le.to_bytes()).len(),
        ),
{
    let ending = le.to_bytes();
    let block = crate::writer::comment_block(s, eu, ending);
    let cf = crate::writer::comment_from(s, 0, eu, ending);
    assert(block == seq![crate::line::HASH_MARK] + cf);
    assert(data[p + 0] == block[0] && block[0] == crate::line::HASH_MARK);
    assert forall|m: int| 0 <= m < cf.len() implies data[p + 1 + m] == cf[m] by {
        assert(data[p + (1 + m)] == block[1 + m]);
        assert(block[1 + m] == cf[m]);
    }
    lemma_scan_comment_tail(data, p + 1, s, 0, eu, le);
    assert((ScanState { skip_ws: true, fresh_line: true, comment: false, pending_backslash: false,
        ..mid_comment_state(false) }) == initial_scan_state());
    assert(scan(data, p, initial_scan_state(), Seq::<u8>::empty()) == scan(
        data,
        p + 1,
        mid_comment_state(false),
        Seq::<u8>::empty(),
    ));
    assert(scan(data, p + 1, mid_comment_state(false), Seq::<u8>::empty()) == scan_logical_line(
        data,
        p + 1 + cf.len(),
    ));
    assert(p + 1 + cf.len() == p + block.len());
}

/// The output of a non-empty entry sequence opens with its first entry's
/// line.
proof fn lemma_entries_output_head(es: Seq<(Seq<char>, Seq<char>)>, eu: bool, ending: Seq<u8>)
    requires
        es.len() > 0,
    ensures
        entries_output(es, eu, ending) == entry_line(es[0].0, es[0].1, eu, ending)
            + entries_output(es.drop_first(), eu, ending),
    decreases es.len(),
{
    let head = entry_line(es[0].0, es[0].1, eu, ending);
    if es.len() == 1 {
        assert(es.drop_last() =~= Seq::<(Seq<char>, Seq<char>)>::empty());
        assert(es.drop_first() =~= Seq::<(Seq<char>, Seq<char>)>::empty());
        assert(es.last() == es[0]);
        assert(Seq::<u8>::empty() + head =~= head + Seq::<u8>::empty());
    } else {
        let dl = es.drop_last();
        lemma_entries_output_head(dl, eu, ending);
        assert(dl[0] == es[0]);
        assert(es.drop_first().drop_last() =~= dl.drop_first());
        assert(es.drop_first().last() == es.last());
        let tail_line = entry_line(es.last().0, es.last().1, eu, ending);
        assert(entries_output(es.drop_first(), eu, ending) == entries_output(
            dl.drop_first(),
            eu,
            ending,
        ) + tail_line);
        assert((head + entries_output(dl.drop_first(), eu, ending)) + tail_line =~= head + (
        entries_output(dl.drop_first(), eu, ending) + tail_line));
    }
}

/// The body of one entry's output line — escaped key, `=`, escaped value —
/// is a line the scanner consumes literally.
proof fn lemma_entry_core_clean(k: Seq<char>, v: Seq<char>, eu: bool)
    ensures
        is_clean_line(escaped_bytes(k, true, eu) + seq![EQUALS_SIGN] + escaped_bytes(v, false, eu)),
{
    let ek = escaped_bytes(k, true, eu);
    let ev = escaped_bytes(v, false, eu);
    let core = ek + seq![EQUALS_SIGN] + ev;
    lemma_escape_from_bytes(k, 0, true, eu);
    lemma_escape_from_bytes(v, 0, false, eu);
    assert forall|m: int| 0 <= m < core.len() implies is_plain_byte(#[trigger] core[m]) by {
        if m < ek.len() {
            assert(core[m] == ek[m]);
        } else if m == ek.len() {
            assert(core[m] == EQUALS_SIGN);
        } else {
            assert(core[m] == ev[m - ek.len() - 1]);
        }
    }
    assert(trailing_backslashes(seq![EQUALS_SIGN]) == 0);
    lemma_trailing_concat(ek, seq![EQUALS_SIGN]);
    lemma_trailing_concat(ek + seq![EQUALS_SIGN], ev);
    assert(core =~= (ek + seq![EQUALS_SIGN]) + ev);
    crate::decode::lemma_trailing_bounds(ev);
    if k.len() > 0 {
        assert(core[0] == ek[0]);
    } else {
        assert(ek.len() == 0);
        assert(core[0] == EQUALS_SIGN);
    }
}

/// Each entry of `es`, inserted into `m` in order.
pub open spec fn insert_entries(
    m: Map<Seq<char>, Seq<char>>,
    es: Seq<(Seq<char>, Seq<char>)>,
) -> Map<Seq<char>, Seq<char>>
    decreases es.len(),
{
    if es.len() == 0 {
        m
    } else {
        insert_entries(m.insert(es[0].0, es[0].1), es.drop_first())
    }
}

proof fn lemma_insert_entries_push(
    m: Map<Seq<char>, Seq<char>>,
    es: Seq<(Seq<char>, Seq<char>)>,
    e: (Seq<char>, Seq<char>),
)
    ensures
        insert_entries(m, es.push(e)) == insert_entries(m, es).insert(e.0, e.1),
    decreases es.len(),
{
    if es.len() == 0 {
        assert(es.push(e)[0] == e);
        assert(es.push(e).drop_first() =~= Seq::<(Seq<char>, Seq<char>)>::empty());
        assert(insert_entries(m, es.push(e)) == insert_entries(
            m.insert(e.0, e.1),
            Seq::<(Seq<char>, Seq<char>)>::empty(),
        ));
        assert(insert_entries(m.insert(e.0, e.1), Seq::<(Seq<char>, Seq<char>)>::empty())
            == m.insert(e.0, e.1));
        assert(insert_entries(m, es) == m);
    } else {
        assert(es.push(e)[0] == es[0]);
        assert(es.push(e).drop_first() =~= es.drop_first().push(e));
        let m1 = m.insert(es[0].0, es[0].1);
        assert(insert_entries(m, es.push(e)) == insert_entries(m1, es.drop_first().push(e)));
        lemma_insert_entries_push(m1, es.drop_first(), e);
        assert(insert_entries(m, es) == insert_entries(m1, es.drop_first()));
    }
}

/// Inserting the entries in order builds the same mapping as the last-wins
/// fold that the mapping's view uses.
proof fn lemma_insert_entries_map(es: Seq<(Seq<char>, Seq<char>)>)
    ensures
        insert_entries(Map::empty(), es) == map_of_entries(es),
    decreases es.len(),
{
    if es.len() > 0 {
        lemma_insert_entries_map(es.drop_last());
        assert(es.drop_last().push(es.last()) =~= es);
        lemma_insert_entries_push(Map::empty(), es.drop_last(), es.last());
    }
}

/// A lone line feed at the scan position — the second half of a `\r\n`
/// terminator — is dropped before the next logical line.
proof fn lemma_load_skip_line_feed(data: Seq<u8>, p: int, m: Map<Seq<char>, Seq<char>>)
    requires
        0 <= p < data.len(),
        data[p] == 0x0A,
    ensures
        load_outcome(data, p, m) == load_outcome(data, p + 1, m),
{
    assert(scan_logical_line(data, p) == scan_logical_line(data, p + 1)) by {
        assert((ScanState { skip_lf: false, ..initial_scan_state() }) == initial_scan_state());
    }
    let (line2, j2) = scan_logical_line(data, p + 1);
    if line2.len() > 0 {
        crate::line::lemma_scan_progress(data, p + 1);
    }
}

/// Loading one stored entry line inserts exactly that entry and moves the
/// parse past the line and its first terminator byte.
#[verifier::rlimit(100)]
proof fn lemma_load_one_entry(
    data: Seq<u8>,
    p: int,
    k: Seq<char>,
    v: Seq<char>,
    m: Map<Seq<char>, Seq<char>>,
    tail: Seq<u8>,
    eu: bool,
    le: LineEnding,
)
    requires
        0 <= p <= data.len(),
        data.skip(p) == entry_line(k, v, eu, le.to_bytes()) + tail,
    ensures
        ({
            let core_len = entry_line(k, v, eu, le.to_bytes()).len() - le.to_bytes().len();
            let j = p + core_len + 1;
            &&& p < j <= data.len()
            &&& load_outcome(data, p, m) == load_outcome(data, j, m.insert(k, v))
            &&& (le is CrLf ==> data.skip(j) == seq![0x0Au8] + tail && j < data.len())
            &&& (!(le is CrLf) ==> data.skip(j) == tail)
        }),
{
    let ending = le.to_bytes();
    let ek = escaped_bytes(k, true, eu);
    let ev = escaped_bytes(v, false, eu);
    let core = ek + seq![EQUALS_SIGN] + ev;
    assert(entry_line(k, v, eu, ending) =~= core + ending);
    assert(data.skip(p) =~= (core + ending) + tail);
    lemma_entry_core_clean(k, v, eu);
    assert(1 <= ending.len() <= 2 && is_terminator(ending[0]));
    assert(data.skip(p).len() == core.len() + ending.len() + tail.len());
    assert(p + core.len() < data.len());
    assert forall|m2: int| 0 <= m2 < core.len() implies data[p + m2] == core[m2] by {
        assert(data.skip(p)[m2] == data[m2 + p]);
        assert(((core + ending) + tail)[m2] == core[m2]);
    }
    assert(data[p + core.len()] == ending[0]) by {
        assert(data.skip(p)[core.len() as int] == data[p + core.len()]);
        assert(((core + ending) + tail)[core.len() as int] == ending[0]);
    }
    lemma_scan_clean_line(data, p, core);
    lemma_split_entry_line(k, v, eu);
    crate::laws::lemma_escape_unescape_round_trip(k, true, eu);
    crate::laws::lemma_escape_unescape_round_trip(v, false, eu);
    let j = p + core.len() + 1;
    assert(load_outcome(data, p, m) == load_outcome(data, j, m.insert(k, v)));
    if le is CrLf {
        assert(data[j] == 0x0A) by {
            assert(data.skip(p)[core.len() as int + 1] == data[p + (core.len() + 1)]);
            assert(((core + ending) + tail)[core.len() as int + 1] == ending[1]);
        }
        assert forall|i2: int| 0 <= i2 < tail.len() implies data.skip(j)[1 + i2] == tail[i2] by {
            assert(data.skip(p)[core.len() as int + 2 + i2] == data[p + (core.len() + 2 + i2)]);
            assert(((core + ending) + tail)[core.len() as int + 2 + i2] == tail[i2]);
        }
        assert(data.skip(j)[0] == data[j]);
        assert(data.skip(j).len() == 1 + tail.len());
        assert(data.skip(j) =~= seq![0x0Au8] + tail);
    } else {
        assert forall|i2: int| 0 <= i2 < tail.len() implies data.skip(j)[i2] == tail[i2] by {
            assert(data.skip(p)[core.len() as int + 1 + i2] == data[p + (core.len() + 1 + i2)]);
            assert(((core + ending) + tail)[core.len() as int + 1 + i2] == tail[i2]);
        }
        assert(data.skip(j).len() == tail.len());
        assert(data.skip(j) =~= tail);
    }
}

/// Loading input that consists of the output lines of `es` inserts exactly
/// the entries of `es`, in order, and raises no error.
proof fn lemma_load_entry_lines(
    data: Seq<u8>,
    p: int,
    es: Seq<(Seq<char>, Seq<char>)>,
    m: Map<Seq<char>, Seq<char>>,
    eu: bool,
    le: LineEnding,
)
    requires
        0 <= p <= data.len(),
        data.skip(p) == entries_output(es, eu, le.to_bytes()),
    ensures
        load_outcome(data, p, m) == (insert_entries(m, es), None::<PropertiesError>),
    decreases data.len() - p,
{
    if es.len() == 0 {
        assert(data.skip(p).len() == 0);
        assert(p == data.len());
        assert(scan_logical_line(data, p) == (Seq::<u8>::empty(), p));
    } else {
        let k = es[0].0;
        let v = es[0].1;
        let rest = entries_output(es.drop_first(), eu, le.to_bytes());
        lemma_entries_output_head(es, eu, le.to_bytes());
        lemma_load_one_entry(data, p, k, v, m, rest, eu, le);
        let core_len = entry_line(k, v, eu, le.to_bytes()).len() - le.to_bytes().len();
        let j = p + core_len + 1;
        let m2 = m.insert(k, v);
        if le is CrLf {
            assert(data.skip(j)[0] == data[j + 0]);
            assert(data[j] == 0x0A);
            lemma_load_skip_line_feed(data, j, m2);
            assert(data.skip(j).skip(1) =~= data.skip(j + 1));
            assert((seq![0x0Au8] + rest).skip(1) =~= rest);
            assert(data.skip(j + 1) == rest);
            lemma_load_entry_lines(data, j + 1, es.drop_first(), m2, eu, le);
        } else {
            lemma_load_entry_lines(data, j, es.drop_first(), m2, eu, le);
        }
    }
}

/// Idempotence: the bytes `store` writes for a mapping — comment block
/// included, under any line ending and either escape-unicode setting — load
/// back into exactly that mapping, with no error. A key whose raw on-disk
/// form required escaping decodes back to the same key, and the comment
/// lines are skipped whole.
pub proof fn lemma_store_load_round_trip(
    es: Seq<(Seq<char>, Seq<char>)>,
    comments: Seq<char>,
    eu: bool,
    le: LineEnding,
)
    ensures
        load_outcome(store_output(es, comments, eu, le.to_bytes()), 0, Map::empty()) == (
            map_of_entries(es),
            None::<PropertiesError>,
        ),
{
    let ending = le.to_bytes();
    let data = store_output(es, comments, eu, ending);
    let eo = entries_output(es, eu, ending);
    if comments.len() == 0 {
        assert(data =~= eo);
        assert(data.skip(0) =~= data);
        lemma_load_entry_lines(data, 0, es, Map::empty(), eu, le);
    } else {
        let block = crate::writer::comment_block(comments, eu, ending);
        assert(data == block + eo);
        let b = block.len() as int;
        assert(b >= 1);
        assert forall|m: int| 0 <= m < b implies data[0 + m] == block[m] by {
            assert(data[0 + m] == (block + eo)[0 + m]);
        }
        lemma_scan_comment_block(data, 0, comments, eu, le);
        assert(load_outcome(data, 0, Map::<Seq<char>, Seq<char>>::empty()) == load_outcome(
            data,
            b,
            Map::<Seq<char>, Seq<char>>::empty(),
        )) by {
            let (line1, j1) = scan_logical_line(data, b);
            if line1.len() > 0 {
                crate::line::lemma_scan_progress(data, b);
            }
        }
        assert(data.skip(b) =~= eo) by {
            assert(data.skip(b).len() == eo.len());
            assert forall|i: int| 0 <= i < eo.len() implies data.skip(b)[i] == eo[i] by {
                assert(data.skip(b)[i] == data[i + b]);
                assert((block + eo)[b + i] == eo[i]);
            }
        }
        lemma_load_entry_lines(data, b, es, Map::empty(), eu, le);
    }
    lemma_insert_entries_map(es);
}

/// The same law phrased against a mapping: the bytes `store` appends for
/// `p` (its ensures names them through [`store_output`]) load back, into an
/// empty mapping, as exactly `p`'s view.
pub proof fn lemma_store_load_reproduces_mapping(
    p: &crate::props::Properties,
    comments: Seq<char>,
    eu: bool,
    le: LineEnding,
)
    ensures
        load_outcome(store_output(p.entries_seq(), comments, eu, le.to_bytes()), 0, Map::empty())
            == (p@, None::<PropertiesError>),
{
    lemma_store_load_round_trip(p.entries_seq(), comments, eu, le);
}

} // verus!
