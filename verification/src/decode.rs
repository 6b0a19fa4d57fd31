//! Decoding of backslash escapes, the reverse of the on-disk escaping.
//!
//! A raw key or value span may contain short escapes (`\t`, `\n`, `\r`,
//! `\f`, and `\x` for any other `x`, which drops the backslash) and `\uXXXX`
//! escapes with exactly four case-insensitive hex digits. A `\u` escape in
//! the high surrogate range must be followed immediately by a second `\u`
//! escape in the low surrogate range; the pair combines into one code point
//! at or above `U+10000`.

use vstd::prelude::*;
use vstd::utf8::{encode_scalar, is_scalar};
use crate::errors::PropertiesError;

verus! {

/// The backslash byte, `\`.
pub const BACKSLASH: u8 = 0x5c;

/// True for an ASCII hex digit, either case.
pub open spec fn is_hex_digit(b: u8) -> bool {
    (0x30 <= b <= 0x39) || (0x61 <= b <= 0x66) || (0x41 <= b <= 0x46)
}

/// The numeric value of one hex digit.
pub open spec fn hex_digit_value(b: u8) -> u32
    recommends
        is_hex_digit(b),
{
    if 0x30 <= b <= 0x39 {
        (b - 0x30) as u32
    } else if 0x61 <= b <= 0x66 {
        (b - 0x61 + 10) as u32
    } else {
        (b - 0x41 + 10) as u32
    }
}

/// True when every byte of `s` is a hex digit.
pub open spec fn all_hex_digits(s: Seq<u8>) -> bool {
    forall|i: int| 0 <= i < s.len() ==> is_hex_digit(#[trigger] s[i])
}

/// The value of a big-endian string of hex digits.
pub open spec fn hex_value(s: Seq<u8>) -> int
    recommends
        all_hex_digits(s),
    decreases s.len(),
{
    if s.len() == 0 {
        0
    } else {
        hex_value(s.drop_last()) * 16 + hex_digit_value(s.last())
    }
}

/// Decode a span of exactly four hex digits into a 16-bit code unit.
///
/// Succeeds exactly when every byte is a hex digit; any other byte yields
/// [`PropertiesError::InvalidHexDigit`].
pub fn decode_unicode(data: &[u8]) -> (r: Result<u32, PropertiesError>)
    requires
        data@.len() == 4,
    ensures
        r is Ok <==> all_hex_digits(data@),
        r is Ok ==> r->Ok_0 == hex_value(data@) && r->Ok_0 <= 0xFFFF,
        r is Err ==> r->Err_0 == PropertiesError::InvalidHexDigit,
{
    let mut val: u32 = 0;
    let mut i: usize = 0;
    while i < 4
        invariant
            0 <= i <= 4,
            data@.len() == 4,
            all_hex_digits(data@.take(i as int)),
            val == hex_value(data@.take(i as int)),
            val < 0x10000,
        decreases 4 - i,
    {
        let c = data[i];
        let d: u32 = if 0x30 <= c && c <= 0x39 {
            (c - 0x30) as u32
        } else if 0x61 <= c && c <= 0x66 {
            (c - 0x61) as u32 + 10
        } else if 0x41 <= c && c <= 0x46 {
            (c - 0x41) as u32 + 10
        } else {
            return Err(PropertiesError::InvalidHexDigit);
        };
        proof {
            let pre = data@.take(i as int);
            let next = data@.take(i as int + 1);
            assert(next.drop_last() =~= pre);
            assert(next.last() == data@[i as int]);
            lemma_hex_value_bound(pre);
        }
        val = val * 16 + d;
        i = i + 1;
    }
    proof {
        assert(data@.take(4) =~= data@);
        lemma_hex_value_bound(data@);
    }
    Ok(val)
}

/// A string of at most four hex digits is below `0x10000`.
proof fn lemma_hex_value_bound(s: Seq<u8>)
    requires
        all_hex_digits(s),
        s.len() <= 4,
    ensures
        0 <= hex_value(s) < 0x10000,
        s.len() <= 3 ==> hex_value(s) < 0x1000,
        s.len() <= 2 ==> hex_value(s) < 0x100,
        s.len() <= 1 ==> hex_value(s) < 0x10,
    decreases s.len(),
{
    if s.len() > 0 {
        assert(all_hex_digits(s.drop_last())) by {
            assert(forall|i: int| 0 <= i < s.len() - 1 ==> s.drop_last()[i] == #[trigger] s[i]);
        }
        lemma_hex_value_bound(s.drop_last());
        assert(hex_digit_value(s.last()) < 16);
    }
}

/// The length of the run of backslashes at the end of `b`.
pub open spec fn trailing_backslashes(b: Seq<u8>) -> int
    decreases b.len(),
{
    if b.len() == 0 {
        0
    } else if b.last() != BACKSLASH {
        0
    } else {
        1 + trailing_backslashes(b.drop_last())
    }
}

/// True when `b` does not end in an odd run of backslashes. Every logical
/// line the line reader produces has this shape, and the escape decoder
/// relies on it: a lone backslash at the very end would have no character to
/// escape.
pub open spec fn even_trailing_backslashes(b: Seq<u8>) -> bool {
    trailing_backslashes(b) % 2 == 0
}

pub proof fn lemma_trailing_bounds(b: Seq<u8>)
    ensures
        0 <= trailing_backslashes(b) <= b.len(),
    decreases b.len(),
{
    if b.len() > 0 && b.last() == BACKSLASH {
        lemma_trailing_bounds(b.drop_last());
    }
}

/// Every index inside the trailing run holds a backslash.
proof fn lemma_trailing_run(b: Seq<u8>, i: int)
    requires
        b.len() - trailing_backslashes(b) <= i < b.len(),
    ensures
        b[i] == BACKSLASH,
    decreases b.len(),
{
    lemma_trailing_bounds(b);
    if i == b.len() - 1 {
    } else {
        lemma_trailing_run(b.drop_last(), i);
    }
}

/// The byte just before the trailing run is not a backslash.
proof fn lemma_trailing_tight(b: Seq<u8>)
    requires
        trailing_backslashes(b) < b.len(),
    ensures
        b[b.len() - 1 - trailing_backslashes(b)] != BACKSLASH,
    decreases b.len(),
{
    lemma_trailing_bounds(b);
    if b.last() == BACKSLASH {
        let d = b.drop_last();
        assert(trailing_backslashes(b) == 1 + trailing_backslashes(d));
        lemma_trailing_bounds(d);
        lemma_trailing_tight(d);
        assert(b[b.len() - 1 - trailing_backslashes(b)] == d[d.len() - 1 - trailing_backslashes(
            d,
        )]);
    }
}

/// Dropping a prefix that stops short of the trailing run keeps the run.
proof fn lemma_trailing_skip(b: Seq<u8>, k: int)
    requires
        0 <= k,
        k + trailing_backslashes(b) <= b.len(),
    ensures
        trailing_backslashes(b.skip(k)) == trailing_backslashes(b),
    decreases b.len(),
{
    lemma_trailing_bounds(b);
    if b.len() == 0 || k == b.len() {
        assert(b.skip(k) =~= Seq::<u8>::empty());
    } else if b.last() != BACKSLASH {
        assert(b.skip(k).len() > 0 ==> b.skip(k).last() == b.last());
    } else {
        assert(b.skip(k).drop_last() =~= b.drop_last().skip(k));
        lemma_trailing_skip(b.drop_last(), k);
        assert(b.skip(k).last() == b.last());
    }
}

/// A sequence of backslashes is all trailing run.
proof fn lemma_trailing_all(b: Seq<u8>)
    requires
        forall|i: int| 0 <= i < b.len() ==> b[i] == BACKSLASH,
    ensures
        trailing_backslashes(b) == b.len(),
    decreases b.len(),
{
    if b.len() > 0 {
        lemma_trailing_all(b.drop_last());
    }
}

/// An even-ended sequence starting with a backslash has a second byte.
pub proof fn lemma_even_head_backslash(b: Seq<u8>)
    requires
        even_trailing_backslashes(b),
        b.len() > 0,
        b[0] == BACKSLASH,
    ensures
        b.len() >= 2,
{
    if b.len() == 1 {
        assert(b.drop_last() =~= Seq::<u8>::empty());
        assert(trailing_backslashes(Seq::<u8>::empty()) == 0);
        assert(trailing_backslashes(b) == 1);
    }
}

/// Consuming through a non-backslash byte keeps the trailing run even.
pub proof fn lemma_even_skip(b: Seq<u8>, k: int)
    requires
        even_trailing_backslashes(b),
        1 <= k <= b.len(),
        b[k - 1] != BACKSLASH,
    ensures
        even_trailing_backslashes(b.skip(k)),
{
    lemma_trailing_bounds(b);
    if k + trailing_backslashes(b) > b.len() {
        lemma_trailing_run(b, k - 1);
    }
    lemma_trailing_skip(b, k);
}

/// Consuming an escaped backslash pair keeps the trailing run even.
pub proof fn lemma_even_skip_pair(b: Seq<u8>)
    requires
        even_trailing_backslashes(b),
        b.len() >= 2,
        b[0] == BACKSLASH,
        b[1] == BACKSLASH,
    ensures
        even_trailing_backslashes(b.skip(2)),
{
    lemma_trailing_bounds(b);
    let t = trailing_backslashes(b);
    if t == b.len() {
        assert forall|i: int| 0 <= i < b.skip(2).len() implies b.skip(2)[i] == BACKSLASH by {
            lemma_trailing_run(b, i + 2);
        }
        lemma_trailing_all(b.skip(2));
    } else {
        lemma_trailing_tight(b);
        if t == b.len() - 1 {
            assert(b[0] != BACKSLASH);
        }
        lemma_trailing_skip(b, 2);
    }
}

/// Prepend already-decoded bytes onto the outcome of decoding a suffix.
pub open spec fn prefixed(pre: Seq<u8>, r: Result<Seq<u8>, PropertiesError>) -> Result<
    Seq<u8>,
    PropertiesError,
> {
    match r {
        Ok(t) => Ok(pre + t),
        Err(e) => Err(e),
    }
}

/// The code point formed by a UTF-16 surrogate pair.
pub open spec fn combine_surrogates(hi: u32, lo: u32) -> u32
    recommends
        0xD800 <= hi <= 0xDBFF,
        0xDC00 <= lo <= 0xDFFF,
{
    (0x10000 + (hi - 0xD800) * 0x400 + (lo - 0xDC00)) as u32
}

/// The byte a two-character escape decodes to: `\t`, `\r`, `\n` and `\f`
/// name control characters; any other escaped byte stands for itself.
pub open spec fn short_unescape(b: u8) -> u8 {
    if b == 0x74 {
        0x09
    } else if b == 0x72 {
        0x0D
    } else if b == 0x6E {
        0x0A
    } else if b == 0x66 {
        0x0C
    } else {
        b
    }
}

/// What decoding the escapes of `b` yields: the decoded UTF-8 bytes, or the
/// first error, scanning left to right.
///
/// A lone backslash at the very end is defined here as dropped; the decoder
/// itself excludes that input, and the line reader never produces it.
pub open spec fn unescaped(b: Seq<u8>) -> Result<Seq<u8>, PropertiesError>
    decreases b.len(),
{
    if b.len() == 0 {
        Ok(Seq::empty())
    } else if b[0] != BACKSLASH {
        prefixed(seq![b[0]], unescaped(b.skip(1)))
    } else if b.len() < 2 {
        Ok(Seq::empty())
    } else if b[1] == 0x75 {
        if b.len() < 6 {
            Err(PropertiesError::TruncatedUnicodeEscape { in_surrogate_pair: false })
        } else if !all_hex_digits(b.subrange(2, 6)) {
            Err(PropertiesError::InvalidHexDigit)
        } else {
            let v = hex_value(b.subrange(2, 6)) as u32;
            if 0xD800 <= v <= 0xDBFF {
                if b.len() < 12 {
                    Err(PropertiesError::TruncatedUnicodeEscape { in_surrogate_pair: true })
                } else if b[6] != BACKSLASH || b[7] != 0x75 {
                    Err(PropertiesError::UnpairedHighSurrogate)
                } else if !all_hex_digits(b.subrange(8, 12)) {
                    Err(PropertiesError::InvalidHexDigit)
                } else {
                    let w = hex_value(b.subrange(8, 12)) as u32;
                    if !(0xDC00 <= w <= 0xDFFF) {
                        Err(PropertiesError::InvalidLowSurrogate)
                    } else {
                        prefixed(encode_scalar(combine_surrogates(v, w)), unescaped(b.skip(12)))
                    }
                }
            } else if 0xDC00 <= v <= 0xDFFF {
                unescaped(b.skip(6))
            } else {
                prefixed(encode_scalar(v), unescaped(b.skip(6)))
            }
        }
    } else {
        prefixed(seq![short_unescape(b[1])], unescaped(b.skip(2)))
    }
}

/// Decoded bytes prefixed onto an outcome: nothing prepended changes nothing.
pub proof fn lemma_prefixed_empty(r: Result<Seq<u8>, PropertiesError>)
    ensures
        prefixed(Seq::empty(), r) == r,
{
    match r {
        Ok(t) => {
            assert(Seq::<u8>::empty() + t =~= t);
        },
        Err(_) => {},
    }
}

/// Prefixing twice is prefixing the concatenation.
pub proof fn lemma_prefixed_chain(done: Seq<u8>, emitted: Seq<u8>, rest: Result<Seq<u8>, PropertiesError>)
    ensures
        prefixed(done, prefixed(emitted, rest)) == prefixed(done + emitted, rest),
{
    match rest {
        Ok(t) => {
            assert(done + (emitted + t) =~= (done + emitted) + t);
        },
        Err(_) => {},
    }
}

/// Decode all backslash escapes in `data` into UTF-8 bytes.
///
/// Returns the decoded bytes, or the first decode error from left to right;
/// [`unescaped`] states the result exactly.
#[verifier::rlimit(100)]
pub fn load_convert(data: &[u8]) -> (r: Result<Vec<u8>, PropertiesError>)
    requires
        even_trailing_backslashes(data@),
    ensures
        r is Ok ==> unescaped(data@) == Ok::<Seq<u8>, PropertiesError>(r->Ok_0@),
        r is Err ==> unescaped(data@) == Err::<Seq<u8>, PropertiesError>(r->Err_0),
{
    let mut result: Vec<u8> = Vec::new();
    let mut idx: usize = 0;
    let end = data.len();
    proof {
        assert(data@.skip(0) =~= data@);
        lemma_prefixed_empty(unescaped(data@));
    }
    while idx < end
        invariant
            0 <= idx <= end,
            end == data@.len(),
            even_trailing_backslashes(data@.skip(idx as int)),
            unescaped(data@) == prefixed(result@, unescaped(data@.skip(idx as int))),
        decreases end - idx,
    {
        let ghost rem = data@.skip(idx as int);
        let ghost done = result@;
        let c = data[idx];
        proof {
            assert(rem[0] == c);
        }
        if c != BACKSLASH {
            result.push(c);
            idx = idx + 1;
            proof {
                assert(rem.skip(1) =~= data@.skip(idx as int));
                lemma_even_skip(rem, 1);
                lemma_prefixed_chain(done, seq![c], unescaped(rem.skip(1)));
                assert(done + seq![c] =~= result@);
            }
        } else {
            proof {
                lemma_even_head_backslash(rem);
                assert(rem[1] == data@[idx + 1]);
            }
            let c2 = data[idx + 1];
            if c2 == 0x75 {
                if end - idx < 6 {
                    proof {
                        assert(rem.len() < 6);
                    }
                    return Err(
                        PropertiesError::TruncatedUnicodeEscape { in_surrogate_pair: false },
                    );
                }
                let quad = vstd::slice::slice_subrange(data, idx + 2, idx + 6);
                proof {
                    assert(quad@ =~= rem.subrange(2, 6));
                }
                let val = match decode_unicode(quad) {
                    Ok(v) => v,
                    Err(e) => {
                        return Err(e);
                    },
                };
                if 0xD800 <= val && val <= 0xDBFF {
                    if end - idx < 12 {
                        proof {
                            assert(rem.len() < 12);
                        }
                        return Err(
                            PropertiesError::TruncatedUnicodeEscape { in_surrogate_pair: true },
                        );
                    }
                    proof {
                        assert(rem[6] == data@[idx + 6] && rem[7] == data@[idx + 7]);
                    }
                    if data[idx + 6] != BACKSLASH || data[idx + 7] != 0x75 {
                        return Err(PropertiesError::UnpairedHighSurrogate);
                    }
                    let quad2 = vstd::slice::slice_subrange(data, idx + 8, idx + 12);
                    proof {
                        assert(quad2@ =~= rem.subrange(8, 12));
                    }
                    let w = match decode_unicode(quad2) {
                        Ok(v) => v,
                        Err(e) => {
                            return Err(e);
                        },
                    };
                    if w < 0xDC00 || w > 0xDFFF {
                        return Err(PropertiesError::InvalidLowSurrogate);
                    }
                    let scalar = 0x10000 + (val - 0xD800) * 0x400 + (w - 0xDC00);
                    push_scalar_bytes(&mut result, scalar);
                    idx = idx + 12;
                    proof {
                        assert(rem.skip(12) =~= data@.skip(idx as int));
                        assert(is_hex_digit(rem.subrange(8, 12)[3]) && rem[11] == rem.subrange(
                            8,
                            12,
                        )[3]);
                        lemma_even_skip(rem, 12);
                        lemma_prefixed_chain(done, encode_scalar(scalar), unescaped(rem.skip(12)));
                    }
                } else {
                    if val < 0xDC00 || val > 0xDFFF {
                        push_scalar_bytes(&mut result, val);
                    }
                    idx = idx + 6;
                    proof {
                        assert(rem.skip(6) =~= data@.skip(idx as int));
                        assert(is_hex_digit(rem.subrange(2, 6)[3]) && rem[5] == rem.subrange(
                            2,
                            6,
                        )[3]);
                        lemma_even_skip(rem, 6);
                        if val < 0xDC00 || val > 0xDFFF {
                            lemma_prefixed_chain(done, encode_scalar(val), unescaped(rem.skip(6)));
                        } else {
                            assert(result@ =~= done + Seq::<u8>::empty());
                            lemma_prefixed_chain(done, Seq::empty(), unescaped(rem.skip(6)));
                        }
                    }
                }
            } else {
                let decoded: u8 = if c2 == 0x74 {
                    0x09
                } else if c2 == 0x72 {
                    0x0D
                } else if c2 == 0x6E {
                    0x0A
                } else if c2 == 0x66 {
                    0x0C
                } else {
                    c2
                };
                result.push(decoded);
                idx = idx + 2;
                proof {
                    assert(rem.skip(2) =~= data@.skip(idx as int));
                    if c2 == BACKSLASH {
                        lemma_even_skip_pair(rem);
                    } else {
                        lemma_even_skip(rem, 2);
                    }
                    lemma_prefixed_chain(done, seq![short_unescape(rem[1])], unescaped(rem.skip(2)));
                    assert(done + seq![short_unescape(rem[1])] =~= result@);
                }
            }
        }
    }
    proof {
        assert(data@.skip(end as int) =~= Seq::<u8>::empty());
        assert(result@ + Seq::<u8>::empty() =~= result@);
    }
    Ok(result)
}

/// Append the UTF-8 encoding of the scalar `v` to `out`.
pub fn push_scalar_bytes(out: &mut Vec<u8>, v: u32)
    requires
        is_scalar(v),
    ensures
        final(out)@ == old(out)@ + encode_scalar(v),
{
    if v <= 0x7F {
        out.push((v & 0x7F) as u8);
        proof {
            assert(final(out)@ =~= old(out)@ + encode_scalar(v));
        }
    } else if v <= 0x7FF {
        assert((v >> 6) & 0x1F <= 0x1F && v & 0x3F <= 0x3F) by (bit_vector);
        out.push(0xC0 | ((v >> 6) & 0x1F) as u8);
        out.push(0x80 | (v & 0x3F) as u8);
        proof {
            assert(final(out)@ =~= old(out)@ + encode_scalar(v));
        }
    } else if v <= 0xFFFF {
        assert((v >> 12) & 0x0F <= 0x0F && (v >> 6) & 0x3F <= 0x3F && v & 0x3F <= 0x3F)
            by (bit_vector);
        out.push(0xE0 | ((v >> 12) & 0x0F) as u8);
        out.push(0x80 | ((v >> 6) & 0x3F) as u8);
        out.push(0x80 | (v & 0x3F) as u8);
        proof {
            assert(final(out)@ =~= old(out)@ + encode_scalar(v));
        }
    } else {
        assert((v >> 18) & 0x7 <= 0x7 && (v >> 12) & 0x3F <= 0x3F && (v >> 6) & 0x3F <= 0x3F && v
            & 0x3F <= 0x3F) by (bit_vector);
        out.push(0xF0 | ((v >> 18) & 0x7) as u8);
        out.push(0x80 | ((v >> 12) & 0x3F) as u8);
        out.push(0x80 | ((v >> 6) & 0x3F) as u8);
        out.push(0x80 | (v & 0x3F) as u8);
        proof {
            assert(final(out)@ =~= old(out)@ + encode_scalar(v));
        }
    }
}

} // verus!
