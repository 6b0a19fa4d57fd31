//! Splitting a logical line into a key and a value, and the top-level
//! `load`.

use vstd::prelude::*;
use vstd::utf8::{decode_utf8, encode_utf8, valid_utf8};
use crate::decode::{
    BACKSLASH, even_trailing_backslashes, load_convert, trailing_backslashes, unescaped,
};
use crate::errors::PropertiesError;
use crate::line::{LineReader, is_line_whitespace, scan_logical_line, lemma_scan_progress,
    lemma_scan_line_even};
use crate::props::Properties;

verus! {

/// The `=` separator byte.
pub const EQUALS_SIGN: u8 = 0x3D;

/// The `:` separator byte.
pub const COLON_SIGN: u8 = 0x3A;

/// A key/value separator: `=` or `:`.
pub open spec fn is_separator(c: u8) -> bool {
    c == EQUALS_SIGN || c == COLON_SIGN
}

/// What ended the scan of a line's key region.
pub enum KeyStop {
    /// An unescaped `=` or `:`; the separator is consumed.
    Separator,
    /// Unescaped whitespace; a separator may still follow.
    Whitespace,
    /// The whole line is key; the value is empty.
    Missing,
}

/// Scan of the key region: from position `i` with backslash-parity `bs`,
/// the key's length and what ended it. An unescaped separator or whitespace
/// byte ends the key; backslashes escape in cancelling pairs.
pub open spec fn find_key_end(line: Seq<u8>, i: int, bs: bool) -> (int, KeyStop)
    decreases line.len() - i,
{
    if i < 0 || i >= line.len() {
        (line.len() as int, KeyStop::Missing)
    } else {
        let c = line[i];
        if is_separator(c) && !bs {
            (i, KeyStop::Separator)
        } else if is_line_whitespace(c) && !bs {
            (i, KeyStop::Whitespace)
        } else {
            find_key_end(line, i + 1, if c == BACKSLASH {
                !bs
            } else {
                false
            })
        }
    }
}

/// Where the value begins: from position `j`, skip whitespace, and consume
/// at most one separator if none was consumed with the key.
pub open spec fn find_value_start(line: Seq<u8>, j: int, has_sep: bool) -> int
    decreases line.len() - j,
{
    if j < 0 || j >= line.len() {
        line.len() as int
    } else {
        let c = line[j];
        if is_line_whitespace(c) {
            find_value_start(line, j + 1, has_sep)
        } else if !has_sep && is_separator(c) {
            find_value_start(line, j + 1, true)
        } else {
            j
        }
    }
}

/// A logical line split into its raw key span and raw value span. A line
/// that is all key has an empty value.
pub open spec fn split_line(line: Seq<u8>) -> (Seq<u8>, Seq<u8>) {
    let (key_len, stop) = find_key_end(line, 0, false);
    match stop {
        KeyStop::Missing => (line, Seq::empty()),
        _ => {
            let vs = find_value_start(line, key_len + 1, stop is Separator);
            (line.take(key_len), line.skip(vs))
        },
    }
}

/// The key scan stays in bounds; when it stops it stops on the unescaped
/// byte it reports, with an even run of backslashes before it.
proof fn lemma_find_key_end(line: Seq<u8>, i: int, bs: bool)
    requires
        0 <= i <= line.len(),
        bs <==> trailing_backslashes(line.take(i)) % 2 == 1,
    ensures
        ({
            let (k, stop) = find_key_end(line, i, bs);
            &&& i <= k <= line.len()
            &&& (stop is Missing <==> k == line.len())
            &&& (stop is Separator ==> k < line.len() && is_separator(line[k])
                && even_trailing_backslashes(line.take(k)))
            &&& (stop is Whitespace ==> k < line.len() && is_line_whitespace(line[k])
                && even_trailing_backslashes(line.take(k)))
        }),
    decreases line.len() - i,
{
    if i < line.len() {
        let c = line[i];
        if (is_separator(c) && !bs) || (is_line_whitespace(c) && !bs) {
        } else {
            let next = line.take(i + 1);
            assert(next.drop_last() =~= line.take(i));
            assert(next.last() == c);
            if c == BACKSLASH {
                assert(trailing_backslashes(next) == 1 + trailing_backslashes(line.take(i)));
            } else {
                assert(trailing_backslashes(next) == 0);
            }
            lemma_find_key_end(line, i + 1, if c == BACKSLASH {
                !bs
            } else {
                false
            });
        }
    }
}

/// The value-start scan stays in bounds and skips only whitespace and
/// separator bytes.
proof fn lemma_find_value_start(line: Seq<u8>, j: int, has_sep: bool)
    requires
        0 <= j <= line.len(),
    ensures
        ({
            let vs = find_value_start(line, j, has_sep);
            &&& j <= vs <= line.len()
            &&& forall|m: int|
                j <= m < vs ==> is_line_whitespace(#[trigger] line[m]) || is_separator(line[m])
        }),
    decreases line.len() - j,
{
    if j < line.len() {
        let c = line[j];
        if is_line_whitespace(c) {
            lemma_find_value_start(line, j + 1, has_sep);
        } else if !has_sep && is_separator(c) {
            lemma_find_value_start(line, j + 1, true);
        }
    }
}

/// Both halves of a split line keep an even trailing backslash run, so the
/// escape decoder accepts them.
pub proof fn lemma_split_line_even(line: Seq<u8>)
    requires
        even_trailing_backslashes(line),
    ensures
        even_trailing_backslashes(split_line(line).0),
        even_trailing_backslashes(split_line(line).1),
{
    assert(line.take(0) =~= Seq::<u8>::empty());
    assert(trailing_backslashes(Seq::<u8>::empty()) == 0);
    lemma_find_key_end(line, 0, false);
    let (key_len, stop) = find_key_end(line, 0, false);
    match stop {
        KeyStop::Missing => {
            assert(split_line(line).0 == line);
            assert(split_line(line).1 == Seq::<u8>::empty());
        },
        _ => {
            lemma_find_value_start(line, key_len + 1, stop is Separator);
            let vs = find_value_start(line, key_len + 1, stop is Separator);
            assert(line[vs - 1] != BACKSLASH);
            crate::decode::lemma_even_skip(line, vs);
        },
    }
}

/// Relies on `String::from_utf8`: it succeeds exactly when the bytes are
/// valid UTF-8, and then returns the string made of those bytes, i.e. the
/// string whose characters decode them.
#[verifier::external_body]
fn string_from_utf8(v: Vec<u8>) -> (r: Option<String>)
    ensures
        r is Some <==> valid_utf8(v@),
        r is Some ==> encode_utf8(r->Some_0@) == v@ && r->Some_0@ == decode_utf8(v@),
{
    String::from_utf8(v).ok()
}

/// Scan a line's key region: its length, whether anything ended it, and
/// whether that was a separator (already consumed) rather than whitespace.
fn scan_key(line: &[u8]) -> (r: (usize, bool, bool))
    ensures
        ({
            let (key_len, found, has_sep) = r;
            &&& key_len <= line@.len()
            &&& (found ==> key_len < line@.len())
            &&& (found ==> find_key_end(line@, 0, false) == (
                key_len as int,
                if has_sep {
                    KeyStop::Separator
                } else {
                    KeyStop::Whitespace
                },
            ))
            &&& (!found ==> !has_sep && key_len == line@.len() && find_key_end(line@, 0, false)
                == (line@.len() as int, KeyStop::Missing))
        }),
{
    let limit = line.len();
    let mut key_len: usize = 0;
    let mut backslash = false;
    let mut has_sep = false;
    let mut found = false;
    proof {
        assert(line@.take(0) =~= Seq::<u8>::empty());
        assert(trailing_backslashes(Seq::<u8>::empty()) == 0);
    }
    while key_len < limit
        invariant_except_break
            limit == line@.len(),
            0 <= key_len <= limit,
            !found && !has_sep,
            find_key_end(line@, 0, false) == find_key_end(line@, key_len as int, backslash),
        ensures
            limit == line@.len(),
            0 <= key_len <= limit,
            found ==> key_len < limit && find_key_end(line@, 0, false) == (
                key_len as int,
                if has_sep {
                    KeyStop::Separator
                } else {
                    KeyStop::Whitespace
                },
            ),
            !found ==> !has_sep && key_len == limit && find_key_end(line@, 0, false) == (
                limit as int,
                KeyStop::Missing,
            ),
        decreases limit - key_len,
    {
        let c = line[key_len];
        if (c == EQUALS_SIGN || c == COLON_SIGN) && !backslash {
            has_sep = true;
            found = true;
            break ;
        } else if (c == 0x20 || c == 0x09 || c == 0x0C) && !backslash {
            found = true;
            break ;
        }
        if c == BACKSLASH {
            backslash = !backslash;
        } else {
            backslash = false;
        }
        key_len = key_len + 1;
    }
    (key_len, found, has_sep)
}

/// Find where a line's value begins, skipping whitespace and at most one
/// separator if `has_sep` says none was consumed with the key.
fn scan_value_start(line: &[u8], start: usize, has_sep: bool) -> (vs: usize)
    requires
        start <= line@.len(),
    ensures
        start <= vs <= line@.len(),
        vs as int == find_value_start(line@, start as int, has_sep),
{
    let limit = line.len();
    let mut value_start = start;
    let mut has_sep = has_sep;
    let ghost hs0 = has_sep;
    while value_start < limit
        invariant_except_break
            limit == line@.len(),
            start <= value_start <= limit,
            find_value_start(line@, start as int, hs0) == find_value_start(
                line@,
                value_start as int,
                has_sep,
            ),
        ensures
            start <= value_start <= limit,
            value_start as int == find_value_start(line@, start as int, hs0),
        decreases limit - value_start,
    {
        let c = line[value_start];
        if c != 0x20 && c != 0x09 && c != 0x0C {
            if !has_sep && (c == EQUALS_SIGN || c == COLON_SIGN) {
                has_sep = true;
            } else {
                break ;
            }
        }
        value_start = value_start + 1;
    }
    value_start
}

/// What `load` makes of `data` from position `i`, starting from the mapping
/// `m`: the final mapping — holding every entry parsed before any error —
/// and the error, if one stopped the parse.
pub open spec fn load_outcome(data: Seq<u8>, i: int, m: Map<Seq<char>, Seq<char>>) -> (
    Map<Seq<char>, Seq<char>>,
    Option<PropertiesError>,
)
    decreases data.len() - i
        when 0 <= i <= data.len()
{
    let (line, j) = scan_logical_line(data, i);
    if line.len() == 0 {
        (m, None)
    } else if !(i < j <= data.len()) {
        // never reached: a non-empty line consumes input (lemma_scan_progress)
        (m, None)
    } else {
        let (kb, vb) = split_line(line);
        match unescaped(kb) {
            Err(e) => (m, Some(e)),
            Ok(kd) => {
                if !valid_utf8(kd) {
                    (m, Some(PropertiesError::InvalidTextEncoding))
                } else {
                    match unescaped(vb) {
                        Err(e) => (m, Some(e)),
                        Ok(vd) => {
                            if !valid_utf8(vd) {
                                (m, Some(PropertiesError::InvalidTextEncoding))
                            } else {
                                load_outcome(data, j, m.insert(decode_utf8(kd), decode_utf8(vd)))
                            }
                        },
                    }
                }
            },
        }
    }
}

impl Properties {
    /// Parse the property-file bytes `data` and insert every entry found,
    /// later entries and entries for already-present keys winning.
    ///
    /// Stops at the first decode error, which is returned; the entries
    /// already inserted stay. [`load_outcome`] states the result exactly.
    #[verifier::loop_isolation(false)]
    pub fn load(&mut self, data: &[u8]) -> (r: Result<(), PropertiesError>)
        requires
            old(self).wf(),
        ensures
            final(self).wf(),
            final(self)@ == load_outcome(data@, 0, old(self)@).0,
            match r {
                Ok(_) => load_outcome(data@, 0, old(self)@).1 is None,
                Err(e) => load_outcome(data@, 0, old(self)@).1 == Some(e),
            },
    {
        let mut lr = LineReader::new();
        loop
            invariant
                self.wf(),
                lr.offset <= data@.len(),
                load_outcome(data@, 0, old(self)@) == load_outcome(
                    data@,
                    lr.offset as int,
                    self@,
                ),
            decreases data@.len() - lr.offset,
        {
            let ghost pos0 = lr.offset as int;
            let ghost m0 = self@;
            let n = lr.read_line(data);
            let ghost line = lr.line@;
            proof {
                lemma_scan_progress(data@, pos0);
            }
            if n == 0 {
                return Ok(());
            }
            proof {
                lemma_scan_line_even(data@, pos0);
            }
            let limit = lr.line.len();
            let (key_len, found, has_sep) = scan_key(lr.line.as_slice());
            let value_start: usize = if found {
                scan_value_start(lr.line.as_slice(), key_len + 1, has_sep)
            } else {
                limit
            };

            proof {
                if found {
                    assert(split_line(line) == (line.take(key_len as int), line.skip(
                        value_start as int,
                    )));
                } else {
                    assert(value_start == limit);
                    assert(line.take(key_len as int) =~= line);
                    assert(line.skip(value_start as int) =~= Seq::<u8>::empty());
                    assert(split_line(line) == (line, Seq::<u8>::empty()));
                }
                lemma_split_line_even(line);
                assert(lr.line@.subrange(0, key_len as int) == line.take(key_len as int));
                assert(lr.line@.subrange(value_start as int, limit as int) == line.skip(
                    value_start as int,
                ));
            }

            let key_raw = vstd::slice::slice_subrange(lr.line.as_slice(), 0, key_len);
            let kd = match load_convert(key_raw) {
                Ok(v) => v,
                Err(e) => {
                    return Err(e);
                },
            };
            let key = match string_from_utf8(kd) {
                Some(s) => s,
                None => {
                    return Err(PropertiesError::InvalidTextEncoding);
                },
            };
            let value_raw = vstd::slice::slice_subrange(lr.line.as_slice(), value_start, limit);
            let vd = match load_convert(value_raw) {
                Ok(v) => v,
                Err(e) => {
                    return Err(e);
                },
            };
            let value = match string_from_utf8(vd) {
                Some(s) => s,
                None => {
                    return Err(PropertiesError::InvalidTextEncoding);
                },
            };
            self.put(key, value);
        }
    }
}

} // verus!
