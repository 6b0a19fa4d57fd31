//! Escaping of keys, values and comments, and the top-level `store`.

use vstd::prelude::*;
use vstd::utf8::{encode_scalar, is_scalar};
use crate::decode::{BACKSLASH, push_scalar_bytes};
use crate::errors::PropertiesError;
use crate::line::HASH_MARK;
use crate::props::Properties;
use crate::reader::EQUALS_SIGN;
use vstd::string::StrSliceExecFns;

verus! {

/// The line terminator written after every entry and comment line.
#[derive(Clone, Copy, Debug, PartialEq, Eq, Structural)]
pub enum LineEnding {
    /// `\n`
    Lf,
    /// `\r`
    Cr,
    /// `\r\n`
    CrLf,
}

impl LineEnding {
    /// The terminator's bytes.
    pub open spec fn to_bytes(self) -> Seq<u8> {
        match self {
            LineEnding::Lf => seq![0x0Au8],
            LineEnding::Cr => seq![0x0Du8],
            LineEnding::CrLf => seq![0x0Du8, 0x0Au8],
        }
    }
}

/// Append a line terminator's bytes to `out`.
fn push_line_ending(out: &mut Vec<u8>, ending: LineEnding)
    ensures
        final(out)@ == old(out)@ + ending.to_bytes(),
{
    match ending {
        LineEnding::Lf => {
            out.push(0x0A);
        },
        LineEnding::Cr => {
            out.push(0x0D);
        },
        LineEnding::CrLf => {
            out.push(0x0D);
            out.push(0x0A);
        },
    }
    proof {
        assert(final(out)@ =~= old(out)@ + ending.to_bytes());
    }
}

/// How `store` writes a mapping: an optional leading comment block, whether
/// to escape all non-ASCII text as `\uXXXX`, and the line terminator.
pub struct WriteOption {
    /// Free-form text prepended as `#` comment lines when non-empty.
    pub comments: String,
    /// Escape every code point outside printable ASCII as `\uXXXX`.
    pub escape_unicode: bool,
    /// The terminator written after every comment and entry line.
    pub line_ending: LineEnding,
}

impl WriteOption {
    /// Set the comment block.
    pub fn comments(&mut self, val: String)
        ensures
            final(self).comments == val,
            final(self).escape_unicode == old(self).escape_unicode,
            final(self).line_ending == old(self).line_ending,
    {
        self.comments = val;
    }

    /// Set whether non-ASCII text is written as `\uXXXX` escapes.
    pub fn escape_unicode(&mut self, val: bool)
        ensures
            final(self).comments == old(self).comments,
            final(self).escape_unicode == val,
            final(self).line_ending == old(self).line_ending,
    {
        self.escape_unicode = val;
    }

    /// Set the line terminator.
    pub fn line_ending(&mut self, val: LineEnding)
        ensures
            final(self).comments == old(self).comments,
            final(self).escape_unicode == old(self).escape_unicode,
            final(self).line_ending == val,
    {
        self.line_ending = val;
    }
}

impl Default for WriteOption {
    /// No comments, native text kept as-is, `\n` endings.
    fn default() -> (r: Self)
        ensures
            r.comments@ == Seq::<char>::empty(),
            r.escape_unicode == false,
            r.line_ending == LineEnding::Lf,
    {
        WriteOption { comments: String::new(), escape_unicode: false, line_ending: LineEnding::Lf }
    }
}

/// The uppercase hex digit for `n`.
pub open spec fn hex_upper_digit(n: int) -> u8
    recommends
        0 <= n < 16,
{
    if n < 10 {
        (0x30 + n) as u8
    } else {
        (0x41 + n - 10) as u8
    }
}

/// The four uppercase hex digits of a 16-bit value, highest first.
pub open spec fn hex4_digits(v: int) -> Seq<u8>
    recommends
        0 <= v <= 0xFFFF,
{
    seq![
        hex_upper_digit((v / 4096) % 16),
        hex_upper_digit((v / 256) % 16),
        hex_upper_digit((v / 16) % 16),
        hex_upper_digit(v % 16),
    ]
}

/// The uppercase hex digit of `c`'s low nibble.
pub fn hex(c: u32) -> (r: u8)
    ensures
        r == hex_upper_digit((c % 16) as int),
{
    let d = c % 16;
    if d < 10 {
        0x30 + d as u8
    } else {
        0x41 + (d as u8 - 10)
    }
}

/// The high half of the surrogate pair for a code point at or above
/// `U+10000`.
pub open spec fn high_surrogate_of(c: int) -> int
    recommends
        0x10000 <= c <= 0x10FFFF,
{
    0xD800 + (c - 0x10000) / 0x400
}

/// The low half of the surrogate pair for a code point at or above
/// `U+10000`.
pub open spec fn low_surrogate_of(c: int) -> int
    recommends
        0x10000 <= c <= 0x10FFFF,
{
    0xDC00 + c % 0x400
}

/// The `\uXXXX` escape of a code point, split into a surrogate pair — high
/// half first — when it does not fit in 16 bits.
pub open spec fn unicode_escape(c: int) -> Seq<u8>
    recommends
        0 <= c <= 0x10FFFF,
{
    if c < 0x10000 {
        seq![BACKSLASH, 0x75u8] + hex4_digits(c)
    } else {
        seq![BACKSLASH, 0x75u8] + hex4_digits(high_surrogate_of(c)) + seq![BACKSLASH, 0x75u8]
            + hex4_digits(low_surrogate_of(c))
    }
}

/// Append the `\uXXXX` escape of code point `c` to `target`, as a surrogate
/// pair when `c` is at or above `U+10000`. Hex digits are uppercase.
pub fn do_escape_unicode(target: &mut Vec<u8>, c: u32)
    requires
        c <= 0x10FFFF,
    ensures
        final(target)@ == old(target)@ + unicode_escape(c as int),
{
    let mut ch = c;
    target.push(BACKSLASH);
    target.push(0x75);
    if ch >= 0x10000 {
        ch = 0xD800 + (c - 0x10000) / 0x400;
        target.push(hex(ch / 4096));
        target.push(hex(ch / 256));
        target.push(hex(ch / 16));
        target.push(hex(ch));
        ch = 0xDC00 + c % 0x400;
        target.push(BACKSLASH);
        target.push(0x75);
    }
    target.push(hex(ch / 4096));
    target.push(hex(ch / 256));
    target.push(hex(ch / 16));
    target.push(hex(ch));
    proof {
        assert(final(target)@ =~= old(target)@ + unicode_escape(c as int));
    }
}

/// The on-disk bytes of one character of a key or value. `first` is true
/// for the string's first character, whose space is always escaped.
pub open spec fn escape_char(c: char, first: bool, escape_space: bool, escape_unicode: bool) -> Seq<
    u8,
> {
    let v = c as u32;
    if 0x3D < v < 0x7F {
        if v == 0x5C {
            seq![BACKSLASH, BACKSLASH]
        } else {
            seq![v as u8]
        }
    } else if v == 0x20 {
        if first || escape_space {
            seq![BACKSLASH, 0x20u8]
        } else {
            seq![0x20u8]
        }
    } else if v == 0x09 {
        seq![BACKSLASH, 0x74u8]
    } else if v == 0x0A {
        seq![BACKSLASH, 0x6Eu8]
    } else if v == 0x0D {
        seq![BACKSLASH, 0x72u8]
    } else if v == 0x0C {
        seq![BACKSLASH, 0x66u8]
    } else if v == 0x3D || v == 0x3A || v == 0x23 || v == 0x21 {
        seq![BACKSLASH, v as u8]
    } else if escape_unicode && (v < 0x20 || v > 0x7E) {
        unicode_escape(v as int)
    } else {
        encode_scalar(v)
    }
}

/// The on-disk bytes of the characters of `s` from position `i` on.
pub open spec fn escape_from(s: Seq<char>, i: int, escape_space: bool, escape_unicode: bool) -> Seq<
    u8,
>
    decreases s.len() - i,
{
    if i < 0 || i >= s.len() {
        Seq::empty()
    } else {
        escape_char(s[i], i == 0, escape_space, escape_unicode) + escape_from(
            s,
            i + 1,
            escape_space,
            escape_unicode,
        )
    }
}

/// The on-disk byte form of a decoded string: every character escaped as
/// the format requires. With `escape_space` every space is escaped (used
/// for keys); otherwise only a leading space is.
pub open spec fn escaped_bytes(s: Seq<char>, escape_space: bool, escape_unicode: bool) -> Seq<u8> {
    escape_from(s, 0, escape_space, escape_unicode)
}

/// Encode a decoded string into its on-disk byte form; [`escaped_bytes`]
/// states the result exactly.
#[verifier::loop_isolation(false)]
pub fn save_convert(data: &str, escape_space: bool, escape_unicode: bool) -> (r: Vec<u8>)
    ensures
        r@ == escaped_bytes(data@, escape_space, escape_unicode),
{
    let n = data.unicode_len();
    let mut result: Vec<u8> = Vec::new();
    proof {
        assert(result@ + escape_from(data@, 0, escape_space, escape_unicode) =~= escape_from(
            data@,
            0,
            escape_space,
            escape_unicode,
        ));
    }
    let mut i: usize = 0;
    while i < n
        invariant
            0 <= i <= n,
            escaped_bytes(data@, escape_space, escape_unicode) == result@ + escape_from(
                data@,
                i as int,
                escape_space,
                escape_unicode,
            ),
        decreases n - i,
    {
        let ghost pre = result@;
        let c = data.get_char(i);
        let v = c as u32;
        proof {
            vstd::utf8::char_is_scalar(c);
        }
        if v > 0x3D && v < 0x7F {
            if v == 0x5C {
                result.push(BACKSLASH);
                result.push(BACKSLASH);
            } else {
                result.push(v as u8);
            }
        } else if v == 0x20 {
            if i == 0 || escape_space {
                result.push(BACKSLASH);
            }
            result.push(0x20);
        } else if v == 0x09 {
            result.push(BACKSLASH);
            result.push(0x74);
        } else if v == 0x0A {
            result.push(BACKSLASH);
            result.push(0x6E);
        } else if v == 0x0D {
            result.push(BACKSLASH);
            result.push(0x72);
        } else if v == 0x0C {
            result.push(BACKSLASH);
            result.push(0x66);
        } else if v == 0x3D || v == 0x3A || v == 0x23 || v == 0x21 {
            result.push(BACKSLASH);
            result.push(v as u8);
        } else if escape_unicode && (v < 0x20 || v > 0x7E) {
            do_escape_unicode(&mut result, v);
        } else {
            push_scalar_bytes(&mut result, v);
        }
        proof {
            assert(result@ =~= pre + escape_char(data@[i as int], i == 0, escape_space,
                escape_unicode));
            assert((pre + escape_char(data@[i as int], i == 0, escape_space, escape_unicode))
                + escape_from(data@, i + 1, escape_space, escape_unicode) =~= pre + (escape_char(
                data@[i as int],
                i == 0,
                escape_space,
                escape_unicode,
            ) + escape_from(data@, i + 1, escape_space, escape_unicode)));
        }
        i = i + 1;
    }
    proof {
        assert(result@ + escape_from(data@, n as int, escape_space, escape_unicode) =~= result@);
    }
    result
}

/// The comment block's bytes from character `i` of the comment on: each
/// source line terminator is replaced by the configured `ending` and a `#`
/// is inserted after it unless the source continues with its own; with
/// `escape_unicode`, characters above `U+007F` become `\uXXXX` escapes.
/// The block always closes with `ending`.
pub open spec fn comment_from(s: Seq<char>, i: int, escape_unicode: bool, ending: Seq<u8>) -> Seq<
    u8,
>
    decreases s.len() - i,
{
    if i < 0 || i >= s.len() {
        ending
    } else {
        let c = s[i];
        if c == '\r' || c == '\n' {
            let j = if c == '\r' && i + 1 < s.len() && s[i + 1] == '\n' {
                i + 2
            } else {
                i + 1
            };
            ending + (if j < s.len() && s[j] != '#' {
                seq![HASH_MARK]
            } else {
                Seq::empty()
            }) + comment_from(s, j, escape_unicode, ending)
        } else if escape_unicode && c as u32 > 0x7F {
            unicode_escape(c as u32 as int) + comment_from(s, i + 1, escape_unicode, ending)
        } else {
            encode_scalar(c as u32) + comment_from(s, i + 1, escape_unicode, ending)
        }
    }
}

/// A whole comment block: `#`, the reflowed comment, a closing terminator.
pub open spec fn comment_block(s: Seq<char>, escape_unicode: bool, ending: Seq<u8>) -> Seq<u8> {
    seq![HASH_MARK] + comment_from(s, 0, escape_unicode, ending)
}

/// Reflow a free-form comment into `#`-prefixed lines; [`comment_block`]
/// states the result exactly.
#[verifier::loop_isolation(false)]
#[verifier::rlimit(100)]
pub fn save_comment(data: &str, escape_unicode: bool, line_ending: LineEnding) -> (r: Vec<u8>)
    ensures
        r@ == comment_block(data@, escape_unicode, line_ending.to_bytes()),
{
    let ghost ending = line_ending.to_bytes();
    let n = data.unicode_len();
    let mut result: Vec<u8> = Vec::new();
    result.push(HASH_MARK);
    proof {
        assert(result@ =~= seq![HASH_MARK]);
    }
    let mut i: usize = 0;
    while i < n
        invariant
            0 <= i <= n,
            comment_block(data@, escape_unicode, ending) == result@ + comment_from(
                data@,
                i as int,
                escape_unicode,
                ending,
            ),
        decreases n - i,
    {
        let ghost pre = result@;
        let c = data.get_char(i);
        proof {
            vstd::utf8::char_is_scalar(c);
        }
        if c == '\r' || c == '\n' {
            push_line_ending(&mut result, line_ending);
            let j = if c == '\r' && i + 1 < n && data.get_char(i + 1) == '\n' {
                i + 2
            } else {
                i + 1
            };
            if j < n && data.get_char(j) != '#' {
                result.push(HASH_MARK);
                proof {
                    assert(result@ =~= pre + (ending + seq![HASH_MARK]));
                }
            } else {
                proof {
                    assert(result@ =~= pre + (ending + Seq::<u8>::empty()));
                }
            }
            proof {
                let step = ending + (if j < data@.len() && data@[j as int] != '#' {
                    seq![HASH_MARK]
                } else {
                    Seq::<u8>::empty()
                });
                assert(result@ =~= pre + step);
                assert((pre + step) + comment_from(data@, j as int, escape_unicode, ending) =~= pre
                    + (step + comment_from(data@, j as int, escape_unicode, ending)));
            }
            i = j;
        } else {
            let v = c as u32;
            if escape_unicode && v > 0x7F {
                do_escape_unicode(&mut result, v);
            } else {
                push_scalar_bytes(&mut result, v);
            }
            proof {
                let step = if escape_unicode && v > 0x7F {
                    unicode_escape(v as int)
                } else {
                    encode_scalar(v)
                };
                assert(result@ =~= pre + step);
                assert((pre + step) + comment_from(data@, i + 1, escape_unicode, ending) =~= pre + (
                step + comment_from(data@, i + 1, escape_unicode, ending)));
            }
            i = i + 1;
        }
    }
    let ghost pre_final = result@;
    push_line_ending(&mut result, line_ending);
    proof {
        assert(comment_from(data@, n as int, escape_unicode, ending) == ending);
        assert(result@ == pre_final + ending);
    }
    result
}

/// One entry's output line: escaped key, `=`, escaped value, terminator.
pub open spec fn entry_line(k: Seq<char>, v: Seq<char>, escape_unicode: bool, ending: Seq<u8>) -> Seq<
    u8,
> {
    escaped_bytes(k, true, escape_unicode) + seq![EQUALS_SIGN] + escaped_bytes(
        v,
        false,
        escape_unicode,
    ) + ending
}

/// The output lines of a sequence of entries, in order.
pub open spec fn entries_output(
    es: Seq<(Seq<char>, Seq<char>)>,
    escape_unicode: bool,
    ending: Seq<u8>,
) -> Seq<u8>
    decreases es.len(),
{
    if es.len() == 0 {
        Seq::empty()
    } else {
        entries_output(es.drop_last(), escape_unicode, ending) + entry_line(
            es.last().0,
            es.last().1,
            escape_unicode,
            ending,
        )
    }
}

/// Everything `store` writes: the comment block when a comment is given,
/// then one line per entry in stored order.
pub open spec fn store_output(
    es: Seq<(Seq<char>, Seq<char>)>,
    comments: Seq<char>,
    escape_unicode: bool,
    ending: Seq<u8>,
) -> Seq<u8> {
    (if comments.len() > 0 {
        comment_block(comments, escape_unicode, ending)
    } else {
        Seq::empty()
    }) + entries_output(es, escape_unicode, ending)
}

impl Properties {
    /// Append the mapping's on-disk text to `writer`: the comment block of
    /// `opt`, if any, then `key=value` lines for every entry in stored
    /// order, each escaped as [`entry_line`] says. Writing to a byte buffer
    /// cannot fail; the `Result` mirrors sinks that can.
    #[verifier::loop_isolation(false)]
    #[verifier::rlimit(100)]
    pub fn store(&mut self, writer: &mut Vec<u8>, opt: &WriteOption) -> (r: Result<
        (),
        PropertiesError,
    >)
        ensures
            r is Ok,
            *final(self) == *old(self),
            final(writer)@ == old(writer)@ + store_output(
                old(self).entries_seq(),
                opt.comments@,
                opt.escape_unicode,
                opt.line_ending.to_bytes(),
            ),
    {
        let ghost ending = opt.line_ending.to_bytes();
        let ghost head: Seq<u8> = if opt.comments@.len() > 0 {
            comment_block(opt.comments@, opt.escape_unicode, ending)
        } else {
            Seq::empty()
        };
        if !opt.comments.as_str().is_empty() {
            let mut cb = save_comment(opt.comments.as_str(), opt.escape_unicode, opt.line_ending);
            writer.append(&mut cb);
        }
        proof {
            assert(writer@ =~= old(writer)@ + head);
        }
        let n = self.entry_count();
        let mut i: usize = 0;
        while i < n
            invariant
                0 <= i <= n,
                *self == *old(self),
                writer@ == old(writer)@ + head + entries_output(
                    self.entries_seq().take(i as int),
                    opt.escape_unicode,
                    ending,
                ),
            decreases n - i,
        {
            let ghost pre = writer@;
            let (k, v) = self.entry_at(i);
            let mut kb = save_convert(k.as_str(), true, opt.escape_unicode);
            writer.append(&mut kb);
            writer.push(EQUALS_SIGN);
            let mut vb = save_convert(v.as_str(), false, opt.escape_unicode);
            writer.append(&mut vb);
            push_line_ending(writer, opt.line_ending);
            proof {
                let es = self.entries_seq();
                let entry = es[i as int];
                assert(writer@ =~= pre + entry_line(entry.0, entry.1, opt.escape_unicode, ending));
                assert(es.take(i + 1).drop_last() =~= es.take(i as int));
                assert(es.take(i + 1).last() == entry);
                assert(writer@ =~= old(writer)@ + head + entries_output(
                    es.take(i + 1),
                    opt.escape_unicode,
                    ending,
                ));
            }
            i = i + 1;
        }
        proof {
            assert(self.entries_seq().take(n as int) =~= self.entries_seq());
            assert(old(writer)@ + head + entries_output(self.entries_seq(), opt.escape_unicode,
                ending) =~= old(writer)@ + store_output(self.entries_seq(), opt.comments@,
                opt.escape_unicode, ending));
        }
        Ok(())
    }
}

} // verus!
