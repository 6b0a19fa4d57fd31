//! Assembly of logical lines from raw input bytes.
//!
//! A logical line is one `key value` record after comment lines and blank
//! lines are removed, backslash-newline continuations are joined, and the
//! leading whitespace of each physical line is stripped. The whole behaviour
//! is the byte-by-byte state machine [`scan`]; the reader is proved to
//! compute exactly what `scan` says.

use vstd::prelude::*;
use crate::decode::{BACKSLASH, trailing_backslashes, even_trailing_backslashes};

verus! {

/// The line feed byte, `\n`.
pub const LINE_FEED: u8 = 0x0A;

/// The carriage return byte, `\r`.
pub const CARRIAGE_RETURN: u8 = 0x0D;

/// The `#` comment marker.
pub const HASH_MARK: u8 = 0x23;

/// The `!` comment marker.
pub const BANG_MARK: u8 = 0x21;

/// Whitespace inside a line: space, tab, form feed.
pub open spec fn is_line_whitespace(c: u8) -> bool {
    c == 0x20 || c == 0x09 || c == 0x0C
}

/// A physical line terminator byte.
pub open spec fn is_terminator(c: u8) -> bool {
    c == LINE_FEED || c == CARRIAGE_RETURN
}

/// The scanner's state between two input bytes.
pub struct ScanState {
    /// A bare `\r` was just consumed as a terminator; one following `\n`
    /// belongs to the same terminator and is dropped.
    pub skip_lf: bool,
    /// Leading whitespace of the current physical line is being skipped.
    pub skip_ws: bool,
    /// No line content has been seen yet on this physical line, so a comment
    /// marker here makes the whole line a comment.
    pub fresh_line: bool,
    /// The current physical line is a comment and is discarded whole.
    pub comment: bool,
    /// The previous content byte was an unescaped backslash; a terminator
    /// now means continuation.
    pub pending_backslash: bool,
    /// The current physical line continues a previous one, so a terminator
    /// while still skipping whitespace ends the logical line instead of
    /// being a skippable blank line.
    pub joined: bool,
}

/// The scanner state at the start of a logical line.
pub open spec fn initial_scan_state() -> ScanState {
    ScanState {
        skip_lf: false,
        skip_ws: true,
        fresh_line: true,
        comment: false,
        pending_backslash: false,
        joined: false,
    }
}

/// One logical line, scanned from `data` starting at `i` with state `st`
/// and the content bytes `acc` gathered so far. Yields the line's bytes and
/// the position after its terminator (the input's end if it ran out).
///
/// At the input's end, a pending continuation backslash is dropped and a
/// half-read comment line yields an empty result.
pub open spec fn scan(data: Seq<u8>, i: int, st: ScanState, acc: Seq<u8>) -> (Seq<u8>, int)
    decreases data.len() - i,
{
    if i < 0 || i >= data.len() {
        (
            if st.comment {
                Seq::empty()
            } else if st.pending_backslash {
                acc.drop_last()
            } else {
                acc
            },
            i,
        )
    } else {
        let c = data[i];
        if st.skip_lf && c == LINE_FEED {
            scan(data, i + 1, ScanState { skip_lf: false, ..st }, acc)
        } else {
            let st = ScanState { skip_lf: false, ..st };
            if st.skip_ws && is_line_whitespace(c) {
                scan(data, i + 1, st, acc)
            } else if st.skip_ws && !st.joined && is_terminator(c) {
                scan(data, i + 1, st, acc)
            } else {
                let st = if st.skip_ws {
                    ScanState { skip_ws: false, joined: false, ..st }
                } else {
                    st
                };
                if st.fresh_line && (c == HASH_MARK || c == BANG_MARK) {
                    scan(data, i + 1, ScanState { fresh_line: false, comment: true, ..st }, acc)
                } else {
                    let st = ScanState { fresh_line: false, ..st };
                    if !is_terminator(c) {
                        scan(
                            data,
                            i + 1,
                            ScanState {
                                pending_backslash: if c == BACKSLASH {
                                    !st.pending_backslash
                                } else {
                                    false
                                },
                                ..st
                            },
                            acc.push(c),
                        )
                    } else if st.comment {
                        scan(
                            data,
                            i + 1,
                            ScanState {
                                skip_ws: true,
                                fresh_line: true,
                                comment: false,
                                pending_backslash: false,
                                ..st
                            },
                            Seq::empty(),
                        )
                    } else if st.pending_backslash {
                        scan(
                            data,
                            i + 1,
                            ScanState {
                                skip_lf: c == CARRIAGE_RETURN,
                                skip_ws: true,
                                pending_backslash: false,
                                joined: true,
                                ..st
                            },
                            acc.drop_last(),
                        )
                    } else {
                        (acc, i + 1)
                    }
                }
            }
        }
    }
}

/// The next logical line of `data` from position `i`.
pub open spec fn scan_logical_line(data: Seq<u8>, i: int) -> (Seq<u8>, int) {
    scan(data, i, initial_scan_state(), Seq::empty())
}

/// The scanner stays within the input and moves forward.
proof fn lemma_scan_bounds_general(data: Seq<u8>, i: int, st: ScanState, acc: Seq<u8>)
    requires
        0 <= i <= data.len(),
    ensures
        i <= scan(data, i, st, acc).1 <= data.len(),
        scan(data, i, st, acc).1 == i ==> i == data.len(),
    decreases data.len() - i,
{
    if i < data.len() {
        let c = data[i];
        if st.skip_lf && c == LINE_FEED {
            lemma_scan_bounds_general(data, i + 1, ScanState { skip_lf: false, ..st }, acc);
        } else {
            let st1 = ScanState { skip_lf: false, ..st };
            if st1.skip_ws && is_line_whitespace(c) {
                lemma_scan_bounds_general(data, i + 1, st1, acc);
            } else if st1.skip_ws && !st1.joined && is_terminator(c) {
                lemma_scan_bounds_general(data, i + 1, st1, acc);
            } else {
                let st2 = if st1.skip_ws {
                    ScanState { skip_ws: false, joined: false, ..st1 }
                } else {
                    st1
                };
                if st2.fresh_line && (c == HASH_MARK || c == BANG_MARK) {
                    lemma_scan_bounds_general(
                        data,
                        i + 1,
                        ScanState { fresh_line: false, comment: true, ..st2 },
                        acc,
                    );
                } else {
                    let st3 = ScanState { fresh_line: false, ..st2 };
                    if !is_terminator(c) {
                        lemma_scan_bounds_general(
                            data,
                            i + 1,
                            ScanState {
                                pending_backslash: if c == BACKSLASH {
                                    !st3.pending_backslash
                                } else {
                                    false
                                },
                                ..st3
                            },
                            acc.push(c),
                        );
                    } else if st3.comment {
                        lemma_scan_bounds_general(
                            data,
                            i + 1,
                            ScanState {
                                skip_ws: true,
                                fresh_line: true,
                                comment: false,
                                pending_backslash: false,
                                ..st3
                            },
                            Seq::empty(),
                        );
                    } else if st3.pending_backslash {
                        lemma_scan_bounds_general(
                            data,
                            i + 1,
                            ScanState {
                                skip_lf: c == CARRIAGE_RETURN,
                                skip_ws: true,
                                pending_backslash: false,
                                joined: true,
                                ..st3
                            },
                            acc.drop_last(),
                        );
                    }
                }
            }
        }
    }
}

/// The next logical line lies within the input, and only the input's very
/// end yields a line without consuming bytes — and that line is empty.
pub proof fn lemma_scan_progress(data: Seq<u8>, i: int)
    requires
        0 <= i <= data.len(),
    ensures
        i <= scan_logical_line(data, i).1 <= data.len(),
        scan_logical_line(data, i).1 == i ==> scan_logical_line(data, i).0 == Seq::<u8>::empty(),
    decreases data.len() - i,
{
    lemma_scan_bounds_general(data, i, initial_scan_state(), Seq::empty());
}

/// While scanning, the pending-backslash flag tracks the parity of the run
/// of backslashes gathered at the end of the line so far; so every finished
/// logical line ends in an even run.
proof fn lemma_scan_even_general(data: Seq<u8>, i: int, st: ScanState, acc: Seq<u8>)
    requires
        st.pending_backslash <==> trailing_backslashes(acc) % 2 == 1,
        st.pending_backslash ==> acc.len() > 0 && acc.last() == BACKSLASH,
    ensures
        even_trailing_backslashes(scan(data, i, st, acc).0),
    decreases data.len() - i,
{
    crate::decode::lemma_trailing_bounds(acc);
    if i < 0 || i >= data.len() {
        if st.comment {
            assert(trailing_backslashes(Seq::<u8>::empty()) == 0);
        } else if st.pending_backslash {
            assert(trailing_backslashes(acc) == 1 + trailing_backslashes(acc.drop_last()));
        }
    } else {
        let c = data[i];
        if st.skip_lf && c == LINE_FEED {
            lemma_scan_even_general(data, i + 1, ScanState { skip_lf: false, ..st }, acc);
        } else {
            let st1 = ScanState { skip_lf: false, ..st };
            if st1.skip_ws && is_line_whitespace(c) {
                lemma_scan_even_general(data, i + 1, st1, acc);
            } else if st1.skip_ws && !st1.joined && is_terminator(c) {
                lemma_scan_even_general(data, i + 1, st1, acc);
            } else {
                let st2 = if st1.skip_ws {
                    ScanState { skip_ws: false, joined: false, ..st1 }
                } else {
                    st1
                };
                if st2.fresh_line && (c == HASH_MARK || c == BANG_MARK) {
                    lemma_scan_even_general(
                        data,
                        i + 1,
                        ScanState { fresh_line: false, comment: true, ..st2 },
                        acc,
                    );
                } else {
                    let st3 = ScanState { fresh_line: false, ..st2 };
                    if !is_terminator(c) {
                        let pushed = acc.push(c);
                        assert(pushed.drop_last() =~= acc);
                        if c == BACKSLASH {
                            assert(trailing_backslashes(pushed) == 1 + trailing_backslashes(acc));
                        } else {
                            assert(trailing_backslashes(pushed) == 0);
                        }
                        lemma_scan_even_general(
                            data,
                            i + 1,
                            ScanState {
                                pending_backslash: if c == BACKSLASH {
                                    !st3.pending_backslash
                                } else {
                                    false
                                },
                                ..st3
                            },
                            pushed,
                        );
                    } else if st3.comment {
                        assert(trailing_backslashes(Seq::<u8>::empty()) == 0);
                        lemma_scan_even_general(
                            data,
                            i + 1,
                            ScanState {
                                skip_ws: true,
                                fresh_line: true,
                                comment: false,
                                pending_backslash: false,
                                ..st3
                            },
                            Seq::empty(),
                        );
                    } else if st3.pending_backslash {
                        assert(trailing_backslashes(acc) == 1 + trailing_backslashes(
                            acc.drop_last(),
                        ));
                        lemma_scan_even_general(
                            data,
                            i + 1,
                            ScanState {
                                skip_lf: c == CARRIAGE_RETURN,
                                skip_ws: true,
                                pending_backslash: false,
                                joined: true,
                                ..st3
                            },
                            acc.drop_last(),
                        );
                    }
                }
            }
        }
    }
}

/// A finished logical line never ends in an odd run of backslashes, so the
/// escape decoder accepts it.
pub proof fn lemma_scan_line_even(data: Seq<u8>, i: int)
    ensures
        even_trailing_backslashes(scan_logical_line(data, i).0),
{
    assert(trailing_backslashes(Seq::<u8>::empty()) == 0);
    lemma_scan_even_general(data, i, initial_scan_state(), Seq::empty());
}

/// Reads logical lines out of a byte slice, one per call, into a reusable
/// buffer. Each call overwrites the previous line.
pub struct LineReader {
    /// The bytes of the most recently read logical line.
    pub line: Vec<u8>,
    /// How far into the input the reader has consumed.
    pub offset: usize,
}

impl LineReader {
    /// A reader positioned at the start of the input.
    pub fn new() -> (r: Self)
        ensures
            r.offset == 0,
            r.line@ == Seq::<u8>::empty(),
    {
        LineReader { line: Vec::new(), offset: 0 }
    }

    /// Read the next logical line of `data` into `self.line`, returning its
    /// length. A zero result means the input is exhausted.
    #[verifier::loop_isolation(false)]
    pub fn read_line(&mut self, data: &[u8]) -> (n: usize)
        requires
            old(self).offset <= data@.len(),
        ensures
            ({
                let (line, pos) = scan_logical_line(data@, old(self).offset as int);
                &&& final(self).line@ == line
                &&& final(self).offset == pos
                &&& n == line.len()
                &&& old(self).offset <= final(self).offset <= data@.len()
            }),
    {
        let ghost start = self.offset as int;
        let mut skip_lf = false;
        let mut skip_ws = true;
        let mut fresh_line = true;
        let mut comment = false;
        let mut pending_backslash = false;
        let mut joined = false;
        self.line.clear();
        proof {
            lemma_scan_progress(data@, start);
        }
        while self.offset < data.len()
            invariant
                start <= self.offset as int <= data@.len(),
                scan_logical_line(data@, start) == scan(
                    data@,
                    self.offset as int,
                    (ScanState {
                        skip_lf,
                        skip_ws,
                        fresh_line,
                        comment,
                        pending_backslash,
                        joined,
                    }),
                    self.line@,
                ),
                pending_backslash ==> self.line@.len() > 0 && self.line@.last() == BACKSLASH,
            decreases data@.len() - self.offset,
        {
            let ghost prev_pos = self.offset as int;
            let ghost prev_st = ScanState {
                skip_lf,
                skip_ws,
                fresh_line,
                comment,
                pending_backslash,
                joined,
            };
            let ghost prev_acc = self.line@;
            let c = data[self.offset];
            self.offset = self.offset + 1;
            if skip_lf && c == LINE_FEED {
                skip_lf = false;
            } else {
                skip_lf = false;
                if skip_ws && (c == 0x20 || c == 0x09 || c == 0x0C) {
                    // leading whitespace: dropped
                } else if skip_ws && !joined && (c == LINE_FEED || c == CARRIAGE_RETURN) {
                    // a blank line: dropped
                } else {
                    if skip_ws {
                        skip_ws = false;
                        joined = false;
                    }
                    if fresh_line && (c == HASH_MARK || c == BANG_MARK) {
                        fresh_line = false;
                        comment = true;
                    } else {
                        fresh_line = false;
                        if c != LINE_FEED && c != CARRIAGE_RETURN {
                            self.line.push(c);
                            if c == BACKSLASH {
                                pending_backslash = !pending_backslash;
                            } else {
                                pending_backslash = false;
                            }
                        } else if comment {
                            comment = false;
                            fresh_line = true;
                            skip_ws = true;
                            pending_backslash = false;
                            self.line.clear();
                        } else if pending_backslash {
                            self.line.pop();
                            skip_ws = true;
                            joined = true;
                            pending_backslash = false;
                            if c == CARRIAGE_RETURN {
                                skip_lf = true;
                            }
                            proof {
                                assert(self.line@ =~= prev_acc.drop_last());
                            }
                        } else {
                            return self.line.len();
                        }
                    }
                }
            }
            proof {
                assert(scan(data@, prev_pos, prev_st, prev_acc) == scan(
                    data@,
                    self.offset as int,
                    (ScanState {
                        skip_lf,
                        skip_ws,
                        fresh_line,
                        comment,
                        pending_backslash,
                        joined,
                    }),
                    self.line@,
                ));
            }
        }
        if comment {
            self.line.clear();
        } else if pending_backslash {
            self.line.pop();
        }
        self.line.len()
    }
}

} // verus!
