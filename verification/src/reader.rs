//! The lexical tokenizer: a pull-based scanner that turns a borrowed byte
//! buffer into a stream of `Field` and `RowDelimiter` tokens under a strict
//! five-state machine, or a lexical error carrying the byte offset at which
//! the violation was detected.
//!
//! `Field` tokens are raw, zero-copy views into the input buffer: escape
//! sequences are located (so that an escaped `]` does not close a field)
//! but never resolved here.  The whole behaviour of [`ReaderForQvs20::next`]
//! is pinned down by [`spec_next`], so that for every input the next token,
//! error variant and byte offset are a stated function of the reader state.

use crate::codec::{BACKSLASH, LEFT_BRACKET, RIGHT_BRACKET};
use crate::decimal::spec_dec_chars;
use vstd::prelude::*;

verus! {

/// A lexical error, each variant carrying the byte offset at which the
/// violation was detected.
#[derive(Clone, Copy, Debug, PartialEq, Eq, Structural)]
pub enum Qvs20ErrorReader {
    /// The next field does not start with `[`.
    NoFieldStart { pos: usize },
    /// No unescaped `]` closes the current field before the buffer ends.
    NoFieldEnd { pos: usize },
    /// The buffer ends after a field without the mandatory row delimiter.
    NoLastRowDelimiter { pos: usize },
    /// More than one byte stands between a field end and the next `[`.
    RowDelimiterMoreThan1Byte { pos: usize },
    /// The buffer ends in the middle of a field.
    PrematureEndOfFile { pos: usize },
}

impl Qvs20ErrorReader {
    /// The text this error renders to, offset in decimal.
    pub open spec fn spec_message(self) -> Seq<char> {
        match self {
            Qvs20ErrorReader::NoFieldStart { pos } => "Error: The field must start with [. pos: "@
                + spec_dec_chars(pos as int),
            Qvs20ErrorReader::NoFieldEnd { pos } => "Error: Last bracket is missing. pos: "@
                + spec_dec_chars(pos as int),
            Qvs20ErrorReader::NoLastRowDelimiter { pos } => {
                "Error: Last row delimiter is missing. pos: "@ + spec_dec_chars(pos as int)
            },
            Qvs20ErrorReader::RowDelimiterMoreThan1Byte { pos } => {
                "Error: The row delimiter has more than 1 byte. pos: "@ + spec_dec_chars(pos as int)
            },
            Qvs20ErrorReader::PrematureEndOfFile { pos } => {
                "Error: Premature end of file. pos: "@ + spec_dec_chars(pos as int)
            },
        }
    }

    /// Render the error for display.
    pub fn message(&self) -> (r: String)
        ensures
            r@ == self.spec_message(),
    {
        match self {
            Qvs20ErrorReader::NoFieldStart { pos } => {
                let mut m = "Error: The field must start with [. pos: ".to_owned();
                crate::decimal::append_dec_chars(&mut m, *pos as u64);
                m
            },
            Qvs20ErrorReader::NoFieldEnd { pos } => {
                let mut m = "Error: Last bracket is missing. pos: ".to_owned();
                crate::decimal::append_dec_chars(&mut m, *pos as u64);
                m
            },
            Qvs20ErrorReader::NoLastRowDelimiter { pos } => {
                let mut m = "Error: Last row delimiter is missing. pos: ".to_owned();
                crate::decimal::append_dec_chars(&mut m, *pos as u64);
                m
            },
            Qvs20ErrorReader::RowDelimiterMoreThan1Byte { pos } => {
                let mut m = "Error: The row delimiter has more than 1 byte. pos: ".to_owned();
                crate::decimal::append_dec_chars(&mut m, *pos as u64);
                m
            },
            Qvs20ErrorReader::PrematureEndOfFile { pos } => {
                let mut m = "Error: Premature end of file. pos: ".to_owned();
                crate::decimal::append_dec_chars(&mut m, *pos as u64);
                m
            },
        }
    }
}

/// Where the cursor stands in the input.  Public only so that the
/// contracts can state the machine's transitions; the fields of
/// [`ReaderForQvs20`] stay private.
#[derive(Clone, Copy, Debug, PartialEq, Eq, Structural)]
pub enum CursorState {
    /// Before the `[` of a field.
    StartOfField,
    /// On a row-delimiter byte.
    InsideRowDelimiter,
    /// Right after the `[` of a field.
    InsideOfField,
    /// Right after the `]` of a field.
    OutsideOfField,
    /// Reached the normal end of the input.
    EndOfFile,
}

/// The tokenizer over a borrowed byte buffer.  No allocation: every
/// `Field` token borrows from the input.
pub struct ReaderForQvs20<'a> {
    /// reference to the input bytes (no allocation)
    input: &'a [u8],
    /// where the cursor stands
    cursor_state: CursorState,
    /// cursor position in bytes
    cursor_pos: usize,
}

/// One token: raw field content (not yet unescaped) or a row delimiter.
#[derive(Clone, Copy, Debug, PartialEq, Eq)]
pub enum Token<'a> {
    /// field content - raw, not unescaped
    Field(&'a [u8]),
    /// the single row-delimiter byte
    RowDelimiter(u8),
}

/// Mathematical value of a [`Token`].
pub enum SpecToken {
    Field(Seq<u8>),
    RowDelimiter(u8),
}

impl<'a> View for Token<'a> {
    type V = SpecToken;

    open spec fn view(&self) -> SpecToken {
        match *self {
            Token::Field(f) => SpecToken::Field(f@),
            Token::RowDelimiter(d) => SpecToken::RowDelimiter(d),
        }
    }
}

/// Mathematical value of a [`ReaderForQvs20`].
pub struct SpecReader {
    pub input: Seq<u8>,
    pub state: CursorState,
    pub pos: int,
}

impl<'a> View for ReaderForQvs20<'a> {
    type V = SpecReader;

    closed spec fn view(&self) -> SpecReader {
        SpecReader { input: self.input@, state: self.cursor_state, pos: self.cursor_pos as int }
    }
}

/// What one call of [`ReaderForQvs20::next`] produces.
pub enum SpecNext {
    Tok(SpecToken),
    Fail(Qvs20ErrorReader),
    End,
}

/// The reader state and the emission after one call of
/// [`ReaderForQvs20::next`].
pub struct SpecStep {
    pub state: CursorState,
    pub pos: int,
    pub out: SpecNext,
}

/// Position of the first occurrence of `b` in `s` at or after `from`.
pub open spec fn spec_find(s: Seq<u8>, from: int, b: u8) -> Option<int>
    decreases s.len() - from,
{
    if from < 0 || from >= s.len() {
        None
    } else if s[from] == b {
        Some(from)
    } else {
        spec_find(s, from + 1, b)
    }
}

/// `spec_find` returns the first occurrence and nothing earlier.
pub proof fn lemma_spec_find(s: Seq<u8>, from: int, b: u8)
    requires
        0 <= from <= s.len(),
    ensures
        match spec_find(s, from, b) {
            Some(j) => from <= j < s.len() && s[j] == b && forall|k: int|
                from <= k < j ==> s[k] != b,
            None => forall|k: int| from <= k < s.len() ==> s[k] != b,
        },
    decreases s.len() - from,
{
    if from < s.len() && s[from] != b {
        lemma_spec_find(s, from + 1, b);
    }
}

/// Outcome of scanning for the unescaped `]` that closes a field.
pub enum FieldScan {
    /// Position of the first `]` not preceded by `\`.
    Found(int),
    /// No closing `]` before the buffer end; the offset to report.
    MissingEnd(int),
    /// The buffer ends right after an escaped `]`; the offset to report.
    Premature(int),
}

/// Scan from `c` for the `]` that closes the current field: a `]` whose
/// preceding byte is `\` is escaped content and is skipped.
pub open spec fn spec_scan_field(s: Seq<u8>, c: int) -> FieldScan
    decreases s.len() - c,
    when 0 <= c <= s.len()
    via spec_scan_field_dec
{
    match spec_find(s, c, RIGHT_BRACKET) {
        None => FieldScan::MissingEnd(c),
        Some(j) => {
            if s[j - 1] != BACKSLASH {
                FieldScan::Found(j)
            } else if j + 1 >= s.len() {
                FieldScan::Premature(j + 1)
            } else {
                spec_scan_field(s, j + 1)
            }
        },
    }
}

#[via_fn]
proof fn spec_scan_field_dec(s: Seq<u8>, c: int) {
    lemma_spec_find(s, c, RIGHT_BRACKET);
}

/// Bound on how many more state hops one `next` call can make before it
/// must emit something.
pub open spec fn state_rank(st: CursorState) -> int {
    match st {
        CursorState::OutsideOfField => 2,
        CursorState::StartOfField => 1,
        _ => 0,
    }
}

/// The full state machine: the reader state and the emission after one
/// call of `next` on input `s` in state `st` at position `pos`.
pub open spec fn spec_next(s: Seq<u8>, st: CursorState, pos: int) -> SpecStep
    decreases state_rank(st),
{
    if s.len() == 0 {
        SpecStep { state: st, pos, out: SpecNext::End }
    } else {
        match st {
            CursorState::StartOfField => {
                if s[pos] == LEFT_BRACKET {
                    if pos + 1 >= s.len() {
                        SpecStep {
                            state: CursorState::InsideOfField,
                            pos: pos + 1,
                            out: SpecNext::Fail(
                                Qvs20ErrorReader::PrematureEndOfFile { pos: (pos + 1) as usize },
                            ),
                        }
                    } else {
                        spec_next(s, CursorState::InsideOfField, pos + 1)
                    }
                } else {
                    SpecStep {
                        state: st,
                        pos,
                        out: SpecNext::Fail(Qvs20ErrorReader::NoFieldStart { pos: pos as usize }),
                    }
                }
            },
            CursorState::InsideOfField => {
                match spec_scan_field(s, pos) {
                    FieldScan::Found(j) => SpecStep {
                        state: CursorState::OutsideOfField,
                        pos: j + 1,
                        out: SpecNext::Tok(SpecToken::Field(s.subrange(pos, j))),
                    },
                    FieldScan::MissingEnd(p) => SpecStep {
                        state: st,
                        pos: p,
                        out: SpecNext::Fail(Qvs20ErrorReader::NoFieldEnd { pos: p as usize }),
                    },
                    FieldScan::Premature(p) => SpecStep {
                        state: st,
                        pos: p,
                        out: SpecNext::Fail(
                            Qvs20ErrorReader::PrematureEndOfFile { pos: p as usize },
                        ),
                    },
                }
            },
            CursorState::OutsideOfField => {
                if pos >= s.len() {
                    SpecStep {
                        state: st,
                        pos,
                        out: SpecNext::Fail(
                            Qvs20ErrorReader::NoLastRowDelimiter { pos: pos as usize },
                        ),
                    }
                } else if s[pos] == LEFT_BRACKET {
                    spec_next(s, CursorState::StartOfField, pos)
                } else {
                    spec_next(s, CursorState::InsideRowDelimiter, pos)
                }
            },
            CursorState::InsideRowDelimiter => {
                if pos + 1 >= s.len() {
                    SpecStep {
                        state: CursorState::EndOfFile,
                        pos,
                        out: SpecNext::Tok(SpecToken::RowDelimiter(s[pos])),
                    }
                } else if s[pos + 1] == LEFT_BRACKET {
                    SpecStep {
                        state: CursorState::StartOfField,
                        pos: pos + 1,
                        out: SpecNext::Tok(SpecToken::RowDelimiter(s[pos])),
                    }
                } else {
                    SpecStep {
                        state: st,
                        pos,
                        out: SpecNext::Fail(
                            Qvs20ErrorReader::RowDelimiterMoreThan1Byte { pos: pos as usize },
                        ),
                    }
                }
            },
            CursorState::EndOfFile => SpecStep { state: st, pos, out: SpecNext::End },
        }
    }
}

/// Positions the cursor can stand at in each state: established by the
/// constructor, preserved by every call of `next`.
pub open spec fn wf_reader(r: SpecReader) -> bool {
    0 <= r.pos <= r.input.len() && (r.input.len() > 0 ==> match r.state {
        CursorState::StartOfField => r.pos < r.input.len(),
        CursorState::InsideOfField => 1 <= r.pos,
        CursorState::OutsideOfField => true,
        CursorState::InsideRowDelimiter => r.pos < r.input.len(),
        CursorState::EndOfFile => true,
    })
}

/// The scan for a field end never moves backwards and stays in bounds.
pub proof fn lemma_scan_bounds(s: Seq<u8>, c: int)
    requires
        0 <= c <= s.len(),
    ensures
        match spec_scan_field(s, c) {
            FieldScan::Found(j) => c <= j < s.len() && s[j] == RIGHT_BRACKET,
            FieldScan::MissingEnd(p) => c <= p <= s.len(),
            FieldScan::Premature(p) => c <= p <= s.len(),
        },
    decreases s.len() - c,
{
    lemma_spec_find(s, c, RIGHT_BRACKET);
    match spec_find(s, c, RIGHT_BRACKET) {
        None => {},
        Some(j) => {
            if s[j - 1] != BACKSLASH {
            } else if j + 1 >= s.len() {
            } else {
                lemma_scan_bounds(s, j + 1);
            }
        },
    }
}

/// Where the first `]` from `c` whose predecessor is not `\` stands at
/// `j`, the scan for the field end finds exactly `j`.
pub proof fn lemma_scan_found_at(s: Seq<u8>, c: int, j: int)
    requires
        1 <= c <= j < s.len(),
        s[j] == RIGHT_BRACKET,
        s[j - 1] != BACKSLASH,
        forall|k: int| c <= k < j && #[trigger] s[k] == RIGHT_BRACKET ==> s[k - 1] == BACKSLASH,
    ensures
        spec_scan_field(s, c) == FieldScan::Found(j),
    decreases j - c,
{
    lemma_spec_find(s, c, RIGHT_BRACKET);
    match spec_find(s, c, RIGHT_BRACKET) {
        None => {
            assert(false);
        },
        Some(j1) => {
            assert(j1 <= j);
            if j1 == j {
            } else {
                assert(s[j1 - 1] == BACKSLASH);
                lemma_scan_found_at(s, j1 + 1, j);
            }
        },
    }
}

/// One step of the machine keeps the reader well formed; a field token
/// strictly advances the cursor, and no token moves it out of bounds.
pub proof fn lemma_next_step(r: SpecReader)
    requires
        wf_reader(r),
    ensures
        ({
            let step = spec_next(r.input, r.state, r.pos);
            wf_reader(SpecReader { input: r.input, state: step.state, pos: step.pos })
                && (match step.out {
                SpecNext::Tok(SpecToken::Field(f)) => r.pos < step.pos <= r.input.len(),
                SpecNext::Tok(SpecToken::RowDelimiter(d)) => r.pos <= step.pos <= r.input.len(),
                _ => true,
            })
        }),
    decreases state_rank(r.state),
{
    if r.input.len() == 0 {
    } else {
        match r.state {
            CursorState::StartOfField => {
                if r.input[r.pos] == LEFT_BRACKET && r.pos + 1 < r.input.len() {
                    lemma_next_step(
                        SpecReader {
                            input: r.input,
                            state: CursorState::InsideOfField,
                            pos: r.pos + 1,
                        },
                    );
                }
            },
            CursorState::InsideOfField => {
                lemma_scan_bounds(r.input, r.pos);
            },
            CursorState::OutsideOfField => {
                if r.pos < r.input.len() {
                    if r.input[r.pos] == LEFT_BRACKET {
                        lemma_next_step(
                            SpecReader {
                                input: r.input,
                                state: CursorState::StartOfField,
                                pos: r.pos,
                            },
                        );
                    } else {
                        lemma_next_step(
                            SpecReader {
                                input: r.input,
                                state: CursorState::InsideRowDelimiter,
                                pos: r.pos,
                            },
                        );
                    }
                }
            },
            CursorState::InsideRowDelimiter => {},
            CursorState::EndOfFile => {},
        }
    }
}

impl<'a> ReaderForQvs20<'a> {
    /// The type invariant: see [`wf_reader`].
    #[verifier::type_invariant]
    pub open spec fn wf(self) -> bool {
        wf_reader(self@)
    }

    /// Constructor.  The input is immutably borrowed; no allocation.
    pub fn new(input: &[u8]) -> (r: ReaderForQvs20)
        ensures
            r@.input == input@,
            r@.state == CursorState::StartOfField,
            r@.pos == 0,
    {
        ReaderForQvs20 { input, cursor_state: CursorState::StartOfField, cursor_pos: 0 }
    }

    /// Low level: find the first occurrence of `find_u8` at or after
    /// `pos_cursor`.
    pub fn find_u8_from(source_str: &[u8], pos_cursor: usize, find_u8: u8) -> (r: Option<usize>)
        requires
            pos_cursor <= source_str@.len(),
        ensures
            match r {
                Some(p) => spec_find(source_str@, pos_cursor as int, find_u8) == Some(p as int),
                None => spec_find(source_str@, pos_cursor as int, find_u8) is None,
            },
    {
        let mut i: usize = pos_cursor;
        while i < source_str.len()
            invariant
                pos_cursor <= i <= source_str@.len(),
                spec_find(source_str@, pos_cursor as int, find_u8) == spec_find(
                    source_str@,
                    i as int,
                    find_u8,
                ),
            decreases source_str@.len() - i,
        {
            if source_str[i] == find_u8 {
                return Some(i);
            }
            i = i + 1;
        }
        None
    }

    /// Read the next token: `None` at the end of the sequence, otherwise
    /// the token or the lexical error that [`spec_next`] assigns to the
    /// current reader state.  Total: no input can make it panic.
    #[verifier::loop_isolation(false)]
    pub fn next(&mut self) -> (r: Option<Result<Token<'a>, Qvs20ErrorReader>>)
        ensures
            ({
                let step = spec_next(old(self)@.input, old(self)@.state, old(self)@.pos);
                final(self)@.input == old(self)@.input && final(self)@.state == step.state
                    && final(self)@.pos == step.pos && (match step.out {
                    SpecNext::Tok(t) => r matches Some(Ok(tok)) && tok@ == t,
                    SpecNext::Fail(e) => r == Some(Err::<Token<'a>, Qvs20ErrorReader>(e)),
                    SpecNext::End => r is None,
                })
            }),
    {
        proof {
            use_type_invariant(&*self);
        }
        let ghost orig = self@;
        if self.input.is_empty() {
            return None;
        }
        // This loop breaks only with return
        loop
            invariant
                self@.input == orig.input,
                self@.input.len() > 0,
                spec_next(orig.input, orig.state, orig.pos) == spec_next(
                    self@.input,
                    self@.state,
                    self@.pos,
                ),
            decreases state_rank(self@.state),
        {
            proof {
                use_type_invariant(&*self);
            }
            match self.cursor_state {
                CursorState::StartOfField => {
                    if self.input[self.cursor_pos] == LEFT_BRACKET {
                        *self = ReaderForQvs20 {
                            input: self.input,
                            cursor_state: CursorState::InsideOfField,
                            cursor_pos: self.cursor_pos + 1,
                        };
                        if self.cursor_pos >= self.input.len() {
                            return Some(
                                Err(Qvs20ErrorReader::PrematureEndOfFile { pos: self.cursor_pos }),
                            );
                        }
                        // continue loop
                    } else {
                        return Some(Err(Qvs20ErrorReader::NoFieldStart { pos: self.cursor_pos }));
                    }
                },
                CursorState::InsideOfField => {
                    let start_pos = self.cursor_pos;
                    let mut scan = self.cursor_pos;
                    loop
                        invariant
                            self@.input == orig.input,
                            self@.input.len() > 0,
                            self@.state == CursorState::InsideOfField,
                            self@.pos == start_pos,
                            1 <= start_pos <= scan <= self@.input.len(),
                            spec_scan_field(self@.input, start_pos as int) == spec_scan_field(
                                self@.input,
                                scan as int,
                            ),
                            spec_next(orig.input, orig.state, orig.pos) == spec_next(
                                self@.input,
                                self@.state,
                                self@.pos,
                            ),
                        decreases self@.input.len() - scan,
                    {
                        match Self::find_u8_from(self.input, scan, RIGHT_BRACKET) {
                            None => {
                                *self = ReaderForQvs20 {
                                    input: self.input,
                                    cursor_state: CursorState::InsideOfField,
                                    cursor_pos: scan,
                                };
                                return Some(Err(Qvs20ErrorReader::NoFieldEnd { pos: scan }));
                            },
                            Some(pos) => {
                                proof {
                                    lemma_spec_find(self@.input, scan as int, RIGHT_BRACKET);
                                    assert(spec_find(self@.input, scan as int, RIGHT_BRACKET)
                                        == Some(pos as int));
                                    assert(scan <= pos < self@.input.len());
                                }
                                if self.input[pos - 1] != BACKSLASH {
                                    // the unescaped `]` closes the field
                                    *self = ReaderForQvs20 {
                                        input: self.input,
                                        cursor_state: CursorState::OutsideOfField,
                                        cursor_pos: pos + 1,
                                    };
                                    return Some(
                                        Ok(
                                            Token::Field(
                                                vstd::slice::slice_subrange(
                                                    self.input,
                                                    start_pos,
                                                    pos,
                                                ),
                                            ),
                                        ),
                                    );
                                } else if pos + 1 >= self.input.len() {
                                    // escaped `]` at the very end of the buffer
                                    *self = ReaderForQvs20 {
                                        input: self.input,
                                        cursor_state: CursorState::InsideOfField,
                                        cursor_pos: pos + 1,
                                    };
                                    return Some(
                                        Err(
                                            Qvs20ErrorReader::PrematureEndOfFile {
                                                pos: self.cursor_pos,
                                            },
                                        ),
                                    );
                                } else {
                                    // escaped `]`: keep scanning after it
                                    scan = pos + 1;
                                }
                            },
                        }
                    }
                },
                CursorState::OutsideOfField => {
                    if self.cursor_pos >= self.input.len() {
                        return Some(
                            Err(Qvs20ErrorReader::NoLastRowDelimiter { pos: self.cursor_pos }),
                        );
                    } else if self.input[self.cursor_pos] == LEFT_BRACKET {
                        *self = ReaderForQvs20 {
                            input: self.input,
                            cursor_state: CursorState::StartOfField,
                            cursor_pos: self.cursor_pos,
                        };
                        // continue loop
                    } else {
                        *self = ReaderForQvs20 {
                            input: self.input,
                            cursor_state: CursorState::InsideRowDelimiter,
                            cursor_pos: self.cursor_pos,
                        };
                        // continue loop
                    }
                },
                CursorState::InsideRowDelimiter => {
                    // the row delimiter is exactly one byte
                    if self.cursor_pos >= self.input.len() - 1 {
                        let d = self.input[self.cursor_pos];
                        *self = ReaderForQvs20 {
                            input: self.input,
                            cursor_state: CursorState::EndOfFile,
                            cursor_pos: self.cursor_pos,
                        };
                        return Some(Ok(Token::RowDelimiter(d)));
                    } else if self.input[self.cursor_pos + 1] == LEFT_BRACKET {
                        let d = self.input[self.cursor_pos];
                        *self = ReaderForQvs20 {
                            input: self.input,
                            cursor_state: CursorState::StartOfField,
                            cursor_pos: self.cursor_pos + 1,
                        };
                        return Some(Ok(Token::RowDelimiter(d)));
                    } else {
                        return Some(
                            Err(
                                Qvs20ErrorReader::RowDelimiterMoreThan1Byte {
                                    pos: self.cursor_pos,
                                },
                            ),
                        );
                    }
                },
                CursorState::EndOfFile => {
                    // the end of the token sequence
                    return None;
                },
            }
        }
    }
}

} // verus!
