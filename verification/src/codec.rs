//! The escape codec: the pure transform between raw field content and its
//! escaped wire form.
//!
//! Six reserved bytes each get a two-byte escape: `\\` for backslash,
//! `\[` and `\]` for the brackets, and `\n`, `\r`, `\t` for newline,
//! carriage return and tab.  Both directions work on raw bytes, not on a
//! text encoding: encoding validity is checked only after unescaping.

use vstd::prelude::*;

verus! {

/// The escape lead byte `\`.
pub const BACKSLASH: u8 = 92;

/// The byte `[` that opens a field.
pub const LEFT_BRACKET: u8 = 91;

/// The byte `]` that closes a field.
pub const RIGHT_BRACKET: u8 = 93;

/// The newline byte.
pub const NEWLINE: u8 = 10;

/// The carriage-return byte.
pub const CARRIAGE_RETURN: u8 = 13;

/// The tab byte.
pub const TAB: u8 = 9;

/// The code byte `n` that stands for newline in an escape pair.
pub const CODE_N: u8 = 110;

/// The code byte `r` that stands for carriage return in an escape pair.
pub const CODE_R: u8 = 114;

/// The code byte `t` that stands for tab in an escape pair.
pub const CODE_T: u8 = 116;

/// The byte `?`, the lenient substitute for an unrecognized escape code.
pub const QUESTION_MARK: u8 = 63;

/// True of the six raw bytes that must never appear bare inside a field.
pub open spec fn is_reserved_byte(b: u8) -> bool {
    b == BACKSLASH || b == LEFT_BRACKET || b == RIGHT_BRACKET || b == NEWLINE || b == CARRIAGE_RETURN || b == TAB
}

/// The byte that follows `\` in the escaped form of a reserved byte.
pub open spec fn escape_code(b: u8) -> u8
    recommends
        is_reserved_byte(b),
{
    if b == NEWLINE {
        CODE_N
    } else if b == CARRIAGE_RETURN {
        CODE_R
    } else if b == TAB {
        CODE_T
    } else {
        b
    }
}

/// True of the six bytes that may follow `\` in a well-formed escape pair.
pub open spec fn is_escape_code(c: u8) -> bool {
    c == BACKSLASH || c == LEFT_BRACKET || c == RIGHT_BRACKET || c == CODE_N || c == CODE_R || c == CODE_T
}

/// The raw byte denoted by the byte following `\`; an unrecognized code
/// byte maps to the lenient sentinel `?`.
pub open spec fn unescape_code(c: u8) -> u8 {
    if c == BACKSLASH {
        BACKSLASH
    } else if c == LEFT_BRACKET {
        LEFT_BRACKET
    } else if c == RIGHT_BRACKET {
        RIGHT_BRACKET
    } else if c == CODE_N {
        NEWLINE
    } else if c == CODE_R {
        CARRIAGE_RETURN
    } else if c == CODE_T {
        TAB
    } else {
        QUESTION_MARK
    }
}

/// The escaped form of a raw byte sequence: each reserved byte becomes its
/// two-byte escape pair, every other byte is copied verbatim.
pub open spec fn escape_seq(raw: Seq<u8>) -> Seq<u8>
    decreases raw.len(),
{
    if raw.len() == 0 {
        Seq::empty()
    } else if is_reserved_byte(raw[0]) {
        seq![BACKSLASH, escape_code(raw[0])] + escape_seq(raw.skip(1))
    } else {
        seq![raw[0]] + escape_seq(raw.skip(1))
    }
}

/// The raw form of an escaped byte sequence: each `\`-pair becomes the raw
/// byte its code denotes, every other byte is copied verbatim.  A lone `\`
/// at the very end (which no tokenized field can contain) denotes nothing.
pub open spec fn unescape_seq(enc: Seq<u8>) -> Seq<u8>
    decreases enc.len(),
{
    if enc.len() == 0 {
        Seq::empty()
    } else if enc[0] == BACKSLASH {
        if enc.len() == 1 {
            Seq::empty()
        } else {
            seq![unescape_code(enc[1])] + unescape_seq(enc.skip(2))
        }
    } else {
        seq![enc[0]] + unescape_seq(enc.skip(1))
    }
}

/// A well-formed escaped sequence: every `\` starts a recognized two-byte
/// escape pair, and no reserved byte appears bare.
pub open spec fn wf_escaped(enc: Seq<u8>) -> bool
    decreases enc.len(),
{
    if enc.len() == 0 {
        true
    } else if enc[0] == BACKSLASH {
        enc.len() >= 2 && is_escape_code(enc[1]) && wf_escaped(enc.skip(2))
    } else {
        !is_reserved_byte(enc[0]) && wf_escaped(enc.skip(1))
    }
}

/// Escape a raw byte sequence for the wire: the exact inverse of
/// [`unescape`] on content without unrecognized escapes.
pub fn escape(raw: &[u8]) -> (r: Vec<u8>)
    ensures
        r@ == escape_seq(raw@),
{
    let mut out: Vec<u8> = Vec::new();
    let mut i: usize = 0;
    proof {
        assert(raw@.skip(0) =~= raw@);
        assert(escape_seq(raw@) =~= out@ + escape_seq(raw@.skip(0)));
    }
    while i < raw.len()
        invariant
            i <= raw@.len(),
            escape_seq(raw@) == out@ + escape_seq(raw@.skip(i as int)),
        decreases raw@.len() - i,
    {
        let ghost pre_out = out@;
        let ghost pre_i = i as int;
        let b = raw[i];
        proof {
            assert(raw@.skip(pre_i)[0] == b);
            assert(raw@.skip(pre_i).skip(1) =~= raw@.skip(pre_i + 1));
        }
        if b == BACKSLASH || b == LEFT_BRACKET || b == RIGHT_BRACKET || b == NEWLINE || b == CARRIAGE_RETURN || b == TAB {
            out.push(BACKSLASH);
            if b == NEWLINE {
                out.push(CODE_N);
            } else if b == CARRIAGE_RETURN {
                out.push(CODE_R);
            } else if b == TAB {
                out.push(CODE_T);
            } else {
                out.push(b);
            }
            proof {
                assert(out@ =~= pre_out + seq![BACKSLASH, escape_code(b)]);
            }
        } else {
            out.push(b);
            proof {
                assert(out@ =~= pre_out + seq![b]);
            }
        }
        i = i + 1;
        proof {
            assert(escape_seq(raw@) == pre_out + escape_seq(raw@.skip(pre_i)));
            assert(escape_seq(raw@) =~= out@ + escape_seq(raw@.skip(i as int)));
        }
    }
    proof {
        assert(raw@.skip(i as int) =~= Seq::<u8>::empty());
        assert(out@ =~= escape_seq(raw@));
    }
    out
}

/// Unescape a wire byte sequence back to raw content.  Total: an
/// unrecognized code byte yields `?`, and a lone trailing `\` yields
/// nothing (no field produced by the tokenizer ends with `\`).
pub fn unescape(enc: &[u8]) -> (r: Vec<u8>)
    ensures
        r@ == unescape_seq(enc@),
{
    let mut out: Vec<u8> = Vec::new();
    let mut i: usize = 0;
    proof {
        assert(enc@.skip(0) =~= enc@);
        assert(unescape_seq(enc@) =~= out@ + unescape_seq(enc@.skip(0)));
    }
    while i < enc.len()
        invariant
            i <= enc@.len(),
            unescape_seq(enc@) == out@ + unescape_seq(enc@.skip(i as int)),
        decreases enc@.len() - i,
    {
        let ghost pre_out = out@;
        let ghost pre_i = i as int;
        let b = enc[i];
        proof {
            assert(enc@.skip(pre_i)[0] == b);
        }
        if b == BACKSLASH {
            if i + 1 < enc.len() {
                proof {
                    assert(enc@.skip(pre_i)[1] == enc@[pre_i + 1]);
                    assert(enc@.skip(pre_i).skip(2) =~= enc@.skip(pre_i + 2));
                }
                let c = enc[i + 1];
                if c == BACKSLASH {
                    out.push(BACKSLASH);
                } else if c == LEFT_BRACKET {
                    out.push(LEFT_BRACKET);
                } else if c == RIGHT_BRACKET {
                    out.push(RIGHT_BRACKET);
                } else if c == CODE_N {
                    out.push(NEWLINE);
                } else if c == CODE_R {
                    out.push(CARRIAGE_RETURN);
                } else if c == CODE_T {
                    out.push(TAB);
                } else {
                    out.push(QUESTION_MARK);
                }
                i = i + 2;
                proof {
                    assert(out@ =~= pre_out + seq![unescape_code(c)]);
                }
            } else {
                proof {
                    assert(enc@.skip(pre_i).len() == 1);
                }
                i = i + 1;
                proof {
                    assert(enc@.skip(i as int) =~= Seq::<u8>::empty());
                    assert(out@ =~= pre_out + Seq::<u8>::empty());
                }
            }
        } else {
            proof {
                assert(enc@.skip(pre_i).skip(1) =~= enc@.skip(pre_i + 1));
            }
            out.push(b);
            i = i + 1;
            proof {
                assert(out@ =~= pre_out + seq![b]);
            }
        }
        proof {
            assert(unescape_seq(enc@) == pre_out + unescape_seq(enc@.skip(pre_i)));
            assert(unescape_seq(enc@) =~= out@ + unescape_seq(enc@.skip(i as int)));
        }
    }
    proof {
        assert(enc@.skip(i as int) =~= Seq::<u8>::empty());
        assert(out@ =~= unescape_seq(enc@));
    }
    out
}

/// Law: unescaping undoes escaping, for any raw byte sequence.
pub proof fn lemma_unescape_escape(raw: Seq<u8>)
    ensures
        unescape_seq(escape_seq(raw)) == raw,
    decreases raw.len(),
{
    if raw.len() == 0 {
        assert(unescape_seq(escape_seq(raw)) =~= raw);
    } else {
        lemma_unescape_escape(raw.skip(1));
        if is_reserved_byte(raw[0]) {
            let e = escape_seq(raw);
            assert(e[0] == BACKSLASH);
            assert(e[1] == escape_code(raw[0]));
            assert(e.skip(2) =~= escape_seq(raw.skip(1)));
            assert(unescape_code(escape_code(raw[0])) == raw[0]);
            assert(unescape_seq(e) =~= raw);
        } else {
            let e = escape_seq(raw);
            assert(e[0] == raw[0]);
            assert(e.skip(1) =~= escape_seq(raw.skip(1)));
            assert(unescape_seq(e) =~= raw);
        }
    }
}

/// Law: escaping undoes unescaping on any well-formed escaped sequence
/// (every escape pair recognized, no bare reserved byte).
pub proof fn lemma_escape_unescape(enc: Seq<u8>)
    requires
        wf_escaped(enc),
    ensures
        escape_seq(unescape_seq(enc)) == enc,
    decreases enc.len(),
{
    if enc.len() == 0 {
        assert(escape_seq(unescape_seq(enc)) =~= enc);
    } else if enc[0] == BACKSLASH {
        lemma_escape_unescape(enc.skip(2));
        let u = unescape_seq(enc);
        assert(is_reserved_byte(unescape_code(enc[1])));
        assert(escape_code(unescape_code(enc[1])) == enc[1]);
        assert(u[0] == unescape_code(enc[1]));
        assert(u.skip(1) =~= unescape_seq(enc.skip(2)));
        assert(escape_seq(u) =~= enc);
    } else {
        lemma_escape_unescape(enc.skip(1));
        let u = unescape_seq(enc);
        assert(u[0] == enc[0]);
        assert(u.skip(1) =~= unescape_seq(enc.skip(1)));
        assert(escape_seq(u) =~= enc);
    }
}

/// In an escaped sequence every `]` sits right after a `\`, so the
/// tokenizer never takes a content byte for the closing bracket.
pub proof fn lemma_escape_bracket_escaped(raw: Seq<u8>)
    ensures
        forall|j: int|
            0 <= j < escape_seq(raw).len() && #[trigger] escape_seq(raw)[j] == RIGHT_BRACKET ==> j
                >= 1 && escape_seq(raw)[j - 1] == BACKSLASH,
    decreases raw.len(),
{
    if raw.len() > 0 {
        lemma_escape_bracket_escaped(raw.skip(1));
        let e = escape_seq(raw);
        let t = escape_seq(raw.skip(1));
        let head: int = if is_reserved_byte(raw[0]) {
            2
        } else {
            1
        };
        assert(e.len() == head + t.len());
        assert forall|j: int| 0 <= j < e.len() && #[trigger] e[j] == RIGHT_BRACKET implies j >= 1 && e[j - 1]
            == BACKSLASH by {
            if head == 2 {
                assert(e[0] == BACKSLASH);
                assert(e[1] == escape_code(raw[0]));
            } else {
                assert(e[0] == raw[0]);
            }
            if j >= head {
                assert(e[j] == t[j - head]);
                if j == head {
                    // the first byte of the tail unit is `\` or a
                    // non-reserved byte, never `]`
                    if raw.skip(1).len() > 0 {
                        if is_reserved_byte(raw.skip(1)[0]) {
                            assert(t[0] == BACKSLASH);
                        } else {
                            assert(t[0] == raw.skip(1)[0]);
                        }
                    }
                    assert(false);
                } else {
                    assert(e[j - 1] == t[j - head - 1]);
                }
            }
        }
    }
}

/// An escaped sequence never ends with `\` unless the raw content does,
/// so the closing bracket the writer appends is never taken for escaped.
pub proof fn lemma_escape_last_not_backslash(raw: Seq<u8>)
    requires
        raw.len() > 0 ==> raw.last() != BACKSLASH,
    ensures
        escape_seq(raw).len() > 0 ==> escape_seq(raw).last() != BACKSLASH,
    decreases raw.len(),
{
    if raw.len() > 0 {
        let e = escape_seq(raw);
        if raw.len() == 1 {
            assert(escape_seq(raw.skip(1)) =~= Seq::<u8>::empty());
            if is_reserved_byte(raw[0]) {
                assert(e =~= seq![BACKSLASH, escape_code(raw[0])]);
                assert(escape_code(raw[0]) != BACKSLASH);
            } else {
                assert(e =~= seq![raw[0]]);
            }
        } else {
            assert(raw.skip(1).last() == raw.last());
            lemma_escape_last_not_backslash(raw.skip(1));
            assert(escape_seq(raw.skip(1)).len() > 0);
            assert(e.last() == escape_seq(raw.skip(1)).last());
        }
    }
}

} // verus!
