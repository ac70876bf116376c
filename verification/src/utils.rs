//! Version-string helpers: read the three numeric parts of a version
//! such as `12.99.88alpha`, and render a version as zero-padded fixed
//! columns so that plain text ordering matches numeric ordering.

use crate::decimal::{
    is_digit_byte, lemma_dec_value_nonneg, lemma_dec_value_prefix, spec_dec_value, spec_padded_dec,
    DIGIT_ZERO,
};
use vstd::prelude::*;
use vstd::string::{StringExecFns, StringSliceAdditionalSpecFns};

verus! {

/// The position right after the digit run that starts at `from`.
pub open spec fn spec_digits_end(s: Seq<u8>, from: int) -> int
    decreases s.len() - from,
{
    if from < 0 || from >= s.len() {
        from
    } else if is_digit_byte(s[from]) {
        spec_digits_end(s, from + 1)
    } else {
        from
    }
}

/// The digit run ends at its end: everything before is a digit, and the
/// end is the buffer end or a non-digit.
proof fn lemma_digits_end(s: Seq<u8>, from: int)
    requires
        0 <= from <= s.len(),
    ensures
        from <= spec_digits_end(s, from) <= s.len(),
        forall|k: int| from <= k < spec_digits_end(s, from) ==> is_digit_byte(#[trigger] s[k]),
        spec_digits_end(s, from) < s.len() ==> !is_digit_byte(s[spec_digits_end(s, from)]),
    decreases s.len() - from,
{
    if from < s.len() && is_digit_byte(s[from]) {
        lemma_digits_end(s, from + 1);
    }
}

/// The value of the digit run that starts at `from`.
pub open spec fn spec_number_at(s: Seq<u8>, from: int) -> int {
    spec_dec_value(s.subrange(from, spec_digits_end(s, from)))
}

/// A version string the scanner accepts: ASCII text with
/// a digit run at the start, one more right after each of the first two
/// runs' following byte, and each of the three values fitting `usize`.
pub open spec fn spec_semver_parsable(b: Seq<u8>) -> bool {
    let e1 = spec_digits_end(b, 0);
    let e2 = spec_digits_end(b, e1 + 1);
    &&& b.len() > 0
    &&& is_digit_byte(b[0])
    &&& e1 + 1 < b.len() && is_digit_byte(b[e1 + 1])
    &&& e2 + 1 < b.len() && is_digit_byte(b[e2 + 1])
    &&& spec_number_at(b, 0) <= usize::MAX
    &&& spec_number_at(b, e1 + 1) <= usize::MAX
    &&& spec_number_at(b, e2 + 1) <= usize::MAX
}

/// The three numeric parts (major, minor, patch) of a version string.
pub open spec fn spec_semver(b: Seq<u8>) -> (int, int, int) {
    let e1 = spec_digits_end(b, 0);
    let e2 = spec_digits_end(b, e1 + 1);
    (spec_number_at(b, 0), spec_number_at(b, e1 + 1), spec_number_at(b, e2 + 1))
}

/// parse the next digit run: its value and the position after it
fn parse_next_number(text: &str, pos: usize) -> (r: (usize, usize))
    requires
        text.is_ascii(),
        pos < text.spec_bytes().len(),
        is_digit_byte(text.spec_bytes()[pos as int]),
        spec_number_at(text.spec_bytes(), pos as int) <= usize::MAX,
    ensures
        r.1 == spec_digits_end(text.spec_bytes(), pos as int),
        r.0 == spec_number_at(text.spec_bytes(), pos as int),
        text.spec_bytes().len() <= usize::MAX,
{
    let b = text.as_bytes();
    let ghost bs = text.spec_bytes();
    let ghost end = spec_digits_end(bs, pos as int);
    proof {
        lemma_digits_end(bs, pos as int);
        assert(forall|k: int|
            pos <= k <= end ==> spec_digits_end(bs, k) == end) by {
            assert forall|k: int| pos <= k <= end implies spec_digits_end(bs, k) == end by {
                lemma_digits_end_stable(bs, pos as int, k);
            }
        }
        let run = bs.subrange(pos as int, end);
        assert(crate::decimal::all_digits(run));
        lemma_dec_value_nonneg(run);
    }
    let mut number: usize = 0;
    let mut i: usize = pos;
    proof {
        assert(bs.subrange(pos as int, pos as int) =~= Seq::<u8>::empty());
    }
    while i < b.len() && DIGIT_ZERO <= b[i] && b[i] <= 57
        invariant
            pos <= i <= bs.len(),
            b@ == bs,
            end == spec_digits_end(bs, pos as int),
            i <= end,
            number == spec_dec_value(bs.subrange(pos as int, i as int)),
            i < end ==> is_digit_byte(bs[i as int]),
            forall|k: int| pos <= k < end ==> is_digit_byte(#[trigger] bs[k]),
            end <= bs.len(),
            end < bs.len() ==> !is_digit_byte(bs[end]),
            spec_dec_value(bs.subrange(pos as int, end)) <= usize::MAX,
        decreases bs.len() - i,
    {
        let d = (b[i] - DIGIT_ZERO) as usize;
        proof {
            let run = bs.subrange(pos as int, end);
            assert(crate::decimal::all_digits(run));
            assert(bs.subrange(pos as int, i as int + 1).drop_last() =~= bs.subrange(
                pos as int,
                i as int,
            ));
            assert(bs.subrange(pos as int, i as int + 1).last() == bs[i as int]);
            assert(bs.subrange(pos as int, i as int + 1) =~= run.take(i + 1 - pos));
            lemma_dec_value_prefix(run, i + 1 - pos);
            assert(run.take(run.len() as int) =~= run);
            assert(spec_dec_value(bs.subrange(pos as int, i as int + 1)) <= usize::MAX);
        }
        number = number * 10 + d;
        i = i + 1;
    }
    proof {
        assert(i == end) by {
            if i < end {
                assert(is_digit_byte(bs[i as int]));
            }
        }
    }
    (number, i)
}

/// The end of a digit run is the same seen from anywhere inside it.
proof fn lemma_digits_end_stable(s: Seq<u8>, from: int, mid: int)
    requires
        0 <= from <= mid <= spec_digits_end(s, from),
        from <= s.len(),
    ensures
        spec_digits_end(s, mid) == spec_digits_end(s, from),
    decreases mid - from,
{
    lemma_digits_end(s, from);
    if from < mid {
        lemma_digits_end_stable(s, from + 1, mid);
    }
}

/// the value of the digit run at `from`, with its end, unless the value
/// does not fit `usize`
fn checked_number_at(b: &[u8], from: usize) -> (r: Option<(usize, usize)>)
    requires
        from <= b@.len(),
    ensures
        match r {
            Some(p) => p.1 == spec_digits_end(b@, from as int) && p.0 == spec_number_at(
                b@,
                from as int,
            ),
            None => spec_number_at(b@, from as int) > usize::MAX,
        },
{
    let ghost bs = b@;
    let ghost end = spec_digits_end(bs, from as int);
    proof {
        lemma_digits_end(bs, from as int);
        assert forall|k: int| from <= k <= end implies spec_digits_end(bs, k) == end by {
            lemma_digits_end_stable(bs, from as int, k);
        }
        let run = bs.subrange(from as int, end);
        assert(crate::decimal::all_digits(run));
        lemma_dec_value_nonneg(run);
    }
    let mut number: usize = 0;
    let mut i: usize = from;
    proof {
        assert(bs.subrange(from as int, from as int) =~= Seq::<u8>::empty());
    }
    while i < b.len() && DIGIT_ZERO <= b[i] && b[i] <= 57
        invariant
            from <= i <= bs.len(),
            b@ == bs,
            end == spec_digits_end(bs, from as int),
            i <= end,
            number == spec_dec_value(bs.subrange(from as int, i as int)),
            i < end ==> is_digit_byte(bs[i as int]),
            forall|k: int| from <= k < end ==> is_digit_byte(#[trigger] bs[k]),
            end <= bs.len(),
            end < bs.len() ==> !is_digit_byte(bs[end]),
        decreases bs.len() - i,
    {
        let d = (b[i] - DIGIT_ZERO) as usize;
        proof {
            let run = bs.subrange(from as int, end);
            assert(crate::decimal::all_digits(run));
            assert(bs.subrange(from as int, i as int + 1).drop_last() =~= bs.subrange(
                from as int,
                i as int,
            ));
            assert(bs.subrange(from as int, i as int + 1).last() == bs[i as int]);
            assert(bs.subrange(from as int, i as int + 1) =~= run.take(i + 1 - from));
        }
        if number > (usize::MAX - d) / 10 {
            // the digits read so far already exceed `usize`, and further
            // digits can only grow the value
            proof {
                let limit = usize::MAX;
                assert(number * 10 + d > limit) by (nonlinear_arith)
                    requires
                        number > (limit - d) / 10 && 0 <= d <= 9 && limit >= 9 && (limit - d) / 10
                            * 10 + (limit - d) % 10 == limit - d && 0 <= (limit - d) % 10 < 10,
                ;
                let run = bs.subrange(from as int, end);
                lemma_dec_value_prefix(run, i + 1 - from);
                assert(run.take(run.len() as int) =~= run);
            }
            return None;
        }
        proof {
            let limit = usize::MAX;
            assert(number * 10 + d <= limit) by (nonlinear_arith)
                requires
                    number <= (limit - d) / 10 && 0 <= d <= 9 && limit >= 9 && (limit - d) / 10
                        * 10 <= limit - d,
            ;
        }
        number = number * 10 + d;
        i = i + 1;
    }
    proof {
        assert(i == end) by {
            if i < end {
                assert(is_digit_byte(bs[i as int]));
            }
        }
    }
    Some((number, i))
}

/// decide whether a version string has the shape [`parse_semver`] asks
/// for, and parse it where it does: `Some` exactly on ASCII text whose
/// three leading digit runs exist and fit `usize`
pub fn try_parse_semver(text: &str) -> (r: Option<(usize, usize, usize)>)
    ensures
        match r {
            Some(t) => text.is_ascii() && spec_semver_parsable(text.spec_bytes()) && ({
                let (ma, mi, pa) = spec_semver(text.spec_bytes());
                t.0 == ma && t.1 == mi && t.2 == pa
            }),
            None => !(text.is_ascii() && spec_semver_parsable(text.spec_bytes())),
        },
{
    if !text.is_ascii() {
        return None;
    }
    let b = text.as_bytes();
    if b.len() == 0 {
        return None;
    }
    if !(DIGIT_ZERO <= b[0] && b[0] <= 57) {
        return None;
    }
    let (major, e1) = match checked_number_at(b, 0) {
        Some(p) => p,
        None => {
            return None;
        },
    };
    proof {
        lemma_digits_end(b@, 0);
    }
    if e1 >= b.len() - 1 {
        return None;
    }
    if !(DIGIT_ZERO <= b[e1 + 1] && b[e1 + 1] <= 57) {
        return None;
    }
    let (minor, e2) = match checked_number_at(b, e1 + 1) {
        Some(p) => p,
        None => {
            return None;
        },
    };
    proof {
        lemma_digits_end(b@, e1 + 1);
    }
    if e2 >= b.len() - 1 {
        return None;
    }
    if !(DIGIT_ZERO <= b[e2 + 1] && b[e2 + 1] <= 57) {
        return None;
    }
    let (patch, _e3) = match checked_number_at(b, e2 + 1) {
        Some(p) => p,
        None => {
            return None;
        },
    };
    Some((major, minor, patch))
}

/// parse a version such as `12.99.88alpha` into its three numeric parts
pub fn parse_semver(text: &str) -> (r: (usize, usize, usize))
    requires
        text.is_ascii(),
        spec_semver_parsable(text.spec_bytes()),
    ensures
        ({
            let (ma, mi, pa) = spec_semver(text.spec_bytes());
            r.0 == ma && r.1 == mi && r.2 == pa
        }),
{
    let pos: usize = 0;
    let (major, pos) = parse_next_number(text, pos);
    // jump over the separator
    let pos = pos + 1;
    let (minor, pos) = parse_next_number(text, pos);
    // jump over the separator
    let pos = pos + 1;
    let (patch, _pos) = parse_next_number(text, pos);
    (major, minor, patch)
}

/// render a version with each numeric part zero-padded to nine digits,
/// so that text order is numeric order
pub fn version_for_sorting(version: &str) -> (r: String)
    requires
        version.is_ascii(),
        spec_semver_parsable(version.spec_bytes()),
    ensures
        ({
            let (ma, mi, pa) = spec_semver(version.spec_bytes());
            r@ == spec_padded_dec(ma, 9) + "."@ + spec_padded_dec(mi, 9) + "."@ + spec_padded_dec(
                pa,
                9,
            )
        }),
{
    let (major, minor, patch) = parse_semver(version);
    let mut out = String::new();
    crate::decimal::append_padded_dec(&mut out, major as u64, 9);
    out.append(".");
    crate::decimal::append_padded_dec(&mut out, minor as u64, 9);
    out.append(".");
    crate::decimal::append_padded_dec(&mut out, patch as u64, 9);
    out
}

} // verus!
