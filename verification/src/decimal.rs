//! Decimal representation of integers, in both directions: formatting an
//! integer as digit bytes or digit characters, and parsing a signed 64-bit
//! integer from digit bytes.  The writer emits integer cells through the
//! byte side, the assembler reads them back through the parser, and the
//! error messages and version padding use the character side.

use vstd::prelude::*;

verus! {

/// The byte `-` that signs a negative integer.
pub const MINUS: u8 = 45;

/// The byte `0`; digits are the bytes `0` through `9`.
pub const DIGIT_ZERO: u8 = 48;

/// True of the ASCII digit bytes.
pub open spec fn is_digit_byte(b: u8) -> bool {
    DIGIT_ZERO <= b <= 57
}

/// True when every byte of `s` is an ASCII digit.
pub open spec fn all_digits(s: Seq<u8>) -> bool {
    forall|i: int| 0 <= i < s.len() ==> is_digit_byte(#[trigger] s[i])
}

/// Numeric value of a run of ASCII digit bytes (most significant first).
pub open spec fn spec_dec_value(s: Seq<u8>) -> int
    decreases s.len(),
{
    if s.len() == 0 {
        0
    } else {
        spec_dec_value(s.drop_last()) * 10 + (s.last() - DIGIT_ZERO)
    }
}

/// Decimal digit bytes of a non-negative integer, without leading zeros.
pub open spec fn spec_dec_bytes(n: int) -> Seq<u8>
    decreases n,
{
    if n < 10 {
        seq![(DIGIT_ZERO + if n < 0 {
            0
        } else {
            n
        }) as u8]
    } else {
        spec_dec_bytes(n / 10).push((DIGIT_ZERO + n % 10) as u8)
    }
}

/// Decimal digit bytes of a signed integer: a `-` sign, then the digits of
/// the absolute value.
pub open spec fn spec_dec_bytes_signed(v: int) -> Seq<u8> {
    if v < 0 {
        seq![MINUS] + spec_dec_bytes(-v)
    } else {
        spec_dec_bytes(v)
    }
}

/// The signed 64-bit integer denoted by `s`, if `s` is an optional `-`
/// sign followed by one or more ASCII digits and the value fits.
pub open spec fn spec_parse_i64(s: Seq<u8>) -> Option<int> {
    if s.len() > 0 && s[0] == MINUS {
        let d = s.skip(1);
        if d.len() > 0 && all_digits(d) && -spec_dec_value(d) >= i64::MIN {
            Some(-spec_dec_value(d))
        } else {
            None
        }
    } else {
        if s.len() > 0 && all_digits(s) && spec_dec_value(s) <= i64::MAX {
            Some(spec_dec_value(s))
        } else {
            None
        }
    }
}

/// The value of a digit run is never negative.
pub proof fn lemma_dec_value_nonneg(s: Seq<u8>)
    requires
        all_digits(s),
    ensures
        spec_dec_value(s) >= 0,
    decreases s.len(),
{
    if s.len() > 0 {
        assert(all_digits(s.drop_last())) by {
            assert(forall|i: int|
                0 <= i < s.len() - 1 ==> #[trigger] s.drop_last()[i] == s[i]);
        }
        lemma_dec_value_nonneg(s.drop_last());
    }
}

/// Appending digits never shrinks the value.
pub proof fn lemma_dec_value_prefix(s: Seq<u8>, i: int)
    requires
        all_digits(s),
        0 <= i <= s.len(),
    ensures
        spec_dec_value(s) >= spec_dec_value(s.take(i)),
    decreases s.len() - i,
{
    if i < s.len() {
        assert(all_digits(s.take(i))) by {
            assert(forall|k: int| 0 <= k < i ==> #[trigger] s.take(i)[k] == s[k]);
        }
        lemma_dec_value_nonneg(s.take(i));
        assert(s.take(i + 1).drop_last() =~= s.take(i));
        assert(s.take(i + 1).last() == s[i]);
        assert(spec_dec_value(s.take(i + 1)) == spec_dec_value(s.take(i)) * 10 + (s[i]
            - DIGIT_ZERO));
        lemma_dec_value_prefix(s, i + 1);
        assert(s.take(s.len() as int) =~= s);
    } else {
        assert(s.take(i) =~= s);
    }
}

/// The decimal digits of a non-negative integer denote that integer.
pub proof fn lemma_dec_bytes_value(n: int)
    requires
        n >= 0,
    ensures
        spec_dec_bytes(n).len() > 0,
        all_digits(spec_dec_bytes(n)),
        spec_dec_value(spec_dec_bytes(n)) == n,
    decreases n,
{
    if n < 10 {
        let s = spec_dec_bytes(n);
        assert(s =~= seq![(DIGIT_ZERO + n) as u8]);
        assert(s.drop_last() =~= Seq::<u8>::empty());
        assert(s.last() == (DIGIT_ZERO + n) as u8);
        assert(spec_dec_value(s) == spec_dec_value(s.drop_last()) * 10 + (s.last() - DIGIT_ZERO));
        assert(spec_dec_value(s) == n);
    } else {
        lemma_dec_bytes_value(n / 10);
        let s = spec_dec_bytes(n);
        let t = spec_dec_bytes(n / 10);
        assert(s =~= t.push((DIGIT_ZERO + n % 10) as u8));
        assert(s.drop_last() =~= t);
        assert(all_digits(s)) by {
            assert(forall|i: int| 0 <= i < t.len() ==> s[i] == #[trigger] t[i]);
        }
        assert(spec_dec_value(s) == (n / 10) * 10 + n % 10);
        assert(n == (n / 10) * 10 + n % 10) by {
            vstd::arithmetic::div_mod::lemma_fundamental_div_mod(n, 10);
        }
        assert(spec_dec_value(s) == n);
    }
}

/// Parsing reads back exactly the signed decimal form the writer emits.
pub proof fn lemma_parse_dec_bytes_signed(v: int)
    requires
        i64::MIN <= v <= i64::MAX,
    ensures
        spec_parse_i64(spec_dec_bytes_signed(v)) == Some(v),
{
    if v < 0 {
        lemma_dec_bytes_value(-v);
        let s = spec_dec_bytes_signed(v);
        assert(s[0] == MINUS);
        assert(s.skip(1) =~= spec_dec_bytes(-v));
    } else {
        lemma_dec_bytes_value(v);
        let s = spec_dec_bytes_signed(v);
        assert(is_digit_byte(s[0]));
        assert(s[0] != MINUS);
    }
}

/// Format a non-negative integer as decimal digit bytes.
pub fn u64_to_dec_bytes(n: u64) -> (r: Vec<u8>)
    ensures
        r@ == spec_dec_bytes(n as int),
    decreases n,
{
    if n < 10 {
        let mut v: Vec<u8> = Vec::new();
        v.push(DIGIT_ZERO + (n as u8));
        proof {
            assert(v@ =~= spec_dec_bytes(n as int));
        }
        v
    } else {
        let mut v = u64_to_dec_bytes(n / 10);
        v.push(DIGIT_ZERO + ((n % 10) as u8));
        v
    }
}

/// Format a signed 64-bit integer as decimal digit bytes with an optional
/// `-` sign.
pub fn i64_to_dec_bytes(v: i64) -> (r: Vec<u8>)
    ensures
        r@ == spec_dec_bytes_signed(v as int),
{
    if v >= 0 {
        u64_to_dec_bytes(v as u64)
    } else {
        let abs: u64 = if v == i64::MIN {
            9223372036854775808u64
        } else {
            (-v) as u64
        };
        let mut out: Vec<u8> = Vec::new();
        out.push(MINUS);
        let mut digits = u64_to_dec_bytes(abs);
        let mut k: usize = 0;
        proof {
            assert(out@ + digits@.skip(0) =~= seq![MINUS] + digits@);
        }
        while k < digits.len()
            invariant
                k <= digits@.len(),
                out@ + digits@.skip(k as int) == seq![MINUS] + digits@,
            decreases digits@.len() - k,
        {
            let b = digits[k];
            proof {
                assert(digits@.skip(k as int)[0] == b);
                assert(digits@.skip(k as int).skip(1) =~= digits@.skip(k as int + 1));
            }
            out.push(b);
            k = k + 1;
            proof {
                assert(out@ + digits@.skip(k as int) =~= seq![MINUS] + digits@);
            }
        }
        proof {
            assert(digits@.skip(k as int) =~= Seq::<u8>::empty());
            assert(out@ =~= seq![MINUS] + digits@);
        }
        out
    }
}

/// Parse a signed 64-bit integer from bytes: an optional `-` sign, then
/// one or more ASCII digits; `None` on any other shape or on overflow,
/// exactly as [`spec_parse_i64`] states.
pub fn parse_i64(s: &[u8]) -> (r: Option<i64>)
    ensures
        match spec_parse_i64(s@) {
            Some(v) => r == Some(v as i64),
            None => r is None,
        },
{
    let n = s.len();
    if n == 0 {
        return None;
    }
    let neg = s[0] == MINUS;
    let start: usize = if neg {
        1
    } else {
        0
    };
    let ghost digits = if neg {
        s@.skip(1)
    } else {
        s@
    };
    proof {
        if neg {
            assert(forall|k: int| 0 <= k < digits.len() ==> #[trigger] digits[k] == s@[k + 1]);
        }
    }
    if n == start {
        return None;
    }
    let limit: u64 = if neg {
        9223372036854775808u64
    } else {
        9223372036854775807u64
    };
    let mut acc: u64 = 0;
    let mut i: usize = start;
    proof {
        assert(digits.take(0) =~= Seq::<u8>::empty());
    }
    while i < n
        invariant
            start <= i <= n,
            n == s@.len(),
            start == if neg {
                1usize
            } else {
                0usize
            },
            digits == if neg {
                s@.skip(1)
            } else {
                s@
            },
            neg ==> s@[0] == MINUS,
            !neg ==> s@[0] != MINUS,
            limit == if neg {
                9223372036854775808u64
            } else {
                9223372036854775807u64
            },
            all_digits(digits.take(i - start)),
            acc == spec_dec_value(digits.take(i - start)),
            acc <= limit,
        decreases n - i,
    {
        let b = s[i];
        proof {
            assert(digits[i - start] == b);
        }
        if !(DIGIT_ZERO <= b && b <= 57) {
            proof {
                assert(!is_digit_byte(digits[i - start]));
                assert(!all_digits(digits));
            }
            return None;
        }
        let d = (b - DIGIT_ZERO) as u64;
        proof {
            assert(digits.take(i - start + 1).drop_last() =~= digits.take(i - start));
            assert(digits.take(i - start + 1).last() == b);
            assert(all_digits(digits.take(i - start + 1))) by {
                assert(forall|t: int|
                    0 <= t < i - start ==> digits.take(i - start + 1)[t] == #[trigger] digits.take(
                        i - start,
                    )[t]);
                assert(digits.take(i - start + 1)[i - start] == b);
            }
        }
        if acc > (limit - d) / 10 {
            // the digits read so far already exceed the representable
            // range, and further digits can only grow the value
            proof {
                assert(acc * 10 + d > limit) by (nonlinear_arith)
                    requires
                        acc > (limit - d) / 10 && 0 <= d <= 9 && limit >= 9
                            && (limit - d) / 10 * 10 + (limit - d) % 10 == limit - d && 0 <= (limit
                            - d) % 10 < 10,
                ;
                assert(spec_dec_value(digits.take(i - start + 1)) > limit);
                if spec_parse_i64(s@) is Some {
                    assert(all_digits(digits));
                    lemma_dec_value_prefix(digits, i - start + 1);
                    assert(digits.take(digits.len() as int) =~= digits);
                    assert(spec_dec_value(digits) > limit);
                    if neg {
                        assert(-spec_dec_value(digits) < i64::MIN);
                    } else {
                        assert(spec_dec_value(digits) > i64::MAX);
                    }
                    assert(false);
                }
            }
            return None;
        }
        proof {
            assert(acc * 10 + d <= limit) by (nonlinear_arith)
                requires
                    acc <= (limit - d) / 10 && 0 <= d <= 9 && limit >= 9 && (limit - d) / 10 * 10
                        <= limit - d,
            ;
        }
        acc = acc * 10 + d;
        i = i + 1;
    }
    proof {
        assert(digits.take(i - start) =~= digits);
        lemma_dec_value_nonneg(digits);
    }
    if neg {
        if acc == 9223372036854775808u64 {
            Some(i64::MIN)
        } else {
            Some(-(acc as i64))
        }
    } else {
        Some(acc as i64)
    }
}

/// Decimal digit characters of a non-negative integer; the character
/// mirror of [`spec_dec_bytes`], used by error messages and padding.
pub open spec fn spec_dec_chars(n: int) -> Seq<char> {
    spec_dec_bytes(n).map_values(|b: u8| b as char)
}

/// Relies on String::push: appends exactly the given character.
#[verifier::external_body]
fn push_char(s: &mut String, c: char)
    ensures
        final(s)@ == old(s)@.push(c),
{
    s.push(c);
}

/// Append the decimal digit characters of `n` to `s`.
pub fn append_dec_chars(s: &mut String, n: u64)
    ensures
        final(s)@ == old(s)@ + spec_dec_chars(n as int),
    decreases n,
{
    if n < 10 {
        let c: char = match n {
            0 => '0',
            1 => '1',
            2 => '2',
            3 => '3',
            4 => '4',
            5 => '5',
            6 => '6',
            7 => '7',
            8 => '8',
            _ => '9',
        };
        push_char(s, c);
        proof {
            assert(c as u8 == (DIGIT_ZERO + n) as u8);
            assert(spec_dec_chars(n as int) =~= seq![(DIGIT_ZERO + n) as u8 as char]);
        }
    } else {
        append_dec_chars(s, n / 10);
        let d = n % 10;
        let c: char = match d {
            0 => '0',
            1 => '1',
            2 => '2',
            3 => '3',
            4 => '4',
            5 => '5',
            6 => '6',
            7 => '7',
            8 => '8',
            _ => '9',
        };
        push_char(s, c);
        proof {
            assert(c as u8 == (DIGIT_ZERO + n % 10) as u8);
            assert(spec_dec_chars(n as int) =~= spec_dec_chars(n as int / 10).push(
                (DIGIT_ZERO + n as int % 10) as u8 as char,
            ));
        }
    }
}

/// Decimal digit characters of `n`, left-padded with zeros to `width`.
pub open spec fn spec_padded_dec(n: int, width: int) -> Seq<char> {
    if spec_dec_chars(n).len() >= width {
        spec_dec_chars(n)
    } else {
        Seq::new((width - spec_dec_chars(n).len()) as nat, |i: int| '0') + spec_dec_chars(n)
    }
}

/// Append the decimal digits of `n`, left-padded with zeros to `width`.
pub fn append_padded_dec(s: &mut String, n: u64, width: usize)
    ensures
        final(s)@ == old(s)@ + spec_padded_dec(n as int, width as int),
{
    let mut digits = String::new();
    append_dec_chars(&mut digits, n);
    let l = vstd::string::StrSliceExecFns::unicode_len(digits.as_str());
    let mut k: usize = l;
    proof {
        assert(s@ =~= old(s)@ + Seq::new((k - l) as nat, |i: int| '0'));
    }
    while k < width
        invariant
            l <= k,
            k <= width || k == l,
            l == spec_dec_chars(n as int).len(),
            digits@ == spec_dec_chars(n as int),
            s@ == old(s)@ + Seq::new((k - l) as nat, |i: int| '0'),
        decreases width - k,
    {
        let ghost pre = s@;
        push_char(s, '0');
        k = k + 1;
        proof {
            assert(s@ =~= old(s)@ + Seq::new((k - l) as nat, |i: int| '0'));
        }
    }
    vstd::string::StringExecFns::append(s, digits.as_str());
    proof {
        if spec_dec_chars(n as int).len() >= width {
            assert(Seq::new((k - l) as nat, |i: int| '0') =~= Seq::<char>::empty());
            assert(s@ =~= old(s)@ + spec_padded_dec(n as int, width as int));
        } else {
            assert(s@ =~= old(s)@ + spec_padded_dec(n as int, width as int));
        }
    }
}

} // verus!
