//! Numeric literal boundary detection.
//!
//! Starting at the cursor the scanner optionally consumes a single `-`, then
//! an integer part that is either a single `0` or a non-zero digit followed
//! by further digits, then attempts a fractional part (`.` followed by a
//! non-empty digit run; a `.` with no following digit is not consumed), then
//! attempts an exponent (`e`/`E`, optional sign, one or more digits).  A
//! non-empty fractional part or a valid exponent makes the literal a float;
//! otherwise it is an integer.  The exact character length of the full
//! literal is computed in one pass, so the reported span and the returned
//! value always agree in total length.
//!
//! The `num_*` spec functions below state the algorithm mathematically; the
//! scanner is proved to match them, and `lemma_numeric_reslice` shows that
//! the decision depends only on the characters of the literal itself.

use vstd::prelude::*;
use crate::ast::Value;
use crate::ast::Positioned;
use crate::error::ErrorKind;
use crate::error::ParsingError;

verus! {

pub open spec fn is_digit(c: char) -> bool {
    48 <= c as u32 && c as u32 <= 57
}

pub open spec fn is_nonzero_digit(c: char) -> bool {
    49 <= c as u32 && c as u32 <= 57
}

pub open spec fn digit_val(c: char) -> int {
    c as u32 - 48
}

/// The number of consecutive digits of `s` starting at `i`.
pub open spec fn digit_run(s: Seq<char>, i: int) -> int
    decreases s.len() - i,
{
    if 0 <= i < s.len() && is_digit(s[i]) {
        1 + digit_run(s, i + 1)
    } else {
        0
    }
}

/// The numeric value of the `m` digits of `s` starting at `a`.
pub open spec fn digits_value(s: Seq<char>, a: int, m: int) -> int
    decreases m,
{
    if m <= 0 {
        0
    } else {
        10 * digits_value(s, a, m - 1) + digit_val(s[a + m - 1])
    }
}

/// Length of the optional leading minus sign.
pub open spec fn num_sign_len(s: Seq<char>, i: int) -> int {
    if 0 <= i < s.len() && s[i] == '-' {
        1
    } else {
        0
    }
}

/// Length of the integer part: a single `0`, or a non-zero digit followed by
/// any further digits.  Zero when the literal is not a numeric literal.
pub open spec fn num_int_len(s: Seq<char>, i: int) -> int {
    let k = i + num_sign_len(s, i);
    if 0 <= k < s.len() && s[k] == '0' {
        1
    } else if 0 <= k < s.len() && is_nonzero_digit(s[k]) {
        digit_run(s, k)
    } else {
        0
    }
}

/// Length of the fractional part including the dot; zero when the dot is
/// absent or followed by no digit.
pub open spec fn num_frac_len(s: Seq<char>, i: int) -> int {
    let m = i + num_sign_len(s, i) + num_int_len(s, i);
    if num_int_len(s, i) > 0 && 0 <= m < s.len() && s[m] == '.' && digit_run(s, m + 1) > 0 {
        1 + digit_run(s, m + 1)
    } else {
        0
    }
}

/// Length of the exponent part including `e`/`E` and an optional sign; zero
/// when absent or malformed.
pub open spec fn num_exp_len(s: Seq<char>, i: int) -> int {
    let e = i + num_sign_len(s, i) + num_int_len(s, i) + num_frac_len(s, i);
    if num_int_len(s, i) > 0 && 0 <= e < s.len() && (s[e] == 'e' || s[e] == 'E') {
        let g: int = if 0 <= e + 1 < s.len() && (s[e + 1] == '+' || s[e + 1] == '-') {
            1
        } else {
            0
        };
        if digit_run(s, e + 1 + g) > 0 {
            1 + g + digit_run(s, e + 1 + g)
        } else {
            0
        }
    } else {
        0
    }
}

/// The exact character length of the full literal at `i`, or zero when no
/// numeric literal starts at `i`.
pub open spec fn num_token_len(s: Seq<char>, i: int) -> int {
    if num_int_len(s, i) > 0 {
        num_sign_len(s, i) + num_int_len(s, i) + num_frac_len(s, i) + num_exp_len(s, i)
    } else {
        0
    }
}

/// Whether the literal at `i` is a float: a non-empty fractional part or a
/// valid exponent always makes it one.
pub open spec fn num_is_float(s: Seq<char>, i: int) -> bool {
    num_frac_len(s, i) > 0 || num_exp_len(s, i) > 0
}

/// The mathematical value of an integer literal at `i`.
pub open spec fn num_int_value(s: Seq<char>, i: int) -> int {
    let v = digits_value(s, i + num_sign_len(s, i), num_int_len(s, i));
    if num_sign_len(s, i) > 0 {
        -v
    } else {
        v
    }
}

/// `t` is exactly the text of one numeric literal of float shape.
pub open spec fn is_float_literal(t: Seq<char>) -> bool {
    t.len() > 0 && num_token_len(t, 0) == t.len() && num_is_float(t, 0)
}

pub proof fn lemma_digit_run_bounds(s: Seq<char>, i: int)
    ensures
        0 <= digit_run(s, i),
        0 <= i <= s.len() ==> i + digit_run(s, i) <= s.len(),
        i > s.len() ==> digit_run(s, i) == 0,
        i < 0 ==> digit_run(s, i) == 0,
    decreases s.len() - i,
{
    if 0 <= i < s.len() && is_digit(s[i]) {
        lemma_digit_run_bounds(s, i + 1);
    }
}

/// The token never reaches past the end of the input.
pub proof fn lemma_token_len_bounds(s: Seq<char>, i: int)
    requires
        0 <= i <= s.len(),
    ensures
        0 <= num_token_len(s, i),
        i + num_token_len(s, i) <= s.len(),
{
    let k = i + num_sign_len(s, i);
    lemma_digit_run_bounds(s, k);
    let m = k + num_int_len(s, i);
    lemma_digit_run_bounds(s, m + 1);
    let e = m + num_frac_len(s, i);
    lemma_digit_run_bounds(s, e + 1);
    lemma_digit_run_bounds(s, e + 2);
}

/// A digit run is unchanged by restricting the sequence to a window that
/// contains the whole run.
proof fn lemma_digit_run_subrange(s: Seq<char>, a: int, b: int, i: int)
    requires
        0 <= a <= i <= b <= s.len(),
        i + digit_run(s, i) <= b,
    ensures
        digit_run(s.subrange(a, b), i - a) == digit_run(s, i),
    decreases s.len() - i,
{
    lemma_digit_run_bounds(s, i);
    if i < b && is_digit(s[i]) {
        lemma_digit_run_bounds(s, i + 1);
        lemma_digit_run_subrange(s, a, b, i + 1);
    } else {
    }
}

/// The value of a digit block is unchanged by restricting the sequence to a
/// window that contains the whole block.
proof fn lemma_digits_value_subrange(s: Seq<char>, a: int, b: int, p: int, m: int)
    requires
        0 <= a <= p,
        0 <= m,
        p + m <= b <= s.len(),
    ensures
        digits_value(s.subrange(a, b), p - a, m) == digits_value(s, p, m),
    decreases m,
{
    if m > 0 {
        lemma_digits_value_subrange(s, a, b, p, m - 1);
    }
}

/// Digit blocks are non-negative and grow with their length.
proof fn lemma_digits_value_mono(s: Seq<char>, a: int, m1: int, m2: int)
    requires
        0 <= m1 <= m2,
        forall|x: int| a <= x < a + m2 ==> is_digit(#[trigger] s[x]),
    ensures
        0 <= digits_value(s, a, m1) <= digits_value(s, a, m2),
    decreases m2,
{
    if m2 > m1 {
        lemma_digits_value_mono(s, a, m1, m2 - 1);
    } else if m2 > 0 {
        lemma_digits_value_mono(s, a, 0, m2 - 1);
    }
}

/// Idempotent re-slicing: re-slicing the input at the reported span of an
/// accepted numeric literal and scanning that exact substring as a
/// standalone literal finds the same boundary, the same integer-versus-float
/// decision and the same integer value.
pub proof fn lemma_numeric_reslice(s: Seq<char>, i: int)
    requires
        0 <= i <= s.len(),
        num_token_len(s, i) > 0,
    ensures
        num_token_len(s.subrange(i, i + num_token_len(s, i)), 0) == num_token_len(s, i),
        num_is_float(s.subrange(i, i + num_token_len(s, i)), 0) == num_is_float(s, i),
        num_int_value(s.subrange(i, i + num_token_len(s, i)), 0) == num_int_value(s, i),
{
    lemma_token_len_bounds(s, i);
    let sg = num_sign_len(s, i);
    let il = num_int_len(s, i);
    let fl = num_frac_len(s, i);
    let el = num_exp_len(s, i);
    let total = sg + il + fl + el;
    let t = s.subrange(i, i + total);
    let k = i + sg;
    lemma_digit_run_bounds(s, k);

    // sign part agrees
    assert(num_sign_len(t, 0) == sg);

    // integer part agrees
    if 0 <= k < s.len() && s[k] == '0' {
        assert(num_int_len(t, 0) == il);
    } else {
        lemma_digit_run_subrange(s, i, i + total, k);
        assert(num_int_len(t, 0) == il);
    }

    // fractional part agrees
    let m = k + il;
    if fl > 0 {
        lemma_digit_run_bounds(s, m + 1);
        lemma_digit_run_subrange(s, i, i + total, m + 1);
        assert(num_frac_len(t, 0) == fl);
    } else {
        assert(num_frac_len(t, 0) == 0) by {
            if m - i < t.len() {
                assert(t[m - i] == s[m]);
                assert(s[m] != '.') by {
                    if s[m] == '.' {
                        lemma_digit_run_bounds(s, m + 1);
                    }
                }
            }
        }
    }

    // exponent part agrees
    let e = m + fl;
    if el > 0 {
        let g: int = if 0 <= e + 1 < s.len() && (s[e + 1] == '+' || s[e + 1] == '-') {
            1
        } else {
            0
        };
        lemma_digit_run_bounds(s, e + 1 + g);
        lemma_digit_run_subrange(s, i, i + total, e + 1 + g);
        assert(e + 1 - i < t.len() ==> t[e + 1 - i] == s[e + 1]);
        assert(num_exp_len(t, 0) == el);
    } else {
        assert(e - i == t.len());
        assert(num_exp_len(t, 0) == 0);
    }

    // integer value agrees
    lemma_digits_value_subrange(s, i, i + total, k, il);
}

/// Every character of a digit run is a digit.
proof fn lemma_digit_run_chars(s: Seq<char>, i: int)
    ensures
        forall|x: int| i <= x < i + digit_run(s, i) ==> is_digit(#[trigger] s[x]),
    decreases s.len() - i,
{
    if 0 <= i < s.len() && is_digit(s[i]) {
        lemma_digit_run_chars(s, i + 1);
    }
}

/// True on the digits `'0'` through `'9'`.
pub(crate) fn digit_char(c: char) -> (b: bool)
    ensures
        b == is_digit(c),
{
    let u = c as u32;
    48 <= u && u <= 57
}

/// Scans the digit run starting at `i` and returns the offset one past it.
pub(crate) fn scan_digit_run(input: &str, i: usize) -> (j: usize)
    requires
        i <= input@.len(),
    ensures
        j == i + digit_run(input@, i as int),
        i <= j && j <= input@.len(),
{
    let n = input.unicode_len();
    let mut j = i;
    while j < n && digit_char(input.get_char(j))
        invariant
            i <= j <= n,
            n == input@.len(),
            digit_run(input@, i as int) == (j - i) + digit_run(input@, j as int),
        decreases n - j,
    {
        j = j + 1;
    }
    proof {
        lemma_digit_run_bounds(input@, j as int);
    }
    j
}

/// Whether an integer literal's mathematical value fits in `i64`.
pub open spec fn int_value_fits(s: Seq<char>, i: int) -> bool {
    -0x8000_0000_0000_0000 <= num_int_value(s, i) <= 0x7fff_ffff_ffff_ffff
}


/// Every character of the integer part is a digit.
proof fn lemma_int_part_digits(s: Seq<char>, i: int)
    requires
        0 <= i <= s.len(),
        num_int_len(s, i) > 0,
    ensures
        forall|x: int|
            i + num_sign_len(s, i) <= x < i + num_sign_len(s, i) + num_int_len(s, i)
                ==> is_digit(#[trigger] s[x]),
{
    let k = i + num_sign_len(s, i);
    lemma_digit_run_chars(s, k);
}

/// Scans the boundary of the numeric literal at `pos`: the new offset and
/// the integer-versus-float decision are exactly the ones the `num_*` spec
/// functions give.
#[verifier::rlimit(30)]
fn scan_numeric(input: &str, pos: usize) -> (r: Result<(usize, bool), ParsingError>)
    requires
        pos <= input@.len(),
    ensures
        r is Ok <==> num_token_len(input@, pos as int) > 0,
        r matches Ok((np, f)) ==> pos < np <= input@.len() && np == pos + num_token_len(
            input@,
            pos as int,
        ) && f == num_is_float(input@, pos as int),
        r matches Err(e) ==> e.offset <= input@.len() && e.kind == ErrorKind::Digit,
{
    let ghost s = input@;
    let ghost gi = pos as int;
    let n = input.unicode_len();
    let mut p = pos;
    if p < n && input.get_char(p) == '-' {
        p = p + 1;
    }
    proof {
        assert(num_sign_len(s, gi) == p - pos);
    }
    if p >= n {
        assert(num_int_len(s, gi) == 0);
        return Err(ParsingError { offset: p, kind: ErrorKind::Digit });
    }
    let c = input.get_char(p);
    let istart = p;
    if c == '0' {
        p = p + 1;
        assert(num_int_len(s, gi) == 1);
    } else if digit_char(c) {
        proof {
            lemma_digit_run_bounds(s, istart + 1);
        }
        p = scan_digit_run(input, p);
        assert(num_int_len(s, gi) == p - istart && p > istart);
    } else {
        assert(num_int_len(s, gi) == 0);
        return Err(ParsingError { offset: p, kind: ErrorKind::Digit });
    }
    let ghost il = num_int_len(s, gi);
    proof {
        assert(il > 0 && p == gi + num_sign_len(s, gi) + il);
    }
    let mut is_f = false;
    if p < n && input.get_char(p) == '.' {
        let q = scan_digit_run(input, p + 1);
        if q > p + 1 {
            is_f = true;
            assert(num_frac_len(s, gi) == q - p);
            p = q;
        } else {
            assert(num_frac_len(s, gi) == 0);
        }
    } else {
        assert(num_frac_len(s, gi) == 0);
    }
    proof {
        assert(p == gi + num_sign_len(s, gi) + il + num_frac_len(s, gi));
    }
    let mut has_exp = false;
    if p < n {
        let c2 = input.get_char(p);
        if c2 == 'e' || c2 == 'E' {
            let mut q = p + 1;
            if q < n {
                let c3 = input.get_char(q);
                if c3 == '+' || c3 == '-' {
                    q = q + 1;
                }
            }
            let q2 = scan_digit_run(input, q);
            if q2 > q {
                has_exp = true;
                assert(num_exp_len(s, gi) == q2 - p);
                p = q2;
            } else {
                assert(num_exp_len(s, gi) == 0);
            }
        } else {
            assert(num_exp_len(s, gi) == 0);
        }
    } else {
        assert(num_exp_len(s, gi) == 0);
    }
    proof {
        assert(p - pos == num_token_len(s, gi));
    }
    Ok((p, is_f || has_exp))
}

/// Converts the digit block `[a, b)` to a 64-bit magnitude, rejecting a
/// block whose value exceeds `limit`.
fn digits_to_u64(input: &str, a: usize, b: usize, limit: u64) -> (r: Option<u64>)
    requires
        a <= b <= input@.len(),
        forall|x: int| a <= x < b ==> is_digit(#[trigger] input@[x]),
        limit >= 9223372036854775807,
    ensures
        r matches Some(m) ==> m as int == digits_value(input@, a as int, b - a) && m <= limit,
        r is None <==> digits_value(input@, a as int, b - a) > limit,
{
    let ghost s = input@;
    let mut mag: u64 = 0;
    let mut j = a;
    while j < b
        invariant
            a <= j <= b <= s.len(),
            s == input@,
            forall|x: int| a <= x < b ==> is_digit(#[trigger] s[x]),
            mag == digits_value(s, a as int, j - a),
            mag <= limit,
            limit >= 9223372036854775807,
        decreases b - j,
    {
        let u = input.get_char(j) as u32;
        assert(48 <= u && u <= 57);
        let d = (u - 48) as u64;
        if mag > (limit - d) / 10 {
            proof {
                assert(10 * mag + d > limit);
                assert(digits_value(s, a as int, j + 1 - a) == 10 * mag + d);
                lemma_digits_value_mono(s, a as int, j + 1 - a, b - a);
            }
            return None;
        }
        proof {
            assert(10 * mag + d <= limit);
            assert(digits_value(s, a as int, j + 1 - a) == 10 * mag + d);
        }
        mag = mag * 10 + d;
        j = j + 1;
    }
    Some(mag)
}

/// Scans the numeric literal at `pos` and converts it in one pass: the
/// boundary, the integer-versus-float decision, and for an integer its
/// value, are exactly the ones the `num_*` spec functions give.  A float is
/// returned as its exact source text.  An integer literal whose value does
/// not fit in 64 signed bits is rejected with `ErrorKind::IntOverflow`.
pub(crate) fn value_numeric(input: &str, pos: usize) -> (r: Result<(usize, Value), ParsingError>)
    requires
        pos <= input@.len(),
    ensures
        r is Ok <==> num_token_len(input@, pos as int) > 0 && (num_is_float(input@, pos as int)
            || int_value_fits(input@, pos as int)),
        r matches Ok((np, v)) ==> {
            &&& np == pos + num_token_len(input@, pos as int)
            &&& pos < np <= input@.len()
            &&& crate::ast::value_wf(v)
            &&& (num_is_float(input@, pos as int) ==> (v matches Value::Float(t) && t@
                == input@.subrange(pos as int, np as int)))
            &&& (!num_is_float(input@, pos as int) ==> (v matches Value::Int(x) && x as int
                == num_int_value(input@, pos as int)))
        },
        r matches Err(e) ==> e.offset <= input@.len(),
        r matches Err(e) ==> (e.kind == ErrorKind::IntOverflow ==> num_token_len(
            input@,
            pos as int,
        ) > 0 && !num_is_float(input@, pos as int) && !int_value_fits(input@, pos as int)),
{
    let ghost s = input@;
    let ghost gi = pos as int;
    let (np, is_float) = match scan_numeric(input, pos) {
        Ok(sf) => sf,
        Err(e) => {
            return Err(e);
        },
    };
    if is_float {
        let text_slice = input.substring_char(pos, np);
        let text = String::from_str(text_slice);
        proof {
            lemma_numeric_reslice(s, gi);
        }
        Ok((np, Value::Float(text)))
    } else {
        let neg = input.get_char(pos) == '-';
        let istart: usize = if neg {
            pos + 1
        } else {
            pos
        };
        proof {
            assert(num_sign_len(s, gi) == istart - pos);
            assert(num_frac_len(s, gi) == 0 && num_exp_len(s, gi) == 0);
            assert(np - istart == num_int_len(s, gi));
            lemma_int_part_digits(s, gi);
        }
        let limit: u64 = if neg {
            9223372036854775808
        } else {
            9223372036854775807
        };
        match digits_to_u64(input, istart, np, limit) {
            Some(mag) => {
                proof {
                    lemma_digits_value_mono(s, istart as int, 0, np - istart);
                }
                let v: i64 = if neg {
                    if mag == 9223372036854775808 {
                        i64::MIN
                    } else {
                        -(mag as i64)
                    }
                } else {
                    mag as i64
                };
                Ok((np, Value::Int(v)))
            },
            None => {
                proof {
                    lemma_digits_value_mono(s, istart as int, 0, np - istart);
                }
                Err(ParsingError { offset: pos, kind: ErrorKind::IntOverflow })
            },
        }
    }
}


/// Parses an entire text as one standalone numeric literal: the literal must
/// cover the whole input, exactly as the boundary detector reports it.
pub fn parse_numeric_literal(source: &str) -> (r: Result<Positioned<Value>, ParsingError>)
    ensures
        r is Ok <==> source@.len() > 0 && num_token_len(source@, 0) == source@.len() && (
        num_is_float(source@, 0) || int_value_fits(source@, 0)),
        r matches Ok(p) ==> {
            &&& p.start == 0
            &&& p.end == source@.len()
            &&& crate::ast::value_wf(p.value)
            &&& (num_is_float(source@, 0) ==> (p.value matches Value::Float(t) && t@ == source@))
            &&& (!num_is_float(source@, 0) ==> (p.value matches Value::Int(x) && x as int
                == num_int_value(source@, 0)))
        },
{
    proof {
        lemma_token_len_bounds(source@, 0);
    }
    match value_numeric(source, 0) {
        Ok((np, v)) => {
            let n = source.unicode_len();
            if np < n {
                Err(ParsingError { offset: np, kind: ErrorKind::TrailingInput })
            } else {
                proof {
                    assert(source@.subrange(0, np as int) =~= source@);
                }
                Ok(Positioned { start: 0, end: np, value: v })
            }
        },
        Err(e) => Err(e),
    }
}

} // verus!
