//! `Scientific<D>`: scientific-notation parsing and display for `Decimal64<S>` and
//! `UDecimal64<S>`.

use vstd::prelude::*;
use vstd::string::{StringExecFns, StringSliceAdditionalSpecFns};
use crate::decimal64::{div_round_i128, Decimal64};
use crate::digits::{
    all_digits, digits_value, is_digit, lemma_digits_value_concat, lemma_digits_value_prefix,
    lemma_digits_value_push, lemma_nat_digits, nat_digits, padded_digits,
};
use crate::math::{
    abs, fits_i64, fits_u64, lemma_pow10_add, lemma_pow10_mono, lemma_pow10_pos, lemma_pow10_small,
    lemma_pow10_values, lemma_rounded_quotient_bound, pow10, trunc_quotient,
};
use crate::parse::{parse_signed_raw, signed_decimal_value};
use crate::parse_unsigned::{parse_unsigned_raw, unsigned_decimal_value};
use vstd::utf8::encode_utf8;
use crate::text::{
    all_ascii, ascii_chars, digits_of, fixed_point_text, int_text, lemma_all_ascii_concat, lemma_ascii_chars_concat,
    lemma_ascii_utf8, lemma_texts_ascii, magnitude_i64, push_digit_bytes,
    push_int, push_sign, sign_text, signed_fixed_point_text,
};
use crate::udecimal64::UDecimal64;
use crate::ParseError;

verus! {

/// Newtype wrapper that adds scientific-notation parsing and display to a
/// `Decimal64<S>` or `UDecimal64<S>`.
#[derive(Clone, Copy, Debug, PartialEq, Eq, PartialOrd, Ord, Hash)]
pub struct Scientific<D>(pub D);

impl<const S: u32> Scientific<Decimal64<S>> {
    /// The wrapped decimal.
    pub fn into_inner(self) -> (d: Decimal64<S>)
        ensures
            d == self.0,
    {
        self.0
    }
}

impl<const S: u32> Scientific<UDecimal64<S>> {
    /// The wrapped decimal.
    pub fn into_inner(self) -> (d: UDecimal64<S>)
        ensures
            d == self.0,
    {
        self.0
    }
}

// ── Grammar ──────────────────────────────────────────────────────────────────

/// `e` or `E`.
pub open spec fn is_exp_marker(c: u8) -> bool {
    c == 101 || c == 69
}

/// Position of the first exponent marker in `t` (its length when there is none).
pub open spec fn exp_marker_pos(t: Seq<u8>) -> nat
    decreases t.len(),
{
    if t.len() == 0 {
        0
    } else {
        let k = exp_marker_pos(t.drop_last());
        if k < t.len() - 1 {
            k
        } else if is_exp_marker(t.last()) {
            (t.len() - 1) as nat
        } else {
            t.len()
        }
    }
}

/// Position of the first byte of `t` that is not a digit (its length when there
/// is none).
pub open spec fn first_non_digit(t: Seq<u8>) -> nat
    decreases t.len(),
{
    if t.len() == 0 {
        0
    } else {
        let k = first_non_digit(t.drop_last());
        if k < t.len() - 1 {
            k
        } else if is_digit(t.last()) {
            t.len()
        } else {
            (t.len() - 1) as nat
        }
    }
}

/// Reading the exponent `t` (the text after the marker, at position `offset` of the
/// input): an optional sign, then at least one digit; the magnitude must fit in
/// `i32`.
pub open spec fn exponent_value(t: Seq<u8>, offset: nat) -> Result<int, ParseError> {
    if t.len() == 0 {
        Err(ParseError::Empty)
    } else {
        let start: nat = if t[0] == 45 || t[0] == 43 {
            1
        } else {
            0
        };
        if start == t.len() {
            Err(ParseError::Empty)
        } else {
            let body = t.subrange(start as int, t.len() as int);
            let bad = first_non_digit(body);
            let v = digits_value(body.take(bad as int));
            if v > i32::MAX {
                Err(ParseError::Overflow)
            } else if bad < body.len() {
                Err(ParseError::InvalidChar { byte: body[bad as int], pos: (offset + start + bad) as usize })
            } else if t[0] == 45 {
                Ok(-v)
            } else {
                Ok(v as int)
            }
        }
    }
}

/// The raw `i64` value `raw` multiplied by `10^e`: `Overflow` when a product does
/// not fit, and for negative `e` the quotient truncated toward zero, except that a
/// nonzero value with `e < -18` is `Underflow`.
pub open spec fn exponent_applied_i64(raw: int, e: int) -> Result<int, ParseError> {
    if e >= 0 {
        if fits_i64(raw * pow10(e as nat)) {
            Ok(raw * pow10(e as nat))
        } else {
            Err(ParseError::Overflow)
        }
    } else if e < -18 && raw != 0 {
        Err(ParseError::Underflow)
    } else {
        Ok(trunc_quotient(raw, pow10((-e) as nat) as int))
    }
}

/// The raw `u64` value `raw` multiplied by `10^e`: `Overflow` when a product does
/// not fit, and for negative `e` the quotient truncated, except that a nonzero value
/// with `e < -19` is `Underflow`.
pub open spec fn exponent_applied_u64(raw: int, e: int) -> Result<int, ParseError> {
    if e >= 0 {
        if fits_u64(raw * pow10(e as nat)) {
            Ok(raw * pow10(e as nat))
        } else {
            Err(ParseError::Overflow)
        }
    } else if e < -19 && raw != 0 {
        Err(ParseError::Underflow)
    } else {
        Ok(trunc_quotient(raw, pow10((-e) as nat) as int))
    }
}

/// Reading `t` in scientific notation as a `Decimal64` at scale `scale`: without a
/// marker it is a plain decimal; otherwise the mantissa before the marker is read
/// as a decimal, the exponent after it as a signed integer, and the exponent is
/// applied to the mantissa's raw value.
pub open spec fn scientific_signed_value(t: Seq<u8>, scale: nat) -> Result<int, ParseError> {
    let m = exp_marker_pos(t);
    if m == t.len() {
        signed_decimal_value(t, scale)
    } else {
        match signed_decimal_value(t.take(m as int), scale) {
            Err(e) => Err(e),
            Ok(mantissa) => match exponent_value(t.subrange(m + 1int, t.len() as int), m + 1) {
                Err(e) => Err(e),
                Ok(e) => exponent_applied_i64(mantissa, e),
            },
        }
    }
}

/// Reading `t` in scientific notation as a `UDecimal64` at scale `scale` (as
/// `scientific_signed_value`, with an unsigned mantissa).
pub open spec fn scientific_unsigned_value(t: Seq<u8>, scale: nat) -> Result<int, ParseError> {
    let m = exp_marker_pos(t);
    if m == t.len() {
        match unsigned_decimal_value(t, scale) {
            Ok(v) => Ok(v as int),
            Err(e) => Err(e),
        }
    } else {
        match unsigned_decimal_value(t.take(m as int), scale) {
            Err(e) => Err(e),
            Ok(mantissa) => match exponent_value(t.subrange(m + 1int, t.len() as int), m + 1) {
                Err(e) => Err(e),
                Ok(e) => exponent_applied_u64(mantissa as int, e),
            },
        }
    }
}

// ── Display model ────────────────────────────────────────────────────────────

/// `s` without its trailing `'0'` bytes.
pub open spec fn trim_trailing_zeros(s: Seq<u8>) -> Seq<u8>
    decreases s.len(),
{
    if s.len() > 0 && s.last() == 48 {
        trim_trailing_zeros(s.drop_last())
    } else {
        s
    }
}

/// Normalized scientific text of the magnitude `m` at scale `scale`: one digit,
/// then the remaining significant digits (trailing zeros removed) after a dot if
/// there are any, then `e` and the decimal exponent. Zero is `0e0`, unsigned.
pub open spec fn scientific_text(m: nat, scale: nat, negative: bool) -> Seq<u8> {
    if m == 0 {
        seq![48u8, 101u8, 48u8]
    } else {
        let c = nat_digits(m);
        let frac = trim_trailing_zeros(c.drop_first());
        sign_text(negative) + seq![c[0]] + (if frac.len() == 0 {
            Seq::<u8>::empty()
        } else {
            seq![46u8] + frac
        }) + seq![101u8] + int_text(c.len() - scale - 1)
    }
}

/// The scientific text of a raw value: `0e0` for zero.
pub open spec fn scientific_raw_text(raw: int, scale: nat) -> Seq<u8> {
    scientific_text(abs(raw), scale, raw < 0)
}

// ── Exponent parsing ─────────────────────────────────────────────────────────

pub proof fn lemma_positions_bounded(t: Seq<u8>)
    ensures
        exp_marker_pos(t) <= t.len(),
        first_non_digit(t) <= t.len(),
    decreases t.len(),
{
    if t.len() > 0 {
        lemma_positions_bounded(t.drop_last());
    }
}

/// On a prefix, both positions are cut at the prefix length.
pub proof fn lemma_positions_prefix(t: Seq<u8>, q: nat)
    requires
        q <= t.len(),
    ensures
        exp_marker_pos(t.take(q as int)) == if exp_marker_pos(t) < q {
            exp_marker_pos(t)
        } else {
            q
        },
        first_non_digit(t.take(q as int)) == if first_non_digit(t) < q {
            first_non_digit(t)
        } else {
            q
        },
    decreases t.len(),
{
    lemma_positions_bounded(t);
    if q == t.len() {
        assert(t.take(q as int) =~= t);
    } else {
        let dl = t.drop_last();
        lemma_positions_prefix(dl, q);
        lemma_positions_bounded(dl);
        assert(dl.take(q as int) =~= t.take(q as int));
    }
}

/// Position of the first `e` or `E` byte.
fn find_exp_marker(bytes: &[u8]) -> (r: Option<usize>)
    ensures
        match r {
            Some(i) => i == exp_marker_pos(bytes@) && i < bytes@.len(),
            None => exp_marker_pos(bytes@) == bytes@.len(),
        },
{
    let mut i: usize = 0;
    while i < bytes.len()
        invariant
            i <= bytes@.len(),
            exp_marker_pos(bytes@.take(i as int)) == i,
        decreases bytes@.len() - i,
    {
        let b = bytes[i];
        proof {
            assert(bytes@.take(i + 1int).drop_last() =~= bytes@.take(i as int));
            assert((b | 0x20u8) == 0x65u8 <==> (b == 101u8 || b == 69u8)) by (bit_vector);
            lemma_positions_prefix(bytes@, (i + 1) as nat);
            lemma_positions_bounded(bytes@);
        }
        if b | 0x20 == 0x65 {
            return Some(i);
        }
        i = i + 1;
    }
    proof {
        assert(bytes@.take(bytes@.len() as int) =~= bytes@);
    }
    None
}

/// Reads the exponent `bytes[start..end]` (positions are absolute).
fn parse_exponent(bytes: &[u8], start: usize, end: usize) -> (r: Result<i32, ParseError>)
    requires
        start <= end <= bytes@.len(),
    ensures
        match r {
            Ok(e) => exponent_value(bytes@.subrange(start as int, end as int), start as nat) == Ok::<
                int,
                ParseError,
            >(e as int),
            Err(err) => exponent_value(bytes@.subrange(start as int, end as int), start as nat)
                == Err::<int, ParseError>(err),
        },
{
    let ghost t = bytes@.subrange(start as int, end as int);
    if start == end {
        return Err(ParseError::Empty);
    }
    let first = bytes[start];
    let negative = first == 45;
    let digits_start: usize = if first == 45 || first == 43 {
        start + 1
    } else {
        start
    };
    if digits_start == end {
        return Err(ParseError::Empty);
    }
    let ghost body = bytes@.subrange(digits_start as int, end as int);
    proof {
        assert(t.subrange((digits_start - start) as int, t.len() as int) =~= body);
        assert(body.take(0) =~= Seq::<u8>::empty());
        assert(digits_value(Seq::<u8>::empty()) == 0);
    }
    let mut i = digits_start;
    let mut acc: i32 = 0;
    while i < end
        invariant
            start < digits_start <= i <= end <= bytes@.len() || start == digits_start <= i <= end
                <= bytes@.len(),
            start < end,
            t == bytes@.subrange(start as int, end as int),
            first == bytes@[start as int],
            negative == (first == 45),
            digits_start == if first == 45 || first == 43 {
                start + 1
            } else {
                start as int
            },
            digits_start < end,
            t.subrange((digits_start - start) as int, t.len() as int) == body,
            body == bytes@.subrange(digits_start as int, end as int),
            first_non_digit(body.take(i - digits_start)) == i - digits_start,
            acc == digits_value(body.take(i - digits_start)),
            0 <= acc,
        decreases end - i,
    {
        let b = bytes[i];
        let ghost j = (i - digits_start) as nat;
        proof {
            assert(body[j as int] == b);
            assert(body.take(j + 1int).drop_last() =~= body.take(j as int));
            lemma_positions_prefix(body, j + 1);
            lemma_positions_bounded(body);
        }
        if b < 48 || b > 57 {
            proof {
                assert(first_non_digit(body) == j);
            }
            return Err(ParseError::InvalidChar { byte: b, pos: i });
        }
        let next: i64 = acc as i64 * 10 + (b - 48) as i64;
        proof {
            lemma_digits_value_push(body.take(j as int), b);
        }
        if next > i32::MAX as i64 {
            proof {
                let bad = first_non_digit(body);
                assert(body.take(bad as int) =~= body.take(j + 1int) + body.subrange(j + 1int, bad as int));
                lemma_digits_value_prefix(body.take(j + 1int), body.subrange(j + 1int, bad as int));
            }
            return Err(ParseError::Overflow);
        }
        acc = next as i32;
        i = i + 1;
    }
    proof {
        assert(body.take(body.len() as int) =~= body);
    }
    if negative {
        Ok(-acc)
    } else {
        Ok(acc)
    }
}

// ── Applying the exponent ────────────────────────────────────────────────────

/// `10^exp` as an `i64`, for `exp <= 18`.
fn pow10_i64(exp: u32) -> (r: i64)
    requires
        exp <= 18,
    ensures
        r == pow10(exp as nat),
{
    proof {
        reveal_with_fuel(pow10, 19);
    }
    match exp {
        0 => 1,
        1 => 10,
        2 => 100,
        3 => 1_000,
        4 => 10_000,
        5 => 100_000,
        6 => 1_000_000,
        7 => 10_000_000,
        8 => 100_000_000,
        9 => 1_000_000_000,
        10 => 10_000_000_000,
        11 => 100_000_000_000,
        12 => 1_000_000_000_000,
        13 => 10_000_000_000_000,
        14 => 100_000_000_000_000,
        15 => 1_000_000_000_000_000,
        16 => 10_000_000_000_000_000,
        17 => 100_000_000_000_000_000,
        _ => 1_000_000_000_000_000_000,
    }
}

/// `10^exp` as a `u64`, for `exp <= 19`.
fn pow10_u64(exp: u32) -> (r: u64)
    requires
        exp <= 19,
    ensures
        r == pow10(exp as nat),
{
    if exp == 19 {
        proof {
            lemma_pow10_values();
        }
        10_000_000_000_000_000_000
    } else {
        pow10_i64(exp) as u64
    }
}

/// A nonzero value times `10^e` with `e` above the digit count of the type is out
/// of range.
proof fn lemma_big_exponent(raw: int, e: nat, limit: nat)
    requires
        raw != 0,
        e > limit,
        limit == 18 || limit == 19,
    ensures
        abs(raw * pow10(e)) >= pow10(limit + 1),
{
    lemma_pow10_mono(limit + 1, e);
    assert(abs(raw * pow10(e)) == abs(raw) * pow10(e)) by (nonlinear_arith);
    assert(abs(raw) * pow10(e) >= pow10(e)) by (nonlinear_arith)
        requires
            abs(raw) >= 1,
    ;
}

fn apply_positive_exp_i64(raw: i64, exp: u32) -> (r: Result<i64, ParseError>)
    ensures
        match r {
            Ok(v) => exponent_applied_i64(raw as int, exp as int) == Ok::<int, ParseError>(v as int),
            Err(e) => exponent_applied_i64(raw as int, exp as int) == Err::<int, ParseError>(e),
        },
{
    if exp > 18 {
        if raw == 0 {
            proof {
                assert(0 * pow10(exp as nat) == 0);
            }
            return Ok(0);
        } else {
            proof {
                lemma_big_exponent(raw as int, exp as nat, 18);
                reveal_with_fuel(pow10, 20);
            }
            return Err(ParseError::Overflow);
        }
    }
    match raw.checked_mul(pow10_i64(exp)) {
        Some(v) => Ok(v),
        None => Err(ParseError::Overflow),
    }
}

fn apply_negative_exp_i64(raw: i64, neg_exp: u32) -> (r: Result<i64, ParseError>)
    requires
        neg_exp >= 1,
    ensures
        match r {
            Ok(v) => exponent_applied_i64(raw as int, -(neg_exp as int)) == Ok::<int, ParseError>(
                v as int,
            ),
            Err(e) => exponent_applied_i64(raw as int, -(neg_exp as int)) == Err::<int, ParseError>(
                e,
            ),
        },
{
    if neg_exp > 18 {
        if raw == 0 {
            proof {
                lemma_pow10_pos(neg_exp as nat);
                crate::math::lemma_magnitude_div(0, pow10(neg_exp as nat) as int);
            }
            return Ok(0);
        } else {
            return Err(ParseError::Underflow);
        }
    }
    proof {
        lemma_pow10_small(neg_exp as nat);
        lemma_rounded_quotient_bound(raw as int, pow10(neg_exp as nat) as int, crate::Round::TruncateTowardZero);
    }
    let q = div_round_i128(raw as i128, pow10_i64(neg_exp) as i128, crate::Round::TruncateTowardZero);
    Ok(q as i64)
}

fn apply_exponent_i64(raw: i64, exponent: i32) -> (r: Result<i64, ParseError>)
    ensures
        match r {
            Ok(v) => exponent_applied_i64(raw as int, exponent as int) == Ok::<int, ParseError>(v as int),
            Err(e) => exponent_applied_i64(raw as int, exponent as int) == Err::<int, ParseError>(e),
        },
{
    if exponent > 0 {
        apply_positive_exp_i64(raw, exponent as u32)
    } else if exponent < 0 {
        apply_negative_exp_i64(raw, (-(exponent as i64)) as u32)
    } else {
        proof {
            assert(raw * pow10(0) == raw * 1);
        }
        Ok(raw)
    }
}

fn apply_positive_exp_u64(raw: u64, exp: u32) -> (r: Result<u64, ParseError>)
    ensures
        match r {
            Ok(v) => exponent_applied_u64(raw as int, exp as int) == Ok::<int, ParseError>(v as int),
            Err(e) => exponent_applied_u64(raw as int, exp as int) == Err::<int, ParseError>(e),
        },
{
    if exp > 19 {
        if raw == 0 {
            proof {
                assert(0 * pow10(exp as nat) == 0);
            }
            return Ok(0);
        } else {
            proof {
                lemma_big_exponent(raw as int, exp as nat, 19);
                reveal_with_fuel(pow10, 21);
            }
            return Err(ParseError::Overflow);
        }
    }
    match raw.checked_mul(pow10_u64(exp)) {
        Some(v) => Ok(v),
        None => Err(ParseError::Overflow),
    }
}

fn apply_negative_exp_u64(raw: u64, neg_exp: u32) -> (r: Result<u64, ParseError>)
    requires
        neg_exp >= 1,
    ensures
        match r {
            Ok(v) => exponent_applied_u64(raw as int, -(neg_exp as int)) == Ok::<int, ParseError>(
                v as int,
            ),
            Err(e) => exponent_applied_u64(raw as int, -(neg_exp as int)) == Err::<int, ParseError>(
                e,
            ),
        },
{
    if neg_exp > 19 {
        if raw == 0 {
            proof {
                lemma_pow10_pos(neg_exp as nat);
                crate::math::lemma_magnitude_div(0, pow10(neg_exp as nat) as int);
            }
            return Ok(0);
        } else {
            return Err(ParseError::Underflow);
        }
    }
    let p = pow10_u64(neg_exp);
    proof {
        lemma_pow10_pos(neg_exp as nat);
        crate::math::lemma_magnitude_div(raw as int, p as int);
    }
    Ok(raw / p)
}

fn apply_exponent_u64(raw: u64, exponent: i32) -> (r: Result<u64, ParseError>)
    ensures
        match r {
            Ok(v) => exponent_applied_u64(raw as int, exponent as int) == Ok::<int, ParseError>(v as int),
            Err(e) => exponent_applied_u64(raw as int, exponent as int) == Err::<int, ParseError>(e),
        },
{
    if exponent > 0 {
        apply_positive_exp_u64(raw, exponent as u32)
    } else if exponent < 0 {
        apply_negative_exp_u64(raw, (-(exponent as i64)) as u32)
    } else {
        proof {
            assert(raw * pow10(0) == raw * 1);
        }
        Ok(raw)
    }
}

// ── Parsing ──────────────────────────────────────────────────────────────────

/// Reads `bytes` in scientific notation into an `i64` raw value at scale `scale`.
fn parse_scientific_i64(bytes: &[u8], scale: u32) -> (r: Result<i64, ParseError>)
    ensures
        match r {
            Ok(v) => scientific_signed_value(bytes@, scale as nat) == Ok::<int, ParseError>(v as int),
            Err(e) => scientific_signed_value(bytes@, scale as nat) == Err::<int, ParseError>(e),
        },
{
    let n = bytes.len();
    proof {
        assert(bytes@.take(n as int) =~= bytes@);
    }
    match find_exp_marker(bytes) {
        None => parse_signed_raw(bytes, n, scale),
        Some(pos) => {
            let mantissa_raw = match parse_signed_raw(bytes, pos, scale) {
                Ok(v) => v,
                Err(e) => return Err(e),
            };
            let exponent = match parse_exponent(bytes, pos + 1, n) {
                Ok(e) => e,
                Err(e) => return Err(e),
            };
            apply_exponent_i64(mantissa_raw, exponent)
        },
    }
}

/// Reads `bytes` in scientific notation into a `u64` raw value at scale `scale`.
fn parse_scientific_u64(bytes: &[u8], scale: u32) -> (r: Result<u64, ParseError>)
    ensures
        match r {
            Ok(v) => scientific_unsigned_value(bytes@, scale as nat) == Ok::<int, ParseError>(v as int),
            Err(e) => scientific_unsigned_value(bytes@, scale as nat) == Err::<int, ParseError>(e),
        },
{
    let n = bytes.len();
    proof {
        assert(bytes@.take(n as int) =~= bytes@);
    }
    match find_exp_marker(bytes) {
        None => parse_unsigned_raw(bytes, n, scale),
        Some(pos) => {
            let mantissa_raw = match parse_unsigned_raw(bytes, pos, scale) {
                Ok(v) => v,
                Err(e) => return Err(e),
            };
            let exponent = match parse_exponent(bytes, pos + 1, n) {
                Ok(e) => e,
                Err(e) => return Err(e),
            };
            apply_exponent_u64(mantissa_raw, exponent)
        },
    }
}

/// Parses scientific notation (`mantissa[eE][+-]digits`) into a `Decimal64<S>`.
pub(crate) fn parse_scientific_signed<const S: u32>(s: &str) -> (r: Result<Decimal64<S>, ParseError>)
    ensures
        match r {
            Ok(d) => scientific_signed_value(s.spec_bytes(), S as nat) == Ok::<int, ParseError>(d@),
            Err(e) => scientific_signed_value(s.spec_bytes(), S as nat) == Err::<int, ParseError>(e),
        },
{
    match parse_scientific_i64(s.as_bytes(), S) {
        Ok(v) => Ok(Decimal64::from_raw(v)),
        Err(e) => Err(e),
    }
}

/// Parses scientific notation into a `UDecimal64<S>` (signs in the mantissa are
/// invalid).
pub(crate) fn parse_scientific_unsigned<const S: u32>(s: &str) -> (r: Result<UDecimal64<S>, ParseError>)
    ensures
        match r {
            Ok(d) => scientific_unsigned_value(s.spec_bytes(), S as nat) == Ok::<int, ParseError>(
                d@ as int,
            ),
            Err(e) => scientific_unsigned_value(s.spec_bytes(), S as nat) == Err::<int, ParseError>(e),
        },
{
    match parse_scientific_u64(s.as_bytes(), S) {
        Ok(v) => Ok(UDecimal64::from_raw(v)),
        Err(e) => Err(e),
    }
}

// ── Display ──────────────────────────────────────────────────────────────────

/// Removing the zeros after position `k` (and nothing before it, as `s[k - 1]` is
/// not a zero) trims `s` to `s[..k]`.
proof fn lemma_trim(s: Seq<u8>, k: nat)
    requires
        k <= s.len(),
        forall|i: int| k <= i < s.len() ==> s[i] == 48,
        k > 0 ==> s[k - 1] != 48,
    ensures
        trim_trailing_zeros(s) == s.take(k as int),
    decreases s.len(),
{
    if s.len() == k {
        assert(s.take(k as int) =~= s);
    } else {
        lemma_trim(s.drop_last(), k);
        assert(s.drop_last().take(k as int) =~= s.take(k as int));
    }
}

/// A `u64` has at most 20 digits.
proof fn lemma_u64_digit_count(n: nat)
    requires
        n <= u64::MAX,
    ensures
        nat_digits(n).len() <= 20,
{
    lemma_nat_digits(n);
    let l = nat_digits(n).len();
    if l > 20 {
        lemma_pow10_mono(20, (l - 1) as nat);
        assert(pow10(20) == 10 * pow10(19));
        lemma_pow10_values();
    }
}

/// Normalized scientific text of the magnitude `abs_raw` at scale `scale`, with a
/// leading `-` when `negative` holds; zero is written `0e0`.
fn fmt_scientific_u64(abs_raw: u64, scale: u32, negative: bool) -> (s: String)
    ensures
        s@ == ascii_chars(scientific_text(abs_raw as nat, scale as nat, negative)),
{
    if abs_raw == 0 {
        proof {
            reveal_strlit("0e0");
            assert(ascii_chars(seq![48u8, 101u8, 48u8]) =~= seq!['0', 'e', '0']);
        }
        let mut out = String::new();
        out.append("0e0");
        return out;
    }
    let coeff = digits_of(abs_raw);
    proof {
        lemma_nat_digits(abs_raw as nat);
        lemma_u64_digit_count(abs_raw as nat);
    }
    let coeff_len = coeff.len();
    let exponent: i64 = coeff_len as i64 - scale as i64 - 1;
    let mut end = coeff_len;
    while end > 1 && coeff[end - 1] == 48
        invariant
            1 <= end <= coeff_len,
            coeff_len == coeff@.len(),
            forall|i: int| end <= i < coeff_len ==> coeff@[i] == 48,
        decreases end,
    {
        end = end - 1;
    }
    let ghost c = coeff@;
    let ghost frac = trim_trailing_zeros(c.drop_first());
    proof {
        lemma_trim(c.drop_first(), (end - 1) as nat);
        assert(c.drop_first().take(end - 1) =~= c.subrange(1, end as int));
        assert(c.subrange(0, 1) =~= seq![c[0]]);
    }
    let mut out = String::new();
    push_sign(&mut out, negative);
    push_digit_bytes(&mut out, &coeff, 0, 1);
    let ghost head = sign_text(negative) + seq![c[0]];
    proof {
        lemma_ascii_chars_concat(sign_text(negative), seq![c[0]]);
    }
    let ghost mid: Seq<u8> = if frac.len() == 0 {
        Seq::<u8>::empty()
    } else {
        seq![46u8] + frac
    };
    if end > 1 {
        proof {
            reveal_strlit(".");
            assert(ascii_chars(seq![46u8]) =~= seq!['.']);
            lemma_ascii_chars_concat(seq![46u8], frac);
        }
        out.append(".");
        push_digit_bytes(&mut out, &coeff, 1, end);
    } else {
        proof {
            assert(ascii_chars(Seq::<u8>::empty()) =~= Seq::<char>::empty());
        }
    }
    proof {
        lemma_ascii_chars_concat(head, mid);
        assert(out@ == ascii_chars(head + mid));
        reveal_strlit("e");
        assert(ascii_chars(seq![101u8]) =~= seq!['e']);
        lemma_ascii_chars_concat(head + mid, seq![101u8]);
    }
    out.append("e");
    push_int(&mut out, exponent);
    proof {
        lemma_ascii_chars_concat(head + mid + seq![101u8], int_text(exponent as int));
    }
    out
}

impl<const S: u32> Scientific<Decimal64<S>> {
    /// Normalized scientific text: one significant digit, the remaining digits
    /// without trailing zeros after a dot, then `e` and the exponent; `0e0` for
    /// zero.
    pub fn to_string(self) -> (s: String)
        ensures
            s@ == ascii_chars(scientific_raw_text(self.0@, S as nat)),
    {
        let raw = self.0.raw();
        fmt_scientific_u64(magnitude_i64(raw), S, raw < 0)
    }
}

impl<const S: u32> Scientific<UDecimal64<S>> {
    /// Normalized scientific text, as for the signed type (never negative).
    pub fn to_string(self) -> (s: String)
        ensures
            s@ == ascii_chars(scientific_raw_text(self.0@ as int, S as nat)),
    {
        let raw = self.0.raw();
        fmt_scientific_u64(raw, S, false)
    }
}

// ── Reading the display back ─────────────────────────────────────────────────

/// The significant digits that the scientific text of `m` shows: its leading
/// digit, then its remaining digits without trailing zeros.
pub open spec fn shown_digits(m: nat) -> Seq<u8> {
    let c = nat_digits(m);
    seq![c[0]] + trim_trailing_zeros(c.drop_first())
}

/// Characterises `exp_marker_pos`: no marker before it, one at it when in range.
proof fn lemma_exp_marker_char(t: Seq<u8>)
    ensures
        exp_marker_pos(t) <= t.len(),
        forall|k: int| 0 <= k < exp_marker_pos(t) ==> !is_exp_marker(t[k]),
        exp_marker_pos(t) < t.len() ==> is_exp_marker(t[exp_marker_pos(t) as int]),
    decreases t.len(),
{
    if t.len() > 0 {
        let dl = t.drop_last();
        lemma_exp_marker_char(dl);
        assert forall|k: int| 0 <= k < exp_marker_pos(t) implies !is_exp_marker(t[k]) by {
            if k < dl.len() {
                assert(t[k] == dl[k]);
            }
        }
    }
}

/// A digit sequence has no non-digit.
proof fn lemma_first_non_digit_all(t: Seq<u8>)
    requires
        all_digits(t),
    ensures
        first_non_digit(t) == t.len(),
    decreases t.len(),
{
    if t.len() > 0 {
        let dl = t.drop_last();
        assert forall|i: int| 0 <= i < dl.len() implies is_digit(#[trigger] dl[i]) by {
            assert(dl[i] == t[i]);
        }
        lemma_first_non_digit_all(dl);
        assert(is_digit(t[t.len() - 1]));
    }
}

/// The decimal text of an exponent reads back as that exponent.
proof fn lemma_exponent_text_reads_back(e: int, offset: nat)
    requires
        abs(e) <= i32::MAX,
    ensures
        exponent_value(int_text(e), offset) == Ok::<int, ParseError>(e),
{
    let t = int_text(e);
    let d = nat_digits(abs(e));
    lemma_nat_digits(abs(e));
    lemma_first_non_digit_all(d);
    assert(d.take(d.len() as int) =~= d);
    if e < 0 {
        assert(t.subrange(1, t.len() as int) =~= d);
    } else {
        assert(t =~= d);
        assert(t.subrange(0, t.len() as int) =~= d);
        assert(is_digit(t[0]));
    }
}

/// A run of zeros spells zero.
proof fn lemma_zeros_value(z: Seq<u8>)
    requires
        forall|i: int| 0 <= i < z.len() ==> z[i] == 48,
    ensures
        digits_value(z) == 0,
    decreases z.len(),
{
    if z.len() > 0 {
        let dl = z.drop_last();
        assert forall|i: int| 0 <= i < dl.len() implies dl[i] == 48 by {
            assert(dl[i] == z[i]);
        }
        lemma_zeros_value(dl);
    }
}

/// Trimming keeps a prefix and removes only zeros.
proof fn lemma_trim_prefix(s: Seq<u8>)
    ensures
        trim_trailing_zeros(s).len() <= s.len(),
        s.take(trim_trailing_zeros(s).len() as int) == trim_trailing_zeros(s),
        forall|i: int| trim_trailing_zeros(s).len() <= i < s.len() ==> s[i] == 48,
    decreases s.len(),
{
    if s.len() > 0 && s.last() == 48 {
        let dl = s.drop_last();
        lemma_trim_prefix(dl);
        let r = trim_trailing_zeros(dl);
        assert(s.take(r.len() as int) =~= dl.take(r.len() as int));
        assert forall|i: int| r.len() <= i < s.len() implies s[i] == 48 by {
            if i < dl.len() {
                assert(s[i] == dl[i]);
            }
        }
    } else {
        assert(s.take(s.len() as int) =~= s);
    }
}

/// `10^n` fits in `i64` only for `n <= 18`.
proof fn lemma_pow10_fits_i64(n: nat)
    requires
        pow10(n) <= i64::MAX,
    ensures
        n <= 18,
{
    if n > 18 {
        lemma_pow10_mono(19, n);
        lemma_pow10_values();
    }
}

/// The magnitude is the shown digits followed by zeros, and facts about the
/// lengths involved.
proof fn lemma_shown_digits(m: nat)
    requires
        1 <= m <= u64::MAX,
    ensures
        ({
            let c = nat_digits(m);
            let sd = shown_digits(m);
            &&& 1 <= sd.len() <= c.len() <= 20
            &&& all_digits(sd)
            &&& sd[0] != 48
            &&& m == digits_value(sd) * pow10((c.len() - sd.len()) as nat)
            &&& digits_value(sd) >= 1
        }),
{
    let c = nat_digits(m);
    lemma_nat_digits(m);
    lemma_u64_digit_count(m);
    let rest = c.drop_first();
    let f = trim_trailing_zeros(rest);
    lemma_trim_prefix(rest);
    let sd = shown_digits(m);
    let z = rest.subrange(f.len() as int, rest.len() as int);
    assert(c =~= sd + z);
    assert forall|i: int| 0 <= i < z.len() implies z[i] == 48 by {
        assert(z[i] == rest[i + f.len()]);
    }
    lemma_zeros_value(z);
    lemma_digits_value_concat(sd, z);
    assert forall|i: int| 0 <= i < sd.len() implies is_digit(#[trigger] sd[i]) by {
        assert(sd[i] == c[i]);
    }
    lemma_digits_value_prefix(seq![c[0]], f);
    crate::digits::lemma_digits_value_single(c[0]);
}

/// The text of zero, `0e0`, reads back as zero.
proof fn lemma_zero_text_reads_back(scale: nat)
    ensures
        scientific_signed_value(scientific_raw_text(0, scale), scale) == Ok::<int, ParseError>(0),
{
    let t = scientific_raw_text(0, scale);
    assert(t =~= seq![48u8, 101u8, 48u8]);
    lemma_exp_marker_char(t);
    assert(exp_marker_pos(t.take(1)) == 1) by {
        assert(t.take(1).drop_last() =~= Seq::<u8>::empty());
    }
    lemma_positions_prefix(t, 2);
    assert(t.take(2).drop_last() =~= t.take(1));
    assert(exp_marker_pos(t.take(2)) == 1);
    assert(exp_marker_pos(t) == 1);
    let mant = t.take(1);
    assert(mant =~= seq![48u8]);
    crate::digits::lemma_digit_byte(0);
    crate::parse::lemma_plain_number_reads_back(seq![48u8], Seq::<u8>::empty(), scale, i64::MAX as nat, 0);
    assert(seq![48u8] + Seq::<u8>::empty() =~= seq![48u8]);
    crate::digits::lemma_digits_value_single(48u8);
    assert(0 * pow10(scale) == 0);
    assert(mant.subrange(0, 1) =~= mant);
    lemma_nat_digits(0);
    assert(int_text(0) =~= seq![48u8]);
    assert(t.subrange(2, 3) =~= int_text(0));
    lemma_exponent_text_reads_back(0, 2);
    assert(0 * pow10(0) == 0);
}

/// The mantissa text of a nonzero value: its sign, its leading digit, and the
/// trimmed remaining digits after a dot when there are any.
pub open spec fn mantissa_text(raw: int) -> Seq<u8> {
    let c = nat_digits(abs(raw));
    let f = trim_trailing_zeros(c.drop_first());
    sign_text(raw < 0) + seq![c[0]] + (if f.len() == 0 {
        Seq::<u8>::empty()
    } else {
        seq![46u8] + f
    })
}

/// Where the exponent marker of a nonzero value's text is.
proof fn lemma_text_marker(raw: int, scale: nat)
    requires
        abs(raw) <= u64::MAX,
        raw != 0,
    ensures
        scientific_raw_text(raw, scale) == mantissa_text(raw) + seq![101u8] + int_text(
            nat_digits(abs(raw)).len() - scale - 1,
        ),
        exp_marker_pos(scientific_raw_text(raw, scale)) == mantissa_text(raw).len(),
{
    let t = scientific_raw_text(raw, scale);
    let m = abs(raw);
    lemma_shown_digits(m);
    let c = nat_digits(m);
    let sd = shown_digits(m);
    let f = trim_trailing_zeros(c.drop_first());
    let k = f.len();
    assert(sd =~= seq![c[0]] + f);
    let e: int = c.len() - scale - 1;
    let sign = sign_text(raw < 0);
    let mt = mantissa_text(raw);
    let p = mt.len();
    assert(t =~= mt + seq![101u8] + int_text(e));
    assert forall|i: int| 0 <= i < p implies !is_exp_marker(t[i]) by {
        assert(t[i] == mt[i]);
        if i >= sign.len() + 1 {
            if i > sign.len() + 1 {
                assert(mt[i] == f[i - sign.len() - 2]);
                assert(is_digit(sd[i - sign.len() - 1]));
            }
        } else if i == sign.len() {
            assert(mt[i] == c[0]);
        }
    }
    assert(t[p as int] == 101);
    lemma_exp_marker_char(t);
}

/// The mantissa text of a nonzero value reads as its shown digits at `scale`.
proof fn lemma_mantissa_reads(raw: int, scale: nat)
    requires
        fits_i64(raw),
        raw != 0,
        shown_digits(abs(raw)).len() - 1 <= scale,
        digits_value(shown_digits(abs(raw))) * pow10((scale - (shown_digits(abs(raw)).len() - 1)) as nat)
            <= i64::MAX,
    ensures
        ({
            let m = abs(raw);
            let k = (shown_digits(m).len() - 1) as nat;
            let mm = digits_value(shown_digits(m)) * pow10((scale - k) as nat);
            signed_decimal_value(mantissa_text(raw), scale) == Ok::<int, ParseError>(
                if raw < 0 {
                    -mm
                } else {
                    mm as int
                },
            )
        }),
{
    let m = abs(raw);
    lemma_shown_digits(m);
    let c = nat_digits(m);
    let sd = shown_digits(m);
    let f = trim_trailing_zeros(c.drop_first());
    let k = f.len();
    assert(sd =~= seq![c[0]] + f);
    let sign = sign_text(raw < 0);
    let mt = mantissa_text(raw);
    let body = if k == 0 {
        seq![c[0]]
    } else {
        seq![c[0]] + seq![46u8] + f
    };
    assert(mt =~= sign + body);
    assert forall|i: int| 0 <= i < f.len() implies is_digit(#[trigger] f[i]) by {
        assert(f[i] == sd[i + 1]);
    }
    assert forall|i: int| 0 <= i < 1 implies is_digit(#[trigger] seq![c[0]][i]) by {
        assert(seq![c[0]][i] == sd[0]);
    }
    crate::parse::lemma_plain_number_reads_back(seq![c[0]], f, scale, i64::MAX as nat, sign.len());
    assert(mt.subrange(sign.len() as int, mt.len() as int) =~= body);
    assert(is_digit(sd[0]));
    assert(mt[0] == if raw < 0 { 45u8 } else { c[0] });
}

/// The exponent of a readable nonzero value's text is small.
proof fn lemma_exponent_small(raw: int, scale: nat)
    requires
        fits_i64(raw),
        raw != 0,
        shown_digits(abs(raw)).len() - 1 <= scale,
        digits_value(shown_digits(abs(raw))) * pow10((scale - (shown_digits(abs(raw)).len() - 1)) as nat)
            <= i64::MAX,
    ensures
        scale <= 37,
        scale - (shown_digits(abs(raw)).len() - 1) <= 18,
        abs(nat_digits(abs(raw)).len() - scale - 1) <= 38,
{
    let m = abs(raw);
    lemma_shown_digits(m);
    let sd = shown_digits(m);
    let k = (sd.len() - 1) as nat;
    let v = digits_value(sd);
    let mm = v * pow10((scale - k) as nat);
    lemma_pow10_pos((scale - k) as nat);
    assert(pow10((scale - k) as nat) <= mm) by (nonlinear_arith)
        requires
            mm == v * pow10((scale - k) as nat),
            v >= 1,
    ;
    lemma_pow10_fits_i64((scale - k) as nat);
}

/// Reading the scientific text of a nonzero raw value gives its mantissa (the shown
/// digits at `scale`, signed) and its exponent.
proof fn lemma_nonzero_text_parts(raw: int, scale: nat)
    requires
        fits_i64(raw),
        raw != 0,
        shown_digits(abs(raw)).len() - 1 <= scale,
        digits_value(shown_digits(abs(raw))) * pow10((scale - (shown_digits(abs(raw)).len() - 1)) as nat)
            <= i64::MAX,
    ensures
        ({
            let m = abs(raw);
            let k = (shown_digits(m).len() - 1) as nat;
            let mm = digits_value(shown_digits(m)) * pow10((scale - k) as nat);
            let e = nat_digits(m).len() - scale - 1;
            scientific_signed_value(scientific_raw_text(raw, scale), scale) == exponent_applied_i64(
                if raw < 0 {
                    -mm
                } else {
                    mm as int
                },
                e,
            )
        }),
{
    let t = scientific_raw_text(raw, scale);
    let e: int = nat_digits(abs(raw)).len() - scale - 1;
    let mt = mantissa_text(raw);
    lemma_text_marker(raw, scale);
    lemma_mantissa_reads(raw, scale);
    lemma_exponent_small(raw, scale);
    assert(t.take(mt.len() as int) =~= mt);
    assert(t.subrange(mt.len() + 1int, t.len() as int) =~= int_text(e));
    lemma_exponent_text_reads_back(e, mt.len() + 1);
}

/// Applying the text's exponent to its mantissa gives the raw value back.
proof fn lemma_nonzero_text_value(raw: int, scale: nat)
    requires
        fits_i64(raw),
        raw != 0,
        shown_digits(abs(raw)).len() - 1 <= scale,
        digits_value(shown_digits(abs(raw))) * pow10((scale - (shown_digits(abs(raw)).len() - 1)) as nat)
            <= i64::MAX,
    ensures
        ({
            let m = abs(raw);
            let k = (shown_digits(m).len() - 1) as nat;
            let mm = digits_value(shown_digits(m)) * pow10((scale - k) as nat);
            let e = nat_digits(m).len() - scale - 1;
            exponent_applied_i64(if raw < 0 { -mm } else { mm as int }, e) == Ok::<int, ParseError>(raw)
        }),
{
    let m = abs(raw);
    lemma_shown_digits(m);
    lemma_exponent_small(raw, scale);
    let l = nat_digits(m).len();
    let sd = shown_digits(m);
    let k = (sd.len() - 1) as nat;
    let v = digits_value(sd);
    let mm = v * pow10((scale - k) as nat);
    let e: int = l - scale - 1;
    let z = (l - 1 - k) as nat;
    let signed_mm: int = if raw < 0 { -mm } else { mm as int };
    if e >= 0 {
        lemma_pow10_add((scale - k) as nat, e as nat);
        assert((scale - k) as nat + e as nat == z);
        assert(mm * pow10(e as nat) == v * pow10(z)) by (nonlinear_arith)
            requires
                mm == v * pow10((scale - k) as nat),
                pow10(z) == pow10((scale - k) as nat) * pow10(e as nat),
        ;
        assert(signed_mm * pow10(e as nat) == raw) by (nonlinear_arith)
            requires
                signed_mm == if raw < 0 { -mm } else { mm as int },
                mm * pow10(e as nat) == v * pow10(z),
                m == v * pow10(z),
                m == abs(raw),
        ;
    } else {
        let ne = (-e) as nat;
        lemma_pow10_add(z, ne);
        assert(z + ne == (scale - k) as nat);
        assert(mm == m * pow10(ne)) by (nonlinear_arith)
            requires
                mm == v * pow10((scale - k) as nat),
                pow10((scale - k) as nat) == pow10(z) * pow10(ne),
                m == v * pow10(z),
        ;
        assert(signed_mm == raw * pow10(ne)) by (nonlinear_arith)
            requires
                mm == m * pow10(ne),
                m == abs(raw),
                signed_mm == if raw < 0 { -mm } else { mm as int },
        ;
        lemma_pow10_pos(ne);
        crate::math::lemma_exact_quotient(raw, pow10(ne) as int, crate::Round::TruncateTowardZero);
    }
}

/// Law: the scientific text of a raw value reads back as that value whenever the
/// text's mantissa is readable at the scale: it has at most `scale` fractional
/// digits (more would be truncated) and its raw value at `scale` fits in `i64`.
pub proof fn lemma_scientific_text_reads_back(raw: int, scale: nat)
    requires
        fits_i64(raw),
        shown_digits(abs(raw)).len() - 1 <= scale,
        digits_value(shown_digits(abs(raw))) * pow10((scale - (shown_digits(abs(raw)).len() - 1)) as nat)
            <= i64::MAX,
    ensures
        scientific_signed_value(scientific_raw_text(raw, scale), scale) == Ok::<int, ParseError>(raw),
{
    if raw == 0 {
        lemma_zero_text_reads_back(scale);
    } else {
        lemma_nonzero_text_parts(raw, scale);
        lemma_nonzero_text_value(raw, scale);
    }
}

/// `10^n` fits in `u64` only for `n <= 19`.
proof fn lemma_pow10_fits_u64(n: nat)
    requires
        pow10(n) <= u64::MAX,
    ensures
        n <= 19,
{
    if n > 19 {
        lemma_pow10_mono(20, n);
        lemma_pow10_values();
        assert(pow10(20) == 10 * pow10(19));
    }
}

/// The mantissa text of a nonzero unsigned value reads as its shown digits at
/// `scale`, and its exponent is small.
proof fn lemma_unsigned_mantissa_reads(raw: nat, scale: nat)
    requires
        1 <= raw <= u64::MAX,
        shown_digits(raw).len() - 1 <= scale,
        digits_value(shown_digits(raw)) * pow10((scale - (shown_digits(raw).len() - 1)) as nat)
            <= u64::MAX,
    ensures
        ({
            let k = (shown_digits(raw).len() - 1) as nat;
            let mm = digits_value(shown_digits(raw)) * pow10((scale - k) as nat);
            unsigned_decimal_value(mantissa_text(raw as int), scale) == Ok::<nat, ParseError>(mm)
        }),
        scale - (shown_digits(raw).len() - 1) <= 19,
        abs(nat_digits(raw).len() - scale - 1) <= 39,
{
    lemma_shown_digits(raw);
    let c = nat_digits(raw);
    let sd = shown_digits(raw);
    let f = trim_trailing_zeros(c.drop_first());
    let k = (sd.len() - 1) as nat;
    assert(sd =~= seq![c[0]] + f);
    let v = digits_value(sd);
    let mm = v * pow10((scale - k) as nat);
    lemma_pow10_pos((scale - k) as nat);
    assert(pow10((scale - k) as nat) <= mm) by (nonlinear_arith)
        requires
            mm == v * pow10((scale - k) as nat),
            v >= 1,
    ;
    lemma_pow10_fits_u64((scale - k) as nat);
    let mt = mantissa_text(raw as int);
    let body = if f.len() == 0 {
        seq![c[0]]
    } else {
        seq![c[0]] + seq![46u8] + f
    };
    assert(mt =~= body);
    assert forall|i: int| 0 <= i < f.len() implies is_digit(#[trigger] f[i]) by {
        assert(f[i] == sd[i + 1]);
    }
    assert forall|i: int| 0 <= i < 1 implies is_digit(#[trigger] seq![c[0]][i]) by {
        assert(seq![c[0]][i] == sd[0]);
    }
    crate::parse::lemma_plain_number_reads_back(seq![c[0]], f, scale, u64::MAX as nat, 0);
}

/// Applying the text's exponent to its unsigned mantissa gives the raw value back.
proof fn lemma_unsigned_nonzero_text_value(raw: nat, scale: nat)
    requires
        1 <= raw <= u64::MAX,
        shown_digits(raw).len() - 1 <= scale,
        scale - (shown_digits(raw).len() - 1) <= 19,
    ensures
        ({
            let k = (shown_digits(raw).len() - 1) as nat;
            let mm = digits_value(shown_digits(raw)) * pow10((scale - k) as nat);
            let e = nat_digits(raw).len() - scale - 1;
            exponent_applied_u64(mm as int, e) == Ok::<int, ParseError>(raw as int)
        }),
{
    lemma_shown_digits(raw);
    let l = nat_digits(raw).len();
    let sd = shown_digits(raw);
    let k = (sd.len() - 1) as nat;
    let v = digits_value(sd);
    let mm = v * pow10((scale - k) as nat);
    let e: int = l - scale - 1;
    let z = (l - 1 - k) as nat;
    if e >= 0 {
        lemma_pow10_add((scale - k) as nat, e as nat);
        assert((scale - k) as nat + e as nat == z);
        assert(mm * pow10(e as nat) == v * pow10(z)) by (nonlinear_arith)
            requires
                mm == v * pow10((scale - k) as nat),
                pow10(z) == pow10((scale - k) as nat) * pow10(e as nat),
        ;
    } else {
        let ne = (-e) as nat;
        lemma_pow10_add(z, ne);
        assert(z + ne == (scale - k) as nat);
        assert(mm == raw * pow10(ne)) by (nonlinear_arith)
            requires
                mm == v * pow10((scale - k) as nat),
                pow10((scale - k) as nat) == pow10(z) * pow10(ne),
                raw == v * pow10(z),
        ;
        lemma_pow10_pos(ne);
        crate::math::lemma_exact_quotient(raw as int, pow10(ne) as int, crate::Round::TruncateTowardZero);
    }
}

/// The text of zero, `0e0`, reads back as zero at any scale when unsigned.
proof fn lemma_unsigned_zero_text_reads_back(scale: nat)
    ensures
        scientific_unsigned_value(scientific_raw_text(0, scale), scale) == Ok::<int, ParseError>(0),
{
    let t = scientific_raw_text(0, scale);
    assert(t =~= seq![48u8, 101u8, 48u8]);
    lemma_exp_marker_char(t);
    assert(exp_marker_pos(t.take(1)) == 1) by {
        assert(t.take(1).drop_last() =~= Seq::<u8>::empty());
    }
    lemma_positions_prefix(t, 2);
    assert(t.take(2).drop_last() =~= t.take(1));
    assert(exp_marker_pos(t) == 1);
    let mant = t.take(1);
    assert(mant =~= seq![48u8]);
    crate::digits::lemma_digit_byte(0);
    crate::parse::lemma_plain_number_reads_back(seq![48u8], Seq::<u8>::empty(), scale, u64::MAX as nat, 0);
    assert(seq![48u8] + Seq::<u8>::empty() =~= seq![48u8]);
    crate::digits::lemma_digits_value_single(48u8);
    assert(0 * pow10(scale) == 0);
    lemma_nat_digits(0);
    assert(int_text(0) =~= seq![48u8]);
    assert(t.subrange(2, 3) =~= int_text(0));
    lemma_exponent_text_reads_back(0, 2);
    assert(0 * pow10(0) == 0);
}

/// Law: the scientific text of an unsigned raw value reads back as that value
/// whenever the text's mantissa is readable at the scale: it has at most `scale`
/// fractional digits and its raw value at `scale` fits in `u64`.
pub proof fn lemma_unsigned_scientific_text_reads_back(raw: nat, scale: nat)
    requires
        raw <= u64::MAX,
        shown_digits(raw).len() - 1 <= scale,
        digits_value(shown_digits(raw)) * pow10((scale - (shown_digits(raw).len() - 1)) as nat)
            <= u64::MAX,
    ensures
        scientific_unsigned_value(scientific_raw_text(raw as int, scale), scale) == Ok::<
            int,
            ParseError,
        >(raw as int),
{
    if raw == 0 {
        lemma_unsigned_zero_text_reads_back(scale);
    } else {
        let t = scientific_raw_text(raw as int, scale);
        let e: int = nat_digits(raw).len() - scale - 1;
        let mt = mantissa_text(raw as int);
        lemma_text_marker(raw as int, scale);
        lemma_unsigned_mantissa_reads(raw, scale);
        assert(t.take(mt.len() as int) =~= mt);
        assert(t.subrange(mt.len() + 1int, t.len() as int) =~= int_text(e));
        lemma_exponent_text_reads_back(e, mt.len() + 1);
        lemma_unsigned_nonzero_text_value(raw, scale);
    }
}

/// The fixed-point text has no exponent marker: its bytes are a sign, digits and
/// a dot.
proof fn lemma_fixed_point_no_marker(raw: int, scale: nat)
    ensures
        exp_marker_pos(signed_fixed_point_text(raw, scale)) == signed_fixed_point_text(raw, scale).len(),
{
    let m = abs(raw);
    lemma_nat_digits(m);
    lemma_nat_digits(m / pow10(scale));
    crate::digits::lemma_padded_digits(m % pow10(scale), scale);
    let t = signed_fixed_point_text(raw, scale);
    let sg = sign_text(raw < 0);
    let f = fixed_point_text(m, scale);
    assert forall|i: int| 0 <= i < t.len() implies !is_exp_marker(#[trigger] t[i]) by {
        if i >= sg.len() {
            let k = i - sg.len();
            assert(t[i] == f[k]);
            if scale != 0 {
                let a = nat_digits(m / pow10(scale));
                if k < a.len() {
                    assert(f[k] == a[k]);
                } else if k > a.len() {
                    assert(f[k] == padded_digits(m % pow10(scale), scale)[k - a.len() - 1]);
                }
            } else {
                assert(is_digit(nat_digits(m)[k]));
            }
        }
    }
    lemma_exp_marker_char(t);
}

/// Law: scientific parsing also reads the fixed-point text: the decimal text of
/// every raw value except `i64::MIN` reads back as that value.
pub proof fn lemma_scientific_reads_fixed_point(raw: int, scale: nat)
    requires
        i64::MIN < raw <= i64::MAX,
    ensures
        scientific_signed_value(signed_fixed_point_text(raw, scale), scale) == Ok::<int, ParseError>(raw),
{
    lemma_fixed_point_no_marker(raw, scale);
    crate::parse::lemma_signed_text_reads_back(raw, scale);
}

/// Law: unsigned scientific parsing also reads the fixed-point text of every
/// `u64` raw value back as that value.
pub proof fn lemma_unsigned_scientific_reads_fixed_point(raw: nat, scale: nat)
    requires
        raw <= u64::MAX,
    ensures
        scientific_unsigned_value(fixed_point_text(raw, scale), scale) == Ok::<int, ParseError>(raw as int),
{
    lemma_fixed_point_no_marker(raw as int, scale);
    assert(signed_fixed_point_text(raw as int, scale) =~= fixed_point_text(raw, scale));
    crate::parse_unsigned::lemma_unsigned_text_reads_back(raw, scale);
}

/// The scientific text is ASCII.
proof fn lemma_scientific_text_ascii(raw: int, scale: nat)
    ensures
        all_ascii(scientific_raw_text(raw, scale)),
{
    let t = scientific_raw_text(raw, scale);
    if raw == 0 {
        assert(t =~= seq![48u8, 101u8, 48u8]);
    } else {
        let m = abs(raw);
        lemma_nat_digits(m);
        let c = nat_digits(m);
        let f = trim_trailing_zeros(c.drop_first());
        lemma_trim_prefix(c.drop_first());
        let mt = mantissa_text(raw);
        let e: int = c.len() - scale - 1;
        assert(t =~= mt + seq![101u8] + int_text(e));
        assert forall|i: int| 0 <= i < mt.len() implies #[trigger] mt[i] < 128 by {
            let sl = sign_text(raw < 0).len();
            if i > sl + 1 {
                assert(mt[i] == f[i - sl - 2]);
                assert(f[i - sl - 2] == c.drop_first()[i - sl - 2]);
                assert(c.drop_first()[i - sl - 2] == c[i - sl - 1]);
            } else if i == sl {
                assert(mt[i] == c[0]);
            }
        }
        lemma_texts_ascii(e, 0);
        lemma_all_ascii_concat(mt, seq![101u8]);
        lemma_all_ascii_concat(mt + seq![101u8], int_text(e));
    }
}

impl<const S: u32> Scientific<Decimal64<S>> {
    /// Law: the text written by `to_string` parses back to the value whenever its
    /// mantissa is readable at scale `S` (at most `S` fractional digits, raw value
    /// at `S` within `i64`).
    pub proof fn lemma_text_reads_back(self)
        requires
            shown_digits(abs(self.0@)).len() - 1 <= S,
            digits_value(shown_digits(abs(self.0@))) * pow10(
                (S - (shown_digits(abs(self.0@)).len() - 1)) as nat,
            ) <= i64::MAX,
        ensures
            scientific_signed_value(
                encode_utf8(ascii_chars(scientific_raw_text(self.0@, S as nat))),
                S as nat,
            ) == Ok::<int, ParseError>(self.0@),
    {
        let raw = self.0.view();
        self.0.lemma_view_fits();
        lemma_scientific_text_ascii(raw, S as nat);
        lemma_ascii_utf8(scientific_raw_text(raw, S as nat));
        lemma_scientific_text_reads_back(raw, S as nat);
    }
}

impl<const S: u32> Scientific<UDecimal64<S>> {
    /// Law: the text written by `to_string` parses back to the value whenever its
    /// mantissa is readable at scale `S` (at most `S` fractional digits, raw value
    /// at `S` within `u64`).
    pub proof fn lemma_text_reads_back(self)
        requires
            shown_digits(self.0@).len() - 1 <= S,
            digits_value(shown_digits(self.0@)) * pow10((S - (shown_digits(self.0@).len() - 1)) as nat)
                <= u64::MAX,
        ensures
            scientific_unsigned_value(
                encode_utf8(ascii_chars(scientific_raw_text(self.0@ as int, S as nat))),
                S as nat,
            ) == Ok::<int, ParseError>(self.0@ as int),
    {
        let raw = self.0.view();
        self.0.lemma_view_fits();
        lemma_scientific_text_ascii(raw as int, S as nat);
        lemma_ascii_utf8(scientific_raw_text(raw as int, S as nat));
        lemma_unsigned_scientific_text_reads_back(raw, S as nat);
    }
}

impl<const S: u32> core::str::FromStr for Scientific<Decimal64<S>> {
    type Err = ParseError;

    fn from_str(s: &str) -> (r: Result<Self, ParseError>)
        ensures
            match r {
                Ok(d) => scientific_signed_value(s.spec_bytes(), S as nat) == Ok::<int, ParseError>(d.0@),
                Err(e) => scientific_signed_value(s.spec_bytes(), S as nat) == Err::<int, ParseError>(e),
            },
    {
        match parse_scientific_signed::<S>(s) {
            Ok(d) => Ok(Scientific(d)),
            Err(e) => Err(e),
        }
    }
}

impl<const S: u32> core::str::FromStr for Scientific<UDecimal64<S>> {
    type Err = ParseError;

    fn from_str(s: &str) -> (r: Result<Self, ParseError>)
        ensures
            match r {
                Ok(d) => scientific_unsigned_value(s.spec_bytes(), S as nat) == Ok::<int, ParseError>(
                    d.0@ as int,
                ),
                Err(e) => scientific_unsigned_value(s.spec_bytes(), S as nat) == Err::<int, ParseError>(e),
            },
    {
        match parse_scientific_unsigned::<S>(s) {
            Ok(d) => Ok(Scientific(d)),
            Err(e) => Err(e),
        }
    }
}

} // verus!

verus! {

/// Law: applying a decimal exponent to a raw `i64` value multiplies it by `10^e`
/// exactly (`Overflow` only when the product does not fit), or for a negative
/// exponent divides it by `10^-e` truncating toward zero; `Underflow` is reported
/// only for a nonzero value below one unit after the shift, with `e < -18`.
pub proof fn lemma_exponent_applied_i64_meaning(raw: int, e: int)
    requires
        fits_i64(raw),
    ensures
        match exponent_applied_i64(raw, e) {
            Ok(v) => {
                &&& fits_i64(v)
                &&& e >= 0 ==> v == raw * pow10(e as nat)
                &&& e < 0 ==> abs(v) * pow10((-e) as nat) <= abs(raw) < (abs(v) + 1) * pow10((-e) as nat)
                    && (raw >= 0 ==> v >= 0) && (raw <= 0 ==> v <= 0)
            },
            Err(ParseError::Overflow) => e > 0 && !fits_i64(raw * pow10(e as nat)),
            Err(ParseError::Underflow) => e < -18 && raw != 0 && abs(raw) < pow10((-e) as nat),
            Err(_) => false,
        },
{
    lemma_exponent_applied_shared(raw, e, 18);
}

/// Law: as `lemma_exponent_applied_i64_meaning`, for a raw `u64` value, with
/// `Underflow` only below `e < -19`.
pub proof fn lemma_exponent_applied_u64_meaning(raw: int, e: int)
    requires
        fits_u64(raw),
    ensures
        match exponent_applied_u64(raw, e) {
            Ok(v) => {
                &&& fits_u64(v)
                &&& e >= 0 ==> v == raw * pow10(e as nat)
                &&& e < 0 ==> v * pow10((-e) as nat) <= raw < (v + 1) * pow10((-e) as nat)
            },
            Err(ParseError::Overflow) => e > 0 && !fits_u64(raw * pow10(e as nat)),
            Err(ParseError::Underflow) => e < -19 && raw != 0 && raw < pow10((-e) as nat),
            Err(_) => false,
        },
{
    lemma_exponent_applied_shared(raw, e, 19);
}

/// The truncated shift and the size of a raw value below the underflow threshold.
proof fn lemma_exponent_applied_shared(raw: int, e: int, limit: nat)
    requires
        limit == 18 || limit == 19,
        -0x8000_0000_0000_0000 <= raw <= u64::MAX,
        limit == 18 ==> raw < 0x8000_0000_0000_0000,
    ensures
        e >= 0 ==> raw * pow10(e as nat) == raw || e > 0,
        e == 0 ==> raw * pow10(e as nat) == raw,
        e < 0 ==> ({
            let p = pow10((-e) as nat) as int;
            let t = trunc_quotient(raw, p);
            &&& abs(t) * p <= abs(raw) < (abs(t) + 1) * p
            &&& raw >= 0 ==> 0 <= t <= raw
            &&& raw < 0 ==> raw <= t <= 0
        }),
        e < -(limit as int) ==> abs(raw) < pow10((-e) as nat),
{
    if e == 0 {
        assert(raw * pow10(0) == raw * 1);
    }
    if e < 0 {
        let k = (-e) as nat;
        let p = pow10(k) as int;
        lemma_pow10_pos(k);
        crate::math::lemma_rounding_modes(raw, p);
        lemma_rounded_quotient_bound(raw, p, crate::Round::TruncateTowardZero);
        if e < -(limit as int) {
            lemma_pow10_values();
            if limit == 18 {
                lemma_pow10_mono(19, k);
            } else {
                lemma_pow10_mono(20, k);
                assert(pow10(20) == 10 * pow10(19));
            }
        }
    }
}

} // verus!
