//! `Decimal64<S>`: a signed fixed-scale decimal stored as an `i64` in units of `10^(-S)`.

use vstd::prelude::*;
use core::ops::{Add, Div, Mul, Neg, Sub};
use vstd::arithmetic::div_mod::*;
use crate::math::{
    abs, checked_i64, clamp_i64, fits_i64, lemma_magnitude_div, lemma_pow10_small,
    lemma_rounded_quotient_bound, pow10, rescaled, rescaled_exact, rounded_quotient,
    scaled_product, scaled_quotient, trunc_quotient,
};
use crate::{ParseError, Round};
use crate::digits::nat_digits;
use crate::parse::{lemma_signed_text_reads_back, signed_decimal_value};
use crate::text::{
    ascii_chars, int_text, lemma_ascii_chars_concat, lemma_ascii_utf8, lemma_texts_ascii,
    magnitude_i64, push_digits, push_fixed_point, push_int, push_sign, signed_fixed_point_text,
    sign_text, fixed_point_text,
};
use vstd::string::{StringExecFns, StringSliceAdditionalSpecFns};
use vstd::utf8::encode_utf8;

verus! {

/// `10^s` as an `i64`; scales above 18 would overflow.
fn const_pow10(s: u32) -> (r: i64)
    requires
        s <= 18,
    ensures
        r == pow10(s as nat),
{
    let mut result: i64 = 1;
    let mut i: u32 = 0;
    while i < s
        invariant
            i <= s <= 18,
            result == pow10(i as nat),
        decreases s - i,
    {
        proof {
            lemma_pow10_small((i + 1) as nat);
        }
        result = result * 10;
        i += 1;
    }
    result
}

/// Integer division of `num` by `den` (nonzero, and not `i128::MIN / -1`, whose
/// quotient does not fit), rounded as `mode` says.
///
/// The magnitudes are divided with truncation and the quotient is moved one step
/// away from zero when the remainder calls for it; the remainder is compared with
/// `|den| - r` rather than doubled, so no intermediate value can overflow.
pub(crate) fn div_round_i128(num: i128, den: i128, mode: Round) -> (q: i128)
    requires
        den != 0,
        !(num == i128::MIN && den == -1),
    ensures
        q == rounded_quotient(num as int, den as int, mode),
{
    let negative = (num < 0) != (den < 0);
    let a: u128 = if num < 0 {
        (-(num + 1)) as u128 + 1
    } else {
        num as u128
    };
    let b: u128 = if den < 0 {
        (-(den + 1)) as u128 + 1
    } else {
        den as u128
    };
    let q = a / b;
    let r = a % b;
    proof {
        lemma_magnitude_div(num as int, den as int);
        lemma_rounded_quotient_bound(num as int, den as int, mode);
    }
    let rest = b - r;
    let away = match mode {
        Round::NearestEven => r > rest || (r == rest && q % 2 == 1),
        Round::Nearest => r >= rest,
        Round::TruncateTowardZero => false,
        Round::TowardPosInf => r != 0 && !negative,
        Round::TowardNegInf => r != 0 && negative,
    };
    proof {
        if away {
            // Moving away needs a nonzero remainder, so the divisor is at least 2.
            assert(r >= 1 && b >= 2);
            assert(b * q >= 2 * q) by (nonlinear_arith)
                requires
                    b >= 2,
                    q >= 0,
            ;
        }
        if !negative && b >= 2 {
            assert(b * q >= 2 * q) by (nonlinear_arith)
                requires
                    b >= 2,
                    q >= 0,
            ;
        }
    }
    let m: u128 = if away {
        q + 1
    } else {
        q
    };
    if negative {
        if m == 0x8000_0000_0000_0000_0000_0000_0000_0000 {
            i128::MIN
        } else {
            -(m as i128)
        }
    } else {
        m as i128
    }
}

/// Fixed-scale 64-bit signed decimal.
///
/// The raw value is an `i64` whose unit is `10^(-S)`: `"1.23"` at scale 2 is stored
/// as `123`. The view `d@` is that raw integer.
#[derive(Clone, Copy, PartialEq, Eq, PartialOrd, Ord, Hash, Debug)]
pub struct Decimal64<const S: u32>(i64);

impl<const S: u32> View for Decimal64<S> {
    type V = int;

    closed spec fn view(&self) -> int {
        self.0 as int
    }
}

impl<const S: u32> Decimal64<S> {
    /// The view of an optional result.
    pub open spec fn view_opt(o: Option<Self>) -> Option<int> {
        match o {
            Some(d) => Some(d@),
            None => None,
        }
    }

    /// The scale parameter `S`.
    pub fn scale() -> (r: u32)
        ensures
            r == S,
    {
        S
    }

    /// Additive identity: raw `0`.
    pub fn zero() -> (r: Self)
        ensures
            r@ == 0,
    {
        Self(0)
    }

    /// Multiplicative identity: `1.0`, stored as `10^S`.
    pub fn one() -> (r: Self)
        requires
            S <= 18,
        ensures
            r@ == pow10(S as nat),
    {
        Self(const_pow10(S))
    }

    /// Largest representable value (`i64::MAX` raw).
    pub fn max_value() -> (r: Self)
        ensures
            r@ == i64::MAX,
    {
        Self(i64::MAX)
    }

    /// Smallest representable value (`i64::MIN` raw).
    pub fn min_value() -> (r: Self)
        ensures
            r@ == i64::MIN,
    {
        Self(i64::MIN)
    }

    /// Wrap a raw `i64` without any scaling.
    pub fn from_raw(raw: i64) -> (d: Self)
        ensures
            d@ == raw,
    {
        Self(raw)
    }

    /// The raw `i64` storage value (the mathematical value times `10^S`).
    pub fn raw(self) -> (r: i64)
        ensures
            r == self@,
    {
        self.0
    }

    /// Parses a decimal string (`[+-]digits[.digits]`); fractional digits beyond
    /// `S` are truncated toward zero.
    pub fn parse(s: &str) -> (r: Result<Self, ParseError>)
        ensures
            match r {
                Ok(d) => signed_decimal_value(s.spec_bytes(), S as nat) == Ok::<int, ParseError>(d@),
                Err(e) => signed_decimal_value(s.spec_bytes(), S as nat) == Err::<int, ParseError>(e),
            },
    {
        crate::parse::parse::<S>(s)
    }

    /// The decimal text: integer part, then `.` and exactly `S` fractional digits
    /// (no dot at scale 0), with a leading `-` for negative values.
    pub fn to_string(self) -> (s: String)
        requires
            S <= 18,
        ensures
            s@ == ascii_chars(signed_fixed_point_text(self@, S as nat)),
    {
        let mut out = String::new();
        push_sign(&mut out, self.0 < 0);
        push_fixed_point(&mut out, magnitude_i64(self.0), S);
        proof {
            lemma_ascii_chars_concat(
                sign_text(self@ < 0),
                fixed_point_text(crate::math::abs(self@), S as nat),
            );
        }
        out
    }

    /// The debugging text `Decimal64<S>(raw)`.
    pub fn to_debug_string(self) -> (s: String)
        ensures
            s@ == "Decimal64<"@ + ascii_chars(nat_digits(S as nat)) + ">("@ + ascii_chars(
                int_text(self@),
            ) + ")"@,
    {
        let mut out = String::new();
        out.append("Decimal64<");
        push_digits(&mut out, S as u64);
        out.append(">(");
        push_int(&mut out, self.0);
        out.append(")");
        out
    }

    /// The view is an `i64` value.
    pub proof fn lemma_view_fits(self)
        ensures
            fits_i64(self@),
    {
    }

    /// Law: every value except the smallest reads back from its decimal text.
    pub proof fn lemma_text_reads_back(self)
        requires
            self@ != i64::MIN,
        ensures
            signed_decimal_value(
                encode_utf8(ascii_chars(signed_fixed_point_text(self@, S as nat))),
                S as nat,
            ) == Ok::<int, ParseError>(self@),
    {
        lemma_texts_ascii(self@, S as nat);
        lemma_ascii_utf8(signed_fixed_point_text(self@, S as nat));
        lemma_signed_text_reads_back(self@, S as nat);
    }

    /// Returns `None` on overflow.
    pub fn checked_add(self, rhs: Self) -> (r: Option<Self>)
        ensures
            Self::view_opt(r) == checked_i64(self@ + rhs@),
    {
        match self.0.checked_add(rhs.0) {
            Some(v) => Some(Self(v)),
            None => None,
        }
    }

    /// Returns `None` on overflow.
    pub fn checked_sub(self, rhs: Self) -> (r: Option<Self>)
        ensures
            Self::view_opt(r) == checked_i64(self@ - rhs@),
    {
        match self.0.checked_sub(rhs.0) {
            Some(v) => Some(Self(v)),
            None => None,
        }
    }

    /// `a * b / 10^S` truncated toward zero; `None` when it does not fit.
    pub fn checked_mul(self, rhs: Self) -> (r: Option<Self>)
        requires
            S <= 18,
        ensures
            Self::view_opt(r) == checked_i64(scaled_product(self@, rhs@, S as nat)),
    {
        proof {
            lemma_product_bound(self.0 as int, rhs.0 as int);
            lemma_pow10_small(S as nat);
        }
        let product = self.0 as i128 * rhs.0 as i128;
        let scale = const_pow10(S) as i128;
        let result = div_round_i128(product, scale, Round::TruncateTowardZero);
        if i64::MIN as i128 <= result && result <= i64::MAX as i128 {
            Some(Self(result as i64))
        } else {
            None
        }
    }

    /// `a * 10^S / b` truncated toward zero; `None` on division by zero or overflow.
    pub fn checked_div(self, rhs: Self) -> (r: Option<Self>)
        requires
            S <= 18,
        ensures
            Self::view_opt(r) == if rhs@ == 0 {
                None
            } else {
                checked_i64(scaled_quotient(self@, rhs@, S as nat, Round::TruncateTowardZero))
            },
    {
        self.checked_div_round(rhs, Round::TruncateTowardZero)
    }

    /// Clamps to the largest or smallest value on overflow.
    pub fn saturating_add(self, rhs: Self) -> (r: Self)
        ensures
            r@ == clamp_i64(self@ + rhs@),
    {
        match self.0.checked_add(rhs.0) {
            Some(v) => Self(v),
            None => if rhs.0 > 0 {
                Self(i64::MAX)
            } else {
                Self(i64::MIN)
            },
        }
    }

    /// Clamps to the largest or smallest value on overflow.
    pub fn saturating_sub(self, rhs: Self) -> (r: Self)
        ensures
            r@ == clamp_i64(self@ - rhs@),
    {
        match self.0.checked_sub(rhs.0) {
            Some(v) => Self(v),
            None => if rhs.0 < 0 {
                Self(i64::MAX)
            } else {
                Self(i64::MIN)
            },
        }
    }

    /// Same-scale product clamped to the largest or smallest value on overflow.
    pub fn saturating_mul(self, rhs: Self) -> (r: Self)
        requires
            S <= 18,
        ensures
            r@ == clamp_i64(scaled_product(self@, rhs@, S as nat)),
    {
        proof {
            lemma_product_bound(self.0 as int, rhs.0 as int);
            lemma_pow10_small(S as nat);
        }
        let product = self.0 as i128 * rhs.0 as i128;
        let scale = const_pow10(S) as i128;
        let result = div_round_i128(product, scale, Round::TruncateTowardZero);
        if result > i64::MAX as i128 {
            Self(i64::MAX)
        } else if result < i64::MIN as i128 {
            Self(i64::MIN)
        } else {
            Self(result as i64)
        }
    }

    /// Divide using nearest-even (banker's) rounding.
    pub fn div_round_nearest_even(self, rhs: Self) -> (r: Self)
        requires
            S <= 18,
            rhs@ != 0,
            fits_i64(scaled_quotient(self@, rhs@, S as nat, Round::NearestEven)),
        ensures
            r@ == scaled_quotient(self@, rhs@, S as nat, Round::NearestEven),
    {
        self.div_round(rhs, Round::NearestEven)
    }

    /// Divide using nearest, ties away from zero.
    pub fn div_round_nearest(self, rhs: Self) -> (r: Self)
        requires
            S <= 18,
            rhs@ != 0,
            fits_i64(scaled_quotient(self@, rhs@, S as nat, Round::Nearest)),
        ensures
            r@ == scaled_quotient(self@, rhs@, S as nat, Round::Nearest),
    {
        self.div_round(rhs, Round::Nearest)
    }

    /// Divide by truncating toward zero.
    pub fn div_round_zero(self, rhs: Self) -> (r: Self)
        requires
            S <= 18,
            rhs@ != 0,
            fits_i64(scaled_quotient(self@, rhs@, S as nat, Round::TruncateTowardZero)),
        ensures
            r@ == scaled_quotient(self@, rhs@, S as nat, Round::TruncateTowardZero),
    {
        self.div_round(rhs, Round::TruncateTowardZero)
    }

    /// Divide by rounding toward positive infinity.
    pub fn div_round_ceil(self, rhs: Self) -> (r: Self)
        requires
            S <= 18,
            rhs@ != 0,
            fits_i64(scaled_quotient(self@, rhs@, S as nat, Round::TowardPosInf)),
        ensures
            r@ == scaled_quotient(self@, rhs@, S as nat, Round::TowardPosInf),
    {
        self.div_round(rhs, Round::TowardPosInf)
    }

    /// Divide by rounding toward negative infinity.
    pub fn div_round_floor(self, rhs: Self) -> (r: Self)
        requires
            S <= 18,
            rhs@ != 0,
            fits_i64(scaled_quotient(self@, rhs@, S as nat, Round::TowardNegInf)),
        ensures
            r@ == scaled_quotient(self@, rhs@, S as nat, Round::TowardNegInf),
    {
        self.div_round(rhs, Round::TowardNegInf)
    }

    /// Divide using nearest-even rounding; `None` on division by zero or overflow.
    pub fn checked_div_round_nearest_even(self, rhs: Self) -> (r: Option<Self>)
        requires
            S <= 18,
        ensures
            Self::view_opt(r) == if rhs@ == 0 {
                None
            } else {
                checked_i64(scaled_quotient(self@, rhs@, S as nat, Round::NearestEven))
            },
    {
        self.checked_div_round(rhs, Round::NearestEven)
    }

    /// Divide using nearest, ties away from zero; `None` on division by zero or overflow.
    pub fn checked_div_round_nearest(self, rhs: Self) -> (r: Option<Self>)
        requires
            S <= 18,
        ensures
            Self::view_opt(r) == if rhs@ == 0 {
                None
            } else {
                checked_i64(scaled_quotient(self@, rhs@, S as nat, Round::Nearest))
            },
    {
        self.checked_div_round(rhs, Round::Nearest)
    }

    /// Divide truncating toward zero; `None` on division by zero or overflow.
    pub fn checked_div_round_zero(self, rhs: Self) -> (r: Option<Self>)
        requires
            S <= 18,
        ensures
            Self::view_opt(r) == if rhs@ == 0 {
                None
            } else {
                checked_i64(scaled_quotient(self@, rhs@, S as nat, Round::TruncateTowardZero))
            },
    {
        self.checked_div_round(rhs, Round::TruncateTowardZero)
    }

    /// Divide rounding toward positive infinity; `None` on division by zero or overflow.
    pub fn checked_div_round_ceil(self, rhs: Self) -> (r: Option<Self>)
        requires
            S <= 18,
        ensures
            Self::view_opt(r) == if rhs@ == 0 {
                None
            } else {
                checked_i64(scaled_quotient(self@, rhs@, S as nat, Round::TowardPosInf))
            },
    {
        self.checked_div_round(rhs, Round::TowardPosInf)
    }

    /// Divide rounding toward negative infinity; `None` on division by zero or overflow.
    pub fn checked_div_round_floor(self, rhs: Self) -> (r: Option<Self>)
        requires
            S <= 18,
        ensures
            Self::view_opt(r) == if rhs@ == 0 {
                None
            } else {
                checked_i64(scaled_quotient(self@, rhs@, S as nat, Round::TowardNegInf))
            },
    {
        self.checked_div_round(rhs, Round::TowardNegInf)
    }

    /// Divides, rounding as `mode` says; the divisor must be nonzero and the quotient
    /// must fit.
    pub fn div_round(self, rhs: Self, mode: Round) -> (r: Self)
        requires
            S <= 18,
            rhs@ != 0,
            fits_i64(scaled_quotient(self@, rhs@, S as nat, mode)),
        ensures
            r@ == scaled_quotient(self@, rhs@, S as nat, mode),
    {
        match self.checked_div_round(rhs, mode) {
            Some(d) => d,
            None => {
                proof {
                    assert(false);
                }
                Self(0)
            },
        }
    }

    /// Divides, rounding as `mode` says; `None` on division by zero or overflow.
    pub fn checked_div_round(self, rhs: Self, mode: Round) -> (r: Option<Self>)
        requires
            S <= 18,
        ensures
            Self::view_opt(r) == if rhs@ == 0 {
                None
            } else {
                checked_i64(scaled_quotient(self@, rhs@, S as nat, mode))
            },
    {
        if rhs.0 == 0 {
            return None;
        }
        proof {
            lemma_scaled_bound(self.0 as int, S as nat);
        }
        let num = self.0 as i128 * const_pow10(S) as i128;
        let den = rhs.0 as i128;
        let result = div_round_i128(num, den, mode);
        if i64::MIN as i128 <= result && result <= i64::MAX as i128 {
            Some(Self(result as i64))
        } else {
            None
        }
    }

    /// Lossless rescale to scale `OUT`; `None` if nonzero fractional digits would be
    /// lost or on overflow.
    pub fn rescale_into<const OUT: u32>(self) -> (r: Option<Decimal64<OUT>>)
        requires
            S <= 18,
            OUT <= 18,
        ensures
            Decimal64::<OUT>::view_opt(r) == match rescaled_exact(self@, S as nat, OUT as nat) {
                Some(v) => checked_i64(v),
                None => None,
            },
    {
        if OUT > S {
            let factor = const_pow10(OUT - S);
            assert(factor == pow10((OUT as nat - S as nat) as nat));
            match self.0.checked_mul(factor) {
                Some(v) => Some(Decimal64::from_raw(v)),
                None => None,
            }
        } else if OUT < S {
            proof {
                lemma_pow10_small((S - OUT) as nat);
            }
            let factor = const_pow10(S - OUT) as i128;
            let val = self.0 as i128;
            let q = div_round_i128(val, factor, Round::TruncateTowardZero);
            proof {
                lemma_trunc_exact(val as int, factor as int);
                lemma_rounded_quotient_bound(val as int, factor as int, Round::TruncateTowardZero);
                lemma_product_bound(q as int, factor as int);
            }
            if q * factor != val {
                None
            } else {
                Some(Decimal64::from_raw(q as i64))
            }
        } else {
            assert(self@ * pow10(0) == self@ * 1);
            Some(Decimal64::from_raw(self.0))
        }
    }

    /// Rescale using nearest-even (banker's) rounding; `None` only on overflow.
    pub fn rescale_round_into_nearest_even<const OUT: u32>(self) -> (r: Option<Decimal64<OUT>>)
        requires
            S <= 18,
            OUT <= 18,
        ensures
            Decimal64::<OUT>::view_opt(r) == checked_i64(
                rescaled(self@, S as nat, OUT as nat, Round::NearestEven),
            ),
    {
        self.rescale_round_into::<OUT>(Round::NearestEven)
    }

    /// Rescale using nearest, ties away from zero; `None` only on overflow.
    pub fn rescale_round_into_nearest<const OUT: u32>(self) -> (r: Option<Decimal64<OUT>>)
        requires
            S <= 18,
            OUT <= 18,
        ensures
            Decimal64::<OUT>::view_opt(r) == checked_i64(
                rescaled(self@, S as nat, OUT as nat, Round::Nearest),
            ),
    {
        self.rescale_round_into::<OUT>(Round::Nearest)
    }

    /// Rescale by truncating toward zero; `None` only on overflow.
    pub fn rescale_round_into_zero<const OUT: u32>(self) -> (r: Option<Decimal64<OUT>>)
        requires
            S <= 18,
            OUT <= 18,
        ensures
            Decimal64::<OUT>::view_opt(r) == checked_i64(
                rescaled(self@, S as nat, OUT as nat, Round::TruncateTowardZero),
            ),
    {
        self.rescale_round_into::<OUT>(Round::TruncateTowardZero)
    }

    /// Rescale by rounding toward positive infinity; `None` only on overflow.
    pub fn rescale_round_into_ceil<const OUT: u32>(self) -> (r: Option<Decimal64<OUT>>)
        requires
            S <= 18,
            OUT <= 18,
        ensures
            Decimal64::<OUT>::view_opt(r) == checked_i64(
                rescaled(self@, S as nat, OUT as nat, Round::TowardPosInf),
            ),
    {
        self.rescale_round_into::<OUT>(Round::TowardPosInf)
    }

    /// Rescale by rounding toward negative infinity; `None` only on overflow.
    pub fn rescale_round_into_floor<const OUT: u32>(self) -> (r: Option<Decimal64<OUT>>)
        requires
            S <= 18,
            OUT <= 18,
        ensures
            Decimal64::<OUT>::view_opt(r) == checked_i64(
                rescaled(self@, S as nat, OUT as nat, Round::TowardNegInf),
            ),
    {
        self.rescale_round_into::<OUT>(Round::TowardNegInf)
    }

    /// Rescales to scale `OUT`, rounding as `mode` says when digits are dropped;
    /// `None` only on overflow.
    pub fn rescale_round_into<const OUT: u32>(self, mode: Round) -> (r: Option<Decimal64<OUT>>)
        requires
            S <= 18,
            OUT <= 18,
        ensures
            Decimal64::<OUT>::view_opt(r) == checked_i64(rescaled(self@, S as nat, OUT as nat, mode)),
    {
        if OUT > S {
            let factor = const_pow10(OUT - S);
            assert(factor == pow10((OUT as nat - S as nat) as nat));
            match self.0.checked_mul(factor) {
                Some(v) => Some(Decimal64::from_raw(v)),
                None => None,
            }
        } else if OUT < S {
            proof {
                lemma_pow10_small((S - OUT) as nat);
            }
            let factor = const_pow10(S - OUT) as i128;
            let result = div_round_i128(self.0 as i128, factor, mode);
            if result >= i64::MIN as i128 && result <= i64::MAX as i128 {
                Some(Decimal64::from_raw(result as i64))
            } else {
                None
            }
        } else {
            assert(self@ * pow10(0) == self@ * 1);
            Some(Decimal64::from_raw(self.0))
        }
    }
}

/// The product of two `i64` values stays within `2^126` in magnitude.
proof fn lemma_product_bound(a: int, b: int)
    requires
        fits_i64(a),
        fits_i64(b),
    ensures
        abs(a * b) <= 0x4000_0000_0000_0000_0000_0000_0000_0000,
{
    assert(abs(a * b) == abs(a) * abs(b)) by (nonlinear_arith);
    assert(abs(a) * abs(b) <= 0x8000_0000_0000_0000 * 0x8000_0000_0000_0000) by (nonlinear_arith)
        requires
            abs(a) <= 0x8000_0000_0000_0000,
            abs(b) <= 0x8000_0000_0000_0000,
    ;
}

/// An `i64` scaled by `10^s` (s <= 18) stays within `2^126` in magnitude.
proof fn lemma_scaled_bound(a: int, s: nat)
    requires
        fits_i64(a),
        s <= 18,
    ensures
        abs(a * pow10(s)) <= 0x4000_0000_0000_0000_0000_0000_0000_0000,
        fits_i64(pow10(s) as int),
{
    lemma_pow10_small(s);
    let p = pow10(s) as int;
    assert(abs(a * p) == abs(a) * p) by (nonlinear_arith)
        requires
            p >= 1,
    ;
    assert(abs(a) * p <= 0x8000_0000_0000_0000 * 1_000_000_000_000_000_000) by (nonlinear_arith)
        requires
            abs(a) <= 0x8000_0000_0000_0000,
            p <= 1_000_000_000_000_000_000,
    ;
}

/// Truncating division by a positive `k` is exact exactly when `k` divides `a`, and
/// then it agrees with the Euclidean quotient.
pub proof fn lemma_trunc_exact(a: int, k: int)
    requires
        k > 0,
    ensures
        (trunc_quotient(a, k) * k == a) == (a % k == 0),
        a % k == 0 ==> trunc_quotient(a, k) == a / k,
{
    lemma_magnitude_div(a, k);
    let m = abs(a);
    let q = m / (k as nat);
    let r = m % (k as nat);
    if a >= 0 {
        assert(trunc_quotient(a, k) == q);
        assert((q * k == a) == (r == 0)) by (nonlinear_arith)
            requires
                a == k * q + r,
                0 <= r < k,
        ;
    } else {
        assert(trunc_quotient(a, k) == -q);
        assert(-q * k == a <==> r == 0) by (nonlinear_arith)
            requires
                -a == k * q + r,
                0 <= r < k,
        ;
        if r == 0 {
            lemma_fundamental_div_mod_converse(a, k, -q, 0);
        } else {
            assert(a == (-q - 1) * k + (k - r)) by (nonlinear_arith)
                requires
                    -a == k * q + r,
            ;
            lemma_fundamental_div_mod_converse(a, k, -q - 1, k - r);
        }
    }
}

impl<const S: u32> core::str::FromStr for Decimal64<S> {
    type Err = ParseError;

    fn from_str(s: &str) -> (r: Result<Self, ParseError>)
        ensures
            match r {
                Ok(d) => signed_decimal_value(s.spec_bytes(), S as nat) == Ok::<int, ParseError>(d@),
                Err(e) => signed_decimal_value(s.spec_bytes(), S as nat) == Err::<int, ParseError>(e),
            },
    {
        crate::parse::parse::<S>(s)
    }
}

// ── Arithmetic operators ─────────────────────────────────────────────────────

impl<const S: u32> Add for Decimal64<S> {
    type Output = Self;

    /// Same-scale addition; the sum must fit.
    fn add(self, rhs: Self) -> (r: Self)
        ensures
            r@ == self@ + rhs@,
    {
        Self(self.0 + rhs.0)
    }
}

impl<const S: u32> vstd::std_specs::ops::AddSpecImpl for Decimal64<S> {
    open spec fn obeys_add_spec() -> bool {
        true
    }

    open spec fn add_req(self, rhs: Self) -> bool {
        fits_i64(self@ + rhs@)
    }

    closed spec fn add_spec(self, rhs: Self) -> Self {
        Decimal64((self.0 + rhs.0) as i64)
    }
}

impl<const S: u32> Sub for Decimal64<S> {
    type Output = Self;

    /// Same-scale subtraction; the difference must fit.
    fn sub(self, rhs: Self) -> (r: Self)
        ensures
            r@ == self@ - rhs@,
    {
        Self(self.0 - rhs.0)
    }
}

impl<const S: u32> vstd::std_specs::ops::SubSpecImpl for Decimal64<S> {
    open spec fn obeys_sub_spec() -> bool {
        true
    }

    open spec fn sub_req(self, rhs: Self) -> bool {
        fits_i64(self@ - rhs@)
    }

    closed spec fn sub_spec(self, rhs: Self) -> Self {
        Decimal64((self.0 - rhs.0) as i64)
    }
}

impl<const S: u32> Neg for Decimal64<S> {
    type Output = Self;

    /// Negation; `i64::MIN` raw has no negation.
    fn neg(self) -> (r: Self)
        ensures
            r@ == -self@,
    {
        Self(-self.0)
    }
}

impl<const S: u32> vstd::std_specs::ops::NegSpecImpl for Decimal64<S> {
    open spec fn obeys_neg_spec() -> bool {
        true
    }

    open spec fn neg_req(self) -> bool {
        fits_i64(-self@)
    }

    closed spec fn neg_spec(self) -> Self {
        Decimal64((-self.0) as i64)
    }
}

impl<const S: u32> Mul for Decimal64<S> {
    type Output = Self;

    /// Same-scale multiplication truncated toward zero; the product must fit.
    fn mul(self, rhs: Self) -> (r: Self)
        ensures
            r@ == scaled_product(self@, rhs@, S as nat),
    {
        match self.checked_mul(rhs) {
            Some(d) => d,
            None => {
                proof {
                    assert(false);
                }
                Self(0)
            },
        }
    }
}

impl<const S: u32> vstd::std_specs::ops::MulSpecImpl for Decimal64<S> {
    open spec fn obeys_mul_spec() -> bool {
        true
    }

    open spec fn mul_req(self, rhs: Self) -> bool {
        S <= 18 && fits_i64(scaled_product(self@, rhs@, S as nat))
    }

    closed spec fn mul_spec(self, rhs: Self) -> Self {
        Decimal64(scaled_product(self.0 as int, rhs.0 as int, S as nat) as i64)
    }
}

impl<const S: u32> Div for Decimal64<S> {
    type Output = Self;

    /// Same-scale division truncated toward zero; the divisor must be nonzero and
    /// the quotient must fit.
    fn div(self, rhs: Self) -> (r: Self)
        ensures
            r@ == scaled_quotient(self@, rhs@, S as nat, Round::TruncateTowardZero),
    {
        match self.checked_div(rhs) {
            Some(d) => d,
            None => {
                proof {
                    assert(false);
                }
                Self(0)
            },
        }
    }
}

impl<const S: u32> vstd::std_specs::ops::DivSpecImpl for Decimal64<S> {
    open spec fn obeys_div_spec() -> bool {
        true
    }

    open spec fn div_req(self, rhs: Self) -> bool {
        S <= 18 && rhs@ != 0 && fits_i64(scaled_quotient(self@, rhs@, S as nat, Round::TruncateTowardZero))
    }

    closed spec fn div_spec(self, rhs: Self) -> Self {
        Decimal64(
            scaled_quotient(self.0 as int, rhs.0 as int, S as nat, Round::TruncateTowardZero) as i64,
        )
    }
}

} // verus!
