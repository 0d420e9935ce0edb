//! `UDecimal64<S>`: an unsigned fixed-scale decimal stored as a `u64` in units of
//! `10^(-S)`.

use vstd::prelude::*;
use vstd::string::{StringExecFns, StringSliceAdditionalSpecFns};
use vstd::utf8::encode_utf8;
use core::ops::{Add, Div, Mul, Sub};
use crate::decimal64::Decimal64;
use crate::digits::nat_digits;
use crate::math::{
    checked_i64, checked_u64, clamp_u64, fits_u64, lemma_magnitude_div, lemma_pow10_small,
    lemma_rounded_quotient_bound, pow10, rescaled, rescaled_exact, rounded_quotient,
    scaled_product, scaled_quotient,
};
use crate::parse_unsigned::{lemma_unsigned_text_reads_back, unsigned_decimal_value};
use crate::text::{
    ascii_chars, fixed_point_text, lemma_ascii_utf8, lemma_texts_ascii, push_digits,
    push_fixed_point, signed_fixed_point_text,
};
use crate::{ParseError, Round};

verus! {

/// `10^s` as a `u64`; scales above 18 are not supported.
pub(crate) fn const_pow10_u64(s: u32) -> (r: u64)
    requires
        s <= 18,
    ensures
        r == pow10(s as nat),
{
    let mut result: u64 = 1;
    let mut i: u32 = 0;
    while i < s
        invariant
            i <= s <= 18,
            result == pow10(i as nat),
        decreases s - i,
    {
        proof {
            lemma_pow10_small((i + 1) as nat);
        }
        result = result * 10;
        i += 1;
    }
    result
}

/// Integer division of `num` by `den` (nonzero), rounded as `mode` says.
///
/// The remainder is compared with `den - r` rather than doubled, so no
/// intermediate value can overflow.
fn div_round_u128(num: u128, den: u128, mode: Round) -> (q: u128)
    requires
        den != 0,
    ensures
        q == rounded_quotient(num as int, den as int, mode),
{
    let q = num / den;
    let r = num % den;
    proof {
        lemma_magnitude_div(num as int, den as int);
        lemma_rounded_quotient_bound(num as int, den as int, mode);
    }
    let rest = den - r;
    let away = match mode {
        Round::NearestEven => r > rest || (r == rest && q % 2 == 1),
        Round::Nearest => r >= rest,
        Round::TruncateTowardZero => false,
        Round::TowardPosInf => r != 0,
        Round::TowardNegInf => false,
    };
    if away {
        q + 1
    } else {
        q
    }
}

/// Fixed-scale 64-bit unsigned decimal.
///
/// The raw value is a `u64` whose unit is `10^(-S)`. The view `d@` is that raw
/// integer.
#[derive(Clone, Copy, PartialEq, Eq, PartialOrd, Ord, Hash, Debug)]
pub struct UDecimal64<const S: u32>(u64);

impl<const S: u32> View for UDecimal64<S> {
    type V = nat;

    closed spec fn view(&self) -> nat {
        self.0 as nat
    }
}

impl<const S: u32> UDecimal64<S> {
    /// The view of an optional result.
    pub open spec fn view_opt(o: Option<Self>) -> Option<int> {
        match o {
            Some(d) => Some(d@ as int),
            None => None,
        }
    }

    /// The scale parameter `S`.
    pub fn scale() -> (r: u32)
        ensures
            r == S,
    {
        S
    }

    /// Additive identity: raw `0`.
    pub fn zero() -> (r: Self)
        ensures
            r@ == 0,
    {
        Self(0)
    }

    /// Multiplicative identity: `1.0`, stored as `10^S`.
    pub fn one() -> (r: Self)
        requires
            S <= 18,
        ensures
            r@ == pow10(S as nat),
    {
        Self(const_pow10_u64(S))
    }

    /// Largest representable value (`u64::MAX` raw).
    pub fn max_value() -> (r: Self)
        ensures
            r@ == u64::MAX,
    {
        Self(u64::MAX)
    }

    /// Wrap a raw `u64` without any scaling.
    pub fn from_raw(raw: u64) -> (d: Self)
        ensures
            d@ == raw,
    {
        Self(raw)
    }

    /// The raw `u64` storage value (the mathematical value times `10^S`).
    pub fn raw(self) -> (r: u64)
        ensures
            r == self@,
    {
        self.0
    }

    /// Parses an unsigned decimal string (`digits[.digits]`, no sign); fractional
    /// digits beyond `S` are truncated toward zero.
    pub fn parse(s: &str) -> (r: Result<Self, ParseError>)
        ensures
            match r {
                Ok(d) => unsigned_decimal_value(s.spec_bytes(), S as nat) == Ok::<nat, ParseError>(d@),
                Err(e) => unsigned_decimal_value(s.spec_bytes(), S as nat) == Err::<nat, ParseError>(e),
            },
    {
        crate::parse_unsigned::parse::<S>(s)
    }

    /// The decimal text: integer part, then `.` and exactly `S` fractional digits
    /// (no dot at scale 0).
    pub fn to_string(self) -> (s: String)
        requires
            S <= 18,
        ensures
            s@ == ascii_chars(fixed_point_text(self@, S as nat)),
    {
        let mut out = String::new();
        push_fixed_point(&mut out, self.0, S);
        out
    }

    /// The debugging text `UDecimal64<S>(raw)`.
    pub fn to_debug_string(self) -> (s: String)
        ensures
            s@ == "UDecimal64<"@ + ascii_chars(nat_digits(S as nat)) + ">("@ + ascii_chars(
                nat_digits(self@),
            ) + ")"@,
    {
        let mut out = String::new();
        out.append("UDecimal64<");
        push_digits(&mut out, S as u64);
        out.append(">(");
        push_digits(&mut out, self.0);
        out.append(")");
        out
    }

    /// The view is a `u64` value.
    pub proof fn lemma_view_fits(self)
        ensures
            fits_u64(self@ as int),
    {
    }

    /// Law: every value reads back from its decimal text.
    pub proof fn lemma_text_reads_back(self)
        ensures
            unsigned_decimal_value(encode_utf8(ascii_chars(fixed_point_text(self@, S as nat))), S as nat)
                == Ok::<nat, ParseError>(self@),
    {
        lemma_texts_ascii(self@ as int, S as nat);
        assert(signed_fixed_point_text(self@ as int, S as nat) =~= fixed_point_text(self@, S as nat));
        lemma_ascii_utf8(fixed_point_text(self@, S as nat));
        lemma_unsigned_text_reads_back(self@, S as nat);
    }

    /// Converts to `Decimal64<S>`; `None` when the raw value exceeds `i64::MAX`.
    pub fn as_signed(self) -> (r: Option<Decimal64<S>>)
        ensures
            Decimal64::<S>::view_opt(r) == checked_i64(self@ as int),
    {
        if self.0 > i64::MAX as u64 {
            None
        } else {
            Some(Decimal64::from_raw(self.0 as i64))
        }
    }

    /// Returns `None` on overflow.
    pub fn checked_add(self, rhs: Self) -> (r: Option<Self>)
        ensures
            Self::view_opt(r) == checked_u64(self@ as int + rhs@),
    {
        match self.0.checked_add(rhs.0) {
            Some(v) => Some(Self(v)),
            None => None,
        }
    }

    /// Returns `None` when `rhs` is larger (the same as the `-` operator).
    pub fn checked_sub(self, rhs: Self) -> (r: Option<Self>)
        ensures
            Self::view_opt(r) == checked_u64(self@ - rhs@),
    {
        match self.0.checked_sub(rhs.0) {
            Some(v) => Some(Self(v)),
            None => None,
        }
    }

    /// `a * b / 10^S` truncated; `None` when it does not fit.
    pub fn checked_mul(self, rhs: Self) -> (r: Option<Self>)
        requires
            S <= 18,
        ensures
            Self::view_opt(r) == checked_u64(scaled_product(self@ as int, rhs@ as int, S as nat)),
    {
        proof {
            lemma_pow10_small(S as nat);
            assert(self.0 as u128 * rhs.0 as u128 <= 0xffff_ffff_ffff_ffff * 0xffff_ffff_ffff_ffff)
                by (nonlinear_arith);
        }
        let product = self.0 as u128 * rhs.0 as u128;
        let scale = const_pow10_u64(S) as u128;
        let result = div_round_u128(product, scale, Round::TruncateTowardZero);
        if result <= u64::MAX as u128 {
            Some(Self(result as u64))
        } else {
            None
        }
    }

    /// `a * 10^S / b` truncated; `None` on division by zero or overflow.
    pub fn checked_div(self, rhs: Self) -> (r: Option<Self>)
        requires
            S <= 18,
        ensures
            Self::view_opt(r) == if rhs@ == 0 {
                None
            } else {
                checked_u64(scaled_quotient(self@ as int, rhs@ as int, S as nat, Round::TruncateTowardZero))
            },
    {
        self.checked_div_round(rhs, Round::TruncateTowardZero)
    }

    /// Clamps to the largest value on overflow.
    pub fn saturating_add(self, rhs: Self) -> (r: Self)
        ensures
            r@ == clamp_u64(self@ as int + rhs@),
    {
        Self(self.0.saturating_add(rhs.0))
    }

    /// Clamps to zero when `rhs` is larger.
    pub fn saturating_sub(self, rhs: Self) -> (r: Self)
        ensures
            r@ == clamp_u64(self@ - rhs@),
    {
        Self(self.0.saturating_sub(rhs.0))
    }

    /// Same-scale product clamped to the largest value on overflow.
    pub fn saturating_mul(self, rhs: Self) -> (r: Self)
        requires
            S <= 18,
        ensures
            r@ == clamp_u64(scaled_product(self@ as int, rhs@ as int, S as nat)),
    {
        proof {
            lemma_pow10_small(S as nat);
            crate::math::lemma_magnitude_div(self@ as int * rhs@, pow10(S as nat) as int);
        }
        match self.checked_mul(rhs) {
            Some(d) => d,
            None => Self(u64::MAX),
        }
    }

    /// Divide using nearest-even (banker's) rounding.
    pub fn div_round_nearest_even(self, rhs: Self) -> (r: Self)
        requires
            S <= 18,
            rhs@ != 0,
            fits_u64(scaled_quotient(self@ as int, rhs@ as int, S as nat, Round::NearestEven)),
        ensures
            r@ == scaled_quotient(self@ as int, rhs@ as int, S as nat, Round::NearestEven),
    {
        self.div_round(rhs, Round::NearestEven)
    }

    /// Divide using nearest, ties away from zero.
    pub fn div_round_nearest(self, rhs: Self) -> (r: Self)
        requires
            S <= 18,
            rhs@ != 0,
            fits_u64(scaled_quotient(self@ as int, rhs@ as int, S as nat, Round::Nearest)),
        ensures
            r@ == scaled_quotient(self@ as int, rhs@ as int, S as nat, Round::Nearest),
    {
        self.div_round(rhs, Round::Nearest)
    }

    /// Divide by truncating toward zero.
    pub fn div_round_zero(self, rhs: Self) -> (r: Self)
        requires
            S <= 18,
            rhs@ != 0,
            fits_u64(scaled_quotient(self@ as int, rhs@ as int, S as nat, Round::TruncateTowardZero)),
        ensures
            r@ == scaled_quotient(self@ as int, rhs@ as int, S as nat, Round::TruncateTowardZero),
    {
        self.div_round(rhs, Round::TruncateTowardZero)
    }

    /// Divide by rounding toward positive infinity.
    pub fn div_round_ceil(self, rhs: Self) -> (r: Self)
        requires
            S <= 18,
            rhs@ != 0,
            fits_u64(scaled_quotient(self@ as int, rhs@ as int, S as nat, Round::TowardPosInf)),
        ensures
            r@ == scaled_quotient(self@ as int, rhs@ as int, S as nat, Round::TowardPosInf),
    {
        self.div_round(rhs, Round::TowardPosInf)
    }

    /// Divide by rounding toward negative infinity (the same as truncating here).
    pub fn div_round_floor(self, rhs: Self) -> (r: Self)
        requires
            S <= 18,
            rhs@ != 0,
            fits_u64(scaled_quotient(self@ as int, rhs@ as int, S as nat, Round::TowardNegInf)),
        ensures
            r@ == scaled_quotient(self@ as int, rhs@ as int, S as nat, Round::TowardNegInf),
    {
        self.div_round(rhs, Round::TowardNegInf)
    }

    /// Divide using nearest-even rounding; `None` on division by zero or overflow.
    pub fn checked_div_round_nearest_even(self, rhs: Self) -> (r: Option<Self>)
        requires
            S <= 18,
        ensures
            Self::view_opt(r) == if rhs@ == 0 {
                None
            } else {
                checked_u64(scaled_quotient(self@ as int, rhs@ as int, S as nat, Round::NearestEven))
            },
    {
        self.checked_div_round(rhs, Round::NearestEven)
    }

    /// Divide using nearest, ties away from zero; `None` on division by zero or overflow.
    pub fn checked_div_round_nearest(self, rhs: Self) -> (r: Option<Self>)
        requires
            S <= 18,
        ensures
            Self::view_opt(r) == if rhs@ == 0 {
                None
            } else {
                checked_u64(scaled_quotient(self@ as int, rhs@ as int, S as nat, Round::Nearest))
            },
    {
        self.checked_div_round(rhs, Round::Nearest)
    }

    /// Divide truncating toward zero; `None` on division by zero or overflow.
    pub fn checked_div_round_zero(self, rhs: Self) -> (r: Option<Self>)
        requires
            S <= 18,
        ensures
            Self::view_opt(r) == if rhs@ == 0 {
                None
            } else {
                checked_u64(scaled_quotient(self@ as int, rhs@ as int, S as nat, Round::TruncateTowardZero))
            },
    {
        self.checked_div_round(rhs, Round::TruncateTowardZero)
    }

    /// Divide rounding toward positive infinity; `None` on division by zero or overflow.
    pub fn checked_div_round_ceil(self, rhs: Self) -> (r: Option<Self>)
        requires
            S <= 18,
        ensures
            Self::view_opt(r) == if rhs@ == 0 {
                None
            } else {
                checked_u64(scaled_quotient(self@ as int, rhs@ as int, S as nat, Round::TowardPosInf))
            },
    {
        self.checked_div_round(rhs, Round::TowardPosInf)
    }

    /// Divide rounding toward negative infinity; `None` on division by zero or overflow.
    pub fn checked_div_round_floor(self, rhs: Self) -> (r: Option<Self>)
        requires
            S <= 18,
        ensures
            Self::view_opt(r) == if rhs@ == 0 {
                None
            } else {
                checked_u64(scaled_quotient(self@ as int, rhs@ as int, S as nat, Round::TowardNegInf))
            },
    {
        self.checked_div_round(rhs, Round::TowardNegInf)
    }

    /// Divides, rounding as `mode` says; the divisor must be nonzero and the quotient
    /// must fit.
    pub fn div_round(self, rhs: Self, mode: Round) -> (r: Self)
        requires
            S <= 18,
            rhs@ != 0,
            fits_u64(scaled_quotient(self@ as int, rhs@ as int, S as nat, mode)),
        ensures
            r@ == scaled_quotient(self@ as int, rhs@ as int, S as nat, mode),
    {
        match self.checked_div_round(rhs, mode) {
            Some(d) => d,
            None => {
                proof {
                    assert(false);
                }
                Self(0)
            },
        }
    }

    /// Divides, rounding as `mode` says; `None` on division by zero or overflow.
    pub fn checked_div_round(self, rhs: Self, mode: Round) -> (r: Option<Self>)
        requires
            S <= 18,
        ensures
            Self::view_opt(r) == if rhs@ == 0 {
                None
            } else {
                checked_u64(scaled_quotient(self@ as int, rhs@ as int, S as nat, mode))
            },
    {
        if rhs.0 == 0 {
            return None;
        }
        proof {
            lemma_pow10_small(S as nat);
            assert(self.0 as u128 * pow10(S as nat) <= 0xffff_ffff_ffff_ffff * 1_000_000_000_000_000_000)
                by (nonlinear_arith)
                requires
                    pow10(S as nat) <= 1_000_000_000_000_000_000,
            ;
        }
        let num = self.0 as u128 * const_pow10_u64(S) as u128;
        let result = div_round_u128(num, rhs.0 as u128, mode);
        if result <= u64::MAX as u128 {
            Some(Self(result as u64))
        } else {
            None
        }
    }

    /// Lossless rescale to scale `OUT`; `None` if nonzero fractional digits would be
    /// lost or on overflow.
    pub fn rescale_into<const OUT: u32>(self) -> (r: Option<UDecimal64<OUT>>)
        requires
            S <= 18,
            OUT <= 18,
        ensures
            UDecimal64::<OUT>::view_opt(r) == match rescaled_exact(self@ as int, S as nat, OUT as nat) {
                Some(v) => checked_u64(v),
                None => None,
            },
    {
        if OUT > S {
            let factor = const_pow10_u64(OUT - S);
            match self.0.checked_mul(factor) {
                Some(v) => Some(UDecimal64::from_raw(v)),
                None => None,
            }
        } else if OUT < S {
            proof {
                lemma_pow10_small((S - OUT) as nat);
            }
            let factor = const_pow10_u64(S - OUT);
            if self.0 % factor != 0 {
                None
            } else {
                proof {
                    vstd::arithmetic::div_mod::lemma_div_nonincreasing(self@ as int, factor as int);
                }
                Some(UDecimal64::from_raw(self.0 / factor))
            }
        } else {
            assert(self@ * pow10(0) == self@ * 1);
            Some(UDecimal64::from_raw(self.0))
        }
    }

    /// Rescale using nearest-even (banker's) rounding; `None` only on overflow.
    pub fn rescale_round_into_nearest_even<const OUT: u32>(self) -> (r: Option<UDecimal64<OUT>>)
        requires
            S <= 18,
            OUT <= 18,
        ensures
            UDecimal64::<OUT>::view_opt(r) == checked_u64(
                rescaled(self@ as int, S as nat, OUT as nat, Round::NearestEven),
            ),
    {
        self.rescale_round_into::<OUT>(Round::NearestEven)
    }

    /// Rescale using nearest, ties away from zero; `None` only on overflow.
    pub fn rescale_round_into_nearest<const OUT: u32>(self) -> (r: Option<UDecimal64<OUT>>)
        requires
            S <= 18,
            OUT <= 18,
        ensures
            UDecimal64::<OUT>::view_opt(r) == checked_u64(
                rescaled(self@ as int, S as nat, OUT as nat, Round::Nearest),
            ),
    {
        self.rescale_round_into::<OUT>(Round::Nearest)
    }

    /// Rescale by truncating toward zero; `None` only on overflow.
    pub fn rescale_round_into_zero<const OUT: u32>(self) -> (r: Option<UDecimal64<OUT>>)
        requires
            S <= 18,
            OUT <= 18,
        ensures
            UDecimal64::<OUT>::view_opt(r) == checked_u64(
                rescaled(self@ as int, S as nat, OUT as nat, Round::TruncateTowardZero),
            ),
    {
        self.rescale_round_into::<OUT>(Round::TruncateTowardZero)
    }

    /// Rescale by rounding toward positive infinity; `None` only on overflow.
    pub fn rescale_round_into_ceil<const OUT: u32>(self) -> (r: Option<UDecimal64<OUT>>)
        requires
            S <= 18,
            OUT <= 18,
        ensures
            UDecimal64::<OUT>::view_opt(r) == checked_u64(
                rescaled(self@ as int, S as nat, OUT as nat, Round::TowardPosInf),
            ),
    {
        self.rescale_round_into::<OUT>(Round::TowardPosInf)
    }

    /// Rescale by rounding toward negative infinity; `None` only on overflow.
    pub fn rescale_round_into_floor<const OUT: u32>(self) -> (r: Option<UDecimal64<OUT>>)
        requires
            S <= 18,
            OUT <= 18,
        ensures
            UDecimal64::<OUT>::view_opt(r) == checked_u64(
                rescaled(self@ as int, S as nat, OUT as nat, Round::TowardNegInf),
            ),
    {
        self.rescale_round_into::<OUT>(Round::TowardNegInf)
    }

    /// Rescales to scale `OUT`, rounding as `mode` says when digits are dropped;
    /// `None` only on overflow.
    pub fn rescale_round_into<const OUT: u32>(self, mode: Round) -> (r: Option<UDecimal64<OUT>>)
        requires
            S <= 18,
            OUT <= 18,
        ensures
            UDecimal64::<OUT>::view_opt(r) == checked_u64(rescaled(self@ as int, S as nat, OUT as nat, mode)),
    {
        if OUT > S {
            let factor = const_pow10_u64(OUT - S);
            match self.0.checked_mul(factor) {
                Some(v) => Some(UDecimal64::from_raw(v)),
                None => None,
            }
        } else if OUT < S {
            proof {
                lemma_pow10_small((S - OUT) as nat);
            }
            let factor = const_pow10_u64(S - OUT) as u128;
            let result = div_round_u128(self.0 as u128, factor, mode);
            if result <= u64::MAX as u128 {
                Some(UDecimal64::from_raw(result as u64))
            } else {
                None
            }
        } else {
            assert(self@ * pow10(0) == self@ * 1);
            Some(UDecimal64::from_raw(self.0))
        }
    }
}

/// Extension on `Decimal64<S>` to convert to the unsigned counterpart.
impl<const S: u32> Decimal64<S> {
    /// Converts to `UDecimal64<S>`; `None` for negative values.
    pub fn as_unsigned(self) -> (r: Option<UDecimal64<S>>)
        ensures
            UDecimal64::<S>::view_opt(r) == checked_u64(self@),
    {
        let raw = self.raw();
        if raw < 0 {
            None
        } else {
            Some(UDecimal64::from_raw(raw as u64))
        }
    }
}

impl<const S: u32> core::str::FromStr for UDecimal64<S> {
    type Err = ParseError;

    fn from_str(s: &str) -> (r: Result<Self, ParseError>)
        ensures
            match r {
                Ok(d) => unsigned_decimal_value(s.spec_bytes(), S as nat) == Ok::<nat, ParseError>(d@),
                Err(e) => unsigned_decimal_value(s.spec_bytes(), S as nat) == Err::<nat, ParseError>(e),
            },
    {
        crate::parse_unsigned::parse::<S>(s)
    }
}

// ── Arithmetic operators ─────────────────────────────────────────────────────

impl<const S: u32> Add for UDecimal64<S> {
    type Output = Self;

    /// Same-scale addition; the sum must fit.
    fn add(self, rhs: Self) -> (r: Self)
        ensures
            r@ == self@ + rhs@,
    {
        Self(self.0 + rhs.0)
    }
}

impl<const S: u32> vstd::std_specs::ops::AddSpecImpl for UDecimal64<S> {
    open spec fn obeys_add_spec() -> bool {
        true
    }

    open spec fn add_req(self, rhs: Self) -> bool {
        fits_u64(self@ as int + rhs@)
    }

    closed spec fn add_spec(self, rhs: Self) -> Self {
        UDecimal64((self.0 + rhs.0) as u64)
    }
}

/// Subtraction returns `None` instead of underflowing.
impl<const S: u32> Sub for UDecimal64<S> {
    type Output = Option<Self>;

    fn sub(self, rhs: Self) -> (r: Option<Self>)
        ensures
            Self::view_opt(r) == checked_u64(self@ - rhs@),
    {
        self.checked_sub(rhs)
    }
}

impl<const S: u32> vstd::std_specs::ops::SubSpecImpl for UDecimal64<S> {
    open spec fn obeys_sub_spec() -> bool {
        true
    }

    open spec fn sub_req(self, rhs: Self) -> bool {
        true
    }

    closed spec fn sub_spec(self, rhs: Self) -> Option<Self> {
        if self.0 >= rhs.0 {
            Some(UDecimal64((self.0 - rhs.0) as u64))
        } else {
            None
        }
    }
}

impl<const S: u32> Mul for UDecimal64<S> {
    type Output = Self;

    /// Same-scale multiplication truncated; the product must fit.
    fn mul(self, rhs: Self) -> (r: Self)
        ensures
            r@ == scaled_product(self@ as int, rhs@ as int, S as nat),
    {
        match self.checked_mul(rhs) {
            Some(d) => d,
            None => {
                proof {
                    assert(false);
                }
                Self(0)
            },
        }
    }
}

impl<const S: u32> vstd::std_specs::ops::MulSpecImpl for UDecimal64<S> {
    open spec fn obeys_mul_spec() -> bool {
        true
    }

    open spec fn mul_req(self, rhs: Self) -> bool {
        S <= 18 && fits_u64(scaled_product(self@ as int, rhs@ as int, S as nat))
    }

    closed spec fn mul_spec(self, rhs: Self) -> Self {
        UDecimal64(scaled_product(self.0 as int, rhs.0 as int, S as nat) as u64)
    }
}

impl<const S: u32> Div for UDecimal64<S> {
    type Output = Self;

    /// Same-scale division truncated; the divisor must be nonzero and the quotient
    /// must fit.
    fn div(self, rhs: Self) -> (r: Self)
        ensures
            r@ == scaled_quotient(self@ as int, rhs@ as int, S as nat, Round::TruncateTowardZero),
    {
        match self.checked_div(rhs) {
            Some(d) => d,
            None => {
                proof {
                    assert(false);
                }
                Self(0)
            },
        }
    }
}

impl<const S: u32> vstd::std_specs::ops::DivSpecImpl for UDecimal64<S> {
    open spec fn obeys_div_spec() -> bool {
        true
    }

    open spec fn div_req(self, rhs: Self) -> bool {
        S <= 18 && rhs@ != 0 && fits_u64(
            scaled_quotient(self@ as int, rhs@ as int, S as nat, Round::TruncateTowardZero),
        )
    }

    closed spec fn div_spec(self, rhs: Self) -> Self {
        UDecimal64(
            scaled_quotient(self.0 as int, rhs.0 as int, S as nat, Round::TruncateTowardZero) as u64,
        )
    }
}

} // verus!
