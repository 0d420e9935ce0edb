use decimal64::{Decimal64, ParseError, UDecimal64};

// ── Constants ────────────────────────────────────────────────────────────────

#[test]
fn udecimal64_one_raw_equals_pow10() {
    assert_eq!(UDecimal64::<4>::one().raw(), 10_000);
}

#[test]
fn max_raw_is_u64_max() {
    assert_eq!(UDecimal64::<4>::max_value().raw(), u64::MAX);
}

#[test]
fn zero_raw_is_zero() {
    assert_eq!(UDecimal64::<4>::zero().raw(), 0);
}

// ── Parse ────────────────────────────────────────────────────────────────────

#[test]
fn parse_zero() {
    let d: UDecimal64<4> = "0".parse().unwrap();
    assert_eq!(d, UDecimal64::zero());
}

#[test]
fn parse_basic_fractional() {
    let d: UDecimal64<4> = "1.2345".parse().unwrap();
    assert_eq!(d.raw(), 12345);
}

#[test]
fn parse_truncation() {
    let d: UDecimal64<4> = "1.23456".parse().unwrap();
    assert_eq!(d.raw(), 12345);
}

#[test]
fn parse_plus_sign_rejected() {
    let r: Result<UDecimal64<2>, _> = "+1.00".parse();
    assert_eq!(r, Err(ParseError::InvalidChar { byte: b'+', pos: 0 }));
}

#[test]
fn parse_minus_sign_rejected() {
    let r: Result<UDecimal64<2>, _> = "-1.00".parse();
    assert_eq!(r, Err(ParseError::InvalidChar { byte: b'-', pos: 0 }));
}

#[test]
fn parse_minus_zero_rejected() {
    let r: Result<UDecimal64<2>, _> = "-0".parse();
    assert_eq!(r, Err(ParseError::InvalidChar { byte: b'-', pos: 0 }));
}

#[test]
fn parse_empty() {
    let r: Result<UDecimal64<2>, _> = "".parse();
    assert_eq!(r, Err(ParseError::Empty));
}

#[test]
fn parse_overflow() {
    let r: Result<UDecimal64<2>, _> = "99999999999999999999".parse();
    assert_eq!(r, Err(ParseError::Overflow));
}

#[test]
fn parse_dot_only_is_empty() {
    let r: Result<UDecimal64<2>, _> = ".".parse();
    assert_eq!(r, Err(ParseError::Empty));
}

#[test]
fn parse_leading_dot() {
    let d: UDecimal64<4> = ".5".parse().unwrap();
    assert_eq!(d.raw(), 5000);
}

#[test]
fn parse_trailing_dot() {
    let d: UDecimal64<4> = "5.".parse().unwrap();
    assert_eq!(d.raw(), 50000);
}

#[test]
fn parse_scientific_notation_rejected() {
    let r: Result<UDecimal64<2>, _> = "1e5".parse();
    assert!(matches!(r, Err(ParseError::InvalidChar { .. })));
}

#[test]
fn parse_round_trip() {
    let mut seed: u64 = 0xdeadbeef_cafebabe;
    let mut count = 0;
    while count < 10_000 {
        seed = seed
            .wrapping_mul(6364136223846793005)
            .wrapping_add(1442695040888963407);
        let d = UDecimal64::<4>::from_raw(seed);
        let s = d.to_string();
        let parsed: UDecimal64<4> = s
            .parse()
            .unwrap_or_else(|e| panic!("round-trip parse failed: raw={seed}, s={s:?}, err={e:?}"));
        assert_eq!(parsed, d, "round-trip mismatch: raw={seed}, s={s:?}");
        count += 1;
    }
}

// ── Display ──────────────────────────────────────────────────────────────────

#[test]
fn udecimal64_display_basic() {
    assert_eq!(UDecimal64::<2>::from_raw(123).to_string(), "1.23");
}

#[test]
fn udecimal64_display_zero_scale() {
    assert_eq!(UDecimal64::<0>::from_raw(42).to_string(), "42");
}

#[test]
fn udecimal64_display_zero() {
    assert_eq!(UDecimal64::<2>::from_raw(0).to_string(), "0.00");
}

#[test]
fn udecimal64_display_fractional_padding() {
    assert_eq!(UDecimal64::<4>::from_raw(1234567).to_string(), "123.4567");
}

#[test]
fn debug_format() {
    assert_eq!(
        UDecimal64::<4>::from_raw(12345).to_debug_string(),
        "UDecimal64<4>(12345)"
    );
}

// ── Interop ──────────────────────────────────────────────────────────────────

#[test]
fn as_signed_small_succeeds() {
    let u = UDecimal64::<4>::from_raw(10_000);
    assert_eq!(u.as_signed(), Some(Decimal64::<4>::from_raw(10_000)));
}

#[test]
fn as_signed_i64_max_succeeds() {
    let u = UDecimal64::<4>::from_raw(i64::MAX as u64);
    assert_eq!(u.as_signed(), Some(Decimal64::<4>::from_raw(i64::MAX)));
}

#[test]
fn as_signed_above_i64_max_returns_none() {
    let u = UDecimal64::<4>::from_raw(i64::MAX as u64 + 1);
    assert_eq!(u.as_signed(), None);
}

#[test]
fn as_unsigned_nonneg_succeeds() {
    let d = Decimal64::<4>::from_raw(12345);
    assert_eq!(d.as_unsigned(), Some(UDecimal64::<4>::from_raw(12345)));
}

#[test]
fn as_unsigned_negative_returns_none() {
    let d = Decimal64::<4>::from_raw(-1);
    assert_eq!(d.as_unsigned(), None);
}

#[test]
fn as_unsigned_zero_succeeds() {
    let d = Decimal64::<4>::from_raw(0);
    assert_eq!(d.as_unsigned(), Some(UDecimal64::<4>::zero()));
}

// ── Addition ─────────────────────────────────────────────────────────────────

#[test]
fn udecimal64_add_basic() {
    assert_eq!(
        UDecimal64::<2>::from_raw(100) + UDecimal64::<2>::from_raw(50),
        UDecimal64::<2>::from_raw(150)
    );
}

#[test]
fn udecimal64_checked_add_overflow_returns_none() {
    assert_eq!(
        UDecimal64::<2>::max_value().checked_add(UDecimal64::<2>::from_raw(1)),
        None
    );
}

#[test]
fn udecimal64_saturating_add_clamps_to_max() {
    assert_eq!(
        UDecimal64::<2>::max_value().saturating_add(UDecimal64::<2>::from_raw(1)),
        UDecimal64::<2>::max_value()
    );
}

// ── Subtraction ──────────────────────────────────────────────────────────────

#[test]
fn sub_exact() {
    assert_eq!(
        UDecimal64::<2>::from_raw(150) - UDecimal64::<2>::from_raw(50),
        Some(UDecimal64::<2>::from_raw(100))
    );
}

#[test]
fn sub_underflow_returns_none() {
    assert_eq!(UDecimal64::<2>::from_raw(50) - UDecimal64::<2>::from_raw(100), None);
}

#[test]
fn saturating_sub_underflow_clamps_to_zero() {
    assert_eq!(
        UDecimal64::<2>::zero().saturating_sub(UDecimal64::<2>::one()),
        UDecimal64::<2>::zero()
    );
}

#[test]
fn checked_sub_underflow_returns_none() {
    assert_eq!(
        UDecimal64::<4>::from_raw(5).checked_sub(UDecimal64::<4>::from_raw(10)),
        None
    );
}

// ── Multiplication ───────────────────────────────────────────────────────────

#[test]
fn udecimal64_mul_same_scale() {
    assert_eq!(
        UDecimal64::<4>::from_raw(10_000) * UDecimal64::<4>::from_raw(20_000),
        UDecimal64::<4>::from_raw(20_000)
    );
}

#[test]
fn checked_mul_overflow_returns_none() {
    assert_eq!(
        UDecimal64::<4>::max_value().checked_mul(UDecimal64::<4>::from_raw(20_000)),
        None
    );
}

#[test]
fn saturating_mul_clamps_to_max() {
    assert_eq!(
        UDecimal64::<4>::max_value().saturating_mul(UDecimal64::<4>::from_raw(20_000)),
        UDecimal64::<4>::max_value()
    );
}

// ── Division ─────────────────────────────────────────────────────────────────

#[test]
fn udecimal64_div_same_scale() {
    assert_eq!(
        UDecimal64::<4>::from_raw(30_000) / UDecimal64::<4>::from_raw(20_000),
        UDecimal64::<4>::from_raw(15_000)
    );
}

#[test]
fn udecimal64_div_truncates_toward_zero() {
    assert_eq!(
        UDecimal64::<2>::from_raw(100) / UDecimal64::<2>::from_raw(300),
        UDecimal64::<2>::from_raw(33)
    );
}

#[test]
fn div_truncation_scale2() {
    assert_eq!(
        UDecimal64::<2>::from_raw(10) / UDecimal64::<2>::from_raw(3),
        UDecimal64::<2>::from_raw(333)
    );
}

#[test]
fn udecimal64_checked_div_by_zero_returns_none() {
    assert_eq!(
        UDecimal64::<2>::from_raw(100).checked_div(UDecimal64::<2>::from_raw(0)),
        None
    );
}

#[test]
fn udecimal64_div_round_toward_pos_inf() {
    let result = UDecimal64::<2>::from_raw(100).div_round_ceil(UDecimal64::<2>::from_raw(300));
    assert_eq!(result, UDecimal64::<2>::from_raw(34));
}

#[test]
fn udecimal64_div_round_toward_neg_inf() {
    let result = UDecimal64::<2>::from_raw(100).div_round_floor(UDecimal64::<2>::from_raw(300));
    assert_eq!(result, UDecimal64::<2>::from_raw(33));
}

#[test]
fn udecimal64_div_round_nearest() {
    let result = UDecimal64::<2>::from_raw(100).div_round_nearest(UDecimal64::<2>::from_raw(300));
    assert_eq!(result, UDecimal64::<2>::from_raw(33));
}

#[test]
fn div_round_nearest_half_up() {
    let result = UDecimal64::<2>::from_raw(100).div_round_nearest(UDecimal64::<2>::from_raw(200));
    assert_eq!(result, UDecimal64::<2>::from_raw(50));
}

#[test]
fn udecimal64_div_round_nearest_even_tie() {
    let result =
        UDecimal64::<2>::from_raw(300).div_round_nearest_even(UDecimal64::<2>::from_raw(200));
    assert_eq!(result, UDecimal64::<2>::from_raw(150));
}

#[test]
fn checked_div_round_by_zero_returns_none() {
    assert_eq!(
        UDecimal64::<2>::from_raw(100).checked_div_round_nearest(UDecimal64::<2>::from_raw(0)),
        None
    );
}

// ── Rescaling ────────────────────────────────────────────────────────────────

#[test]
fn udecimal64_rescale_into_upscale() {
    let result: Option<UDecimal64<6>> = UDecimal64::<2>::from_raw(123).rescale_into();
    assert_eq!(result, Some(UDecimal64::<6>::from_raw(1_230_000)));
}

#[test]
fn udecimal64_rescale_into_downscale_exact() {
    let result: Option<UDecimal64<1>> = UDecimal64::<2>::from_raw(120).rescale_into();
    assert_eq!(result, Some(UDecimal64::<1>::from_raw(12)));
}

#[test]
fn udecimal64_rescale_into_downscale_lossy_returns_none() {
    let result: Option<UDecimal64<1>> = UDecimal64::<2>::from_raw(123).rescale_into();
    assert_eq!(result, None);
}

#[test]
fn udecimal64_rescale_same_scale_is_identity() {
    let d = UDecimal64::<4>::from_raw(12345);
    let result: Option<UDecimal64<4>> = d.rescale_into();
    assert_eq!(result, Some(d));
}

#[test]
fn udecimal64_rescale_round_into_downscale_rounds_up() {
    let result: Option<UDecimal64<1>> =
        UDecimal64::<2>::from_raw(125).rescale_round_into_nearest::<1>();
    assert_eq!(result, Some(UDecimal64::<1>::from_raw(13)));
}

#[test]
fn rescale_round_into_downscale_truncates() {
    let result: Option<UDecimal64<1>> =
        UDecimal64::<2>::from_raw(123).rescale_round_into_zero::<1>();
    assert_eq!(result, Some(UDecimal64::<1>::from_raw(12)));
}

// ── Ordering ─────────────────────────────────────────────────────────────────

#[test]
fn ordering_is_numeric() {
    assert!(UDecimal64::<4>::from_raw(100) < UDecimal64::<4>::from_raw(200));
    assert!(UDecimal64::<4>::from_raw(0) < UDecimal64::<4>::from_raw(1));
    assert_eq!(UDecimal64::<4>::from_raw(50), UDecimal64::<4>::from_raw(50));
}
