use decimal64::Decimal64;

#[test]
fn decimal64_one_raw_equals_pow10() {
    assert_eq!(Decimal64::<4>::one().raw(), 10_000);
}

#[test]
fn decimal64_display_basic() {
    assert_eq!(Decimal64::<2>::from_raw(123).to_string(), "1.23");
}

#[test]
fn decimal64_display_zero_scale() {
    assert_eq!(Decimal64::<0>::from_raw(42).to_string(), "42");
}

#[test]
fn max_raw() {
    assert_eq!(Decimal64::<4>::max_value().raw(), i64::MAX);
}

#[test]
fn negative_less_than_zero() {
    assert!(Decimal64::<2>::from_raw(-100) < Decimal64::<2>::from_raw(0));
}

#[test]
fn decimal64_display_zero() {
    assert_eq!(Decimal64::<2>::from_raw(0).to_string(), "0.00");
}

#[test]
fn decimal64_display_negative() {
    assert_eq!(Decimal64::<2>::from_raw(-100).to_string(), "-1.00");
}

#[test]
fn decimal64_display_fractional_padding() {
    assert_eq!(Decimal64::<4>::from_raw(1234567).to_string(), "123.4567");
}

#[test]
fn decimal64_add_basic() {
    assert_eq!(
        Decimal64::<2>::from_raw(100) + Decimal64::<2>::from_raw(50),
        Decimal64::<2>::from_raw(150)
    );
}

#[test]
fn sub_basic() {
    assert_eq!(
        Decimal64::<2>::from_raw(100) - Decimal64::<2>::from_raw(150),
        Decimal64::<2>::from_raw(-50)
    );
}

#[test]
fn neg_basic() {
    assert_eq!(-Decimal64::<2>::from_raw(100), Decimal64::<2>::from_raw(-100));
}

#[test]
fn decimal64_checked_add_overflow_returns_none() {
    assert_eq!(
        Decimal64::<2>::max_value().checked_add(Decimal64::<2>::from_raw(1)),
        None
    );
}

#[test]
fn decimal64_saturating_add_clamps_to_max() {
    assert_eq!(
        Decimal64::<2>::max_value().saturating_add(Decimal64::<2>::from_raw(1)),
        Decimal64::<2>::max_value()
    );
}

#[test]
fn saturating_sub_clamps_to_min() {
    assert_eq!(
        Decimal64::<2>::min_value().saturating_sub(Decimal64::<2>::from_raw(1)),
        Decimal64::<2>::min_value()
    );
}

#[test]
fn decimal64_mul_same_scale() {
    // 1.0000 × 2.0000 = 2.0000
    assert_eq!(
        Decimal64::<4>::from_raw(10_000) * Decimal64::<4>::from_raw(20_000),
        Decimal64::<4>::from_raw(20_000)
    );
}

#[test]
fn mul_checked_overflow_returns_none() {
    assert_eq!(
        Decimal64::<4>::max_value().checked_mul(Decimal64::<4>::from_raw(20_000)),
        None
    );
}

#[test]
fn saturating_mul_clamps() {
    assert_eq!(
        Decimal64::<4>::max_value().saturating_mul(Decimal64::<4>::from_raw(20_000)),
        Decimal64::<4>::max_value()
    );
}

#[test]
fn decimal64_div_same_scale() {
    // 3.0000 / 2.0000 = 1.5000
    assert_eq!(
        Decimal64::<4>::from_raw(30_000) / Decimal64::<4>::from_raw(20_000),
        Decimal64::<4>::from_raw(15_000)
    );
}

#[test]
fn decimal64_div_truncates_toward_zero() {
    // 0.10 / 0.03 = 3.333…
    assert_eq!(
        Decimal64::<2>::from_raw(10) / Decimal64::<2>::from_raw(3),
        Decimal64::<2>::from_raw(333)
    );
}

#[test]
fn div_truncates_negative_toward_zero() {
    // -0.10 / 0.03 = -3.333…
    assert_eq!(
        Decimal64::<2>::from_raw(-10) / Decimal64::<2>::from_raw(3),
        Decimal64::<2>::from_raw(-333)
    );
}

#[test]
fn decimal64_checked_div_by_zero_returns_none() {
    assert_eq!(
        Decimal64::<2>::from_raw(100).checked_div(Decimal64::<2>::from_raw(0)),
        None
    );
}

#[test]
fn decimal64_div_round_nearest() {
    // 1.0 / 3.0 at scale 2: 33.33… → 33
    let result = Decimal64::<2>::from_raw(100).div_round_nearest(Decimal64::<2>::from_raw(300));
    assert_eq!(result, Decimal64::<2>::from_raw(33));
}

#[test]
fn decimal64_div_round_toward_pos_inf() {
    // 1.0 / 3.0 at scale 2: 33.33… → ceil = 34
    let result = Decimal64::<2>::from_raw(100).div_round_ceil(Decimal64::<2>::from_raw(300));
    assert_eq!(result, Decimal64::<2>::from_raw(34));
}

#[test]
fn decimal64_div_round_toward_neg_inf() {
    // -1.0 / 3.0 at scale 2: -33.33… → floor = -34
    let result = Decimal64::<2>::from_raw(-100).div_round_floor(Decimal64::<2>::from_raw(300));
    assert_eq!(result, Decimal64::<2>::from_raw(-34));
}

#[test]
fn decimal64_div_round_nearest_even_tie() {
    // 0.05 / 0.10 at scale 2: exactly 50, no rounding
    let result = Decimal64::<2>::from_raw(5).div_round_nearest_even(Decimal64::<2>::from_raw(10));
    assert_eq!(result, Decimal64::<2>::from_raw(50));
}

#[test]
fn decimal64_rescale_into_upscale() {
    let result: Option<Decimal64<6>> = Decimal64::<2>::from_raw(123).rescale_into();
    assert_eq!(result, Some(Decimal64::<6>::from_raw(1_230_000)));
}

#[test]
fn decimal64_rescale_into_downscale_lossy_returns_none() {
    let result: Option<Decimal64<1>> = Decimal64::<2>::from_raw(123).rescale_into();
    assert_eq!(result, None);
}

#[test]
fn decimal64_rescale_into_downscale_exact() {
    let result: Option<Decimal64<1>> = Decimal64::<2>::from_raw(120).rescale_into();
    assert_eq!(result, Some(Decimal64::<1>::from_raw(12)));
}

#[test]
fn rescale_round_into_downscale() {
    let result: Option<Decimal64<1>> =
        Decimal64::<2>::from_raw(123).rescale_round_into_nearest::<1>();
    assert_eq!(result, Some(Decimal64::<1>::from_raw(12)));
}

#[test]
fn decimal64_rescale_round_into_downscale_rounds_up() {
    let result: Option<Decimal64<1>> =
        Decimal64::<2>::from_raw(125).rescale_round_into_nearest::<1>();
    assert_eq!(result, Some(Decimal64::<1>::from_raw(13)));
}

#[test]
fn decimal64_rescale_same_scale_is_identity() {
    let d = Decimal64::<4>::from_raw(12345);
    let result: Option<Decimal64<4>> = d.rescale_into();
    assert_eq!(result, Some(d));
}
