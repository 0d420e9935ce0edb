use decimal64::{Decimal64, ParseError, Round, Scientific, UDecimal64};

// ── Text round trips ─────────────────────────────────────────────────────────

#[test]
fn signed_text_round_trip_values() {
    let cases: &[i64] = &[0, 1, -1, 12345, -12345, 10_000, i64::MAX, i64::MIN + 1, 5, -99_999];
    for &raw in cases {
        let d = Decimal64::<4>::from_raw(raw);
        let back = Decimal64::<4>::parse(&d.to_string()).unwrap();
        assert_eq!(back.raw(), raw);
        let z = Decimal64::<0>::from_raw(raw);
        assert_eq!(Decimal64::<0>::parse(&z.to_string()).unwrap().raw(), raw);
        let a = Decimal64::<18>::from_raw(raw);
        assert_eq!(Decimal64::<18>::parse(&a.to_string()).unwrap().raw(), raw);
    }
}

#[test]
fn signed_text_of_min_does_not_read_back() {
    let d = Decimal64::<4>::min_value();
    assert_eq!(d.to_string(), "-922337203685477.5808");
    assert_eq!(Decimal64::<4>::parse(&d.to_string()), Err(ParseError::Overflow));
}

#[test]
fn unsigned_text_round_trip_values() {
    let cases: &[u64] = &[0, 1, 12345, 10_000, u64::MAX, 7];
    for &raw in cases {
        let d = UDecimal64::<4>::from_raw(raw);
        assert_eq!(UDecimal64::<4>::parse(&d.to_string()).unwrap().raw(), raw);
        let a = UDecimal64::<18>::from_raw(raw);
        assert_eq!(UDecimal64::<18>::parse(&a.to_string()).unwrap().raw(), raw);
    }
}

#[test]
fn unsigned_max_text() {
    assert_eq!(UDecimal64::<2>::max_value().to_string(), "184467440737095516.15");
}

#[test]
fn scientific_unsigned_round_trip_values() {
    let cases: &[u64] = &[0, 1, 12345, 15_000_000, 100, 1500, 18_000_000_000_000_000_000];
    for &raw in cases {
        let d = Scientific(UDecimal64::<4>::from_raw(raw));
        let s = d.to_string();
        let parsed: Scientific<UDecimal64<4>> = s.parse().unwrap();
        assert_eq!(parsed.0.raw(), raw);
    }
}

#[test]
fn scientific_text_of_long_mantissa_truncates() {
    // Eight significant digits after the leading one exceed the scale of 4.
    let d = Scientific(Decimal64::<4>::from_raw(123_456_789));
    assert_eq!(d.to_string(), "1.23456789e4");
    let parsed: Scientific<Decimal64<4>> = d.to_string().parse().unwrap();
    assert_eq!(parsed.0.raw(), 123_450_000);
}

#[test]
fn scientific_mantissa_overflow_at_top_scale() {
    // `9.5e-17` at scale 18 needs a mantissa of 9.5 * 10^18, beyond i64.
    let d = Scientific(Decimal64::<18>::from_raw(95));
    assert_eq!(d.to_string(), "9.5e-17");
    let parsed: Result<Scientific<Decimal64<18>>, ParseError> = d.to_string().parse();
    assert_eq!(parsed, Err(ParseError::Overflow));
}

#[test]
fn scientific_reads_fixed_point_text() {
    let d = Decimal64::<4>::from_raw(-1_234_567);
    let parsed: Scientific<Decimal64<4>> = d.to_string().parse().unwrap();
    assert_eq!(parsed.0.raw(), -1_234_567);
    let u = UDecimal64::<2>::from_raw(1005);
    let parsed: Scientific<UDecimal64<2>> = u.to_string().parse().unwrap();
    assert_eq!(parsed.0.raw(), 1005);
}

#[test]
fn scientific_text_is_not_fixed_point_text() {
    assert_eq!(
        Decimal64::<4>::parse("1.2345e2"),
        Err(ParseError::InvalidChar { byte: b'e', pos: 6 })
    );
}

type Sci<const S: u32> = Scientific<Decimal64<S>>;
type USci<const S: u32> = Scientific<UDecimal64<S>>;

fn sci<const S: u32>(s: &str) -> Result<i64, ParseError> {
    s.parse::<Sci<S>>().map(|d| d.0.raw())
}

fn usci<const S: u32>(s: &str) -> Result<u64, ParseError> {
    s.parse::<USci<S>>().map(|d| d.0.raw())
}

// ── Parsing ──────────────────────────────────────────────────────────────────

#[test]
fn extra_fraction_digits_truncate_toward_zero() {
    assert_eq!(Decimal64::<2>::parse("1.23999").unwrap().raw(), 123);
    assert_eq!(Decimal64::<2>::parse("-1.23999").unwrap().raw(), -123);
    assert_eq!(UDecimal64::<2>::parse("0.009").unwrap().raw(), 0);
}

#[test]
fn unsigned_parse_rejects_signs_at_position_zero() {
    assert_eq!(UDecimal64::<2>::parse("+1"), Err(ParseError::InvalidChar { byte: b'+', pos: 0 }));
    assert_eq!(UDecimal64::<2>::parse("-0"), Err(ParseError::InvalidChar { byte: b'-', pos: 0 }));
}

#[test]
fn signed_parse_errors() {
    assert_eq!(Decimal64::<2>::parse(""), Err(ParseError::Empty));
    assert_eq!(Decimal64::<2>::parse("-"), Err(ParseError::Empty));
    assert_eq!(Decimal64::<2>::parse("-."), Err(ParseError::Empty));
    assert_eq!(Decimal64::<2>::parse("1.2.3"), Err(ParseError::InvalidChar { byte: b'.', pos: 3 }));
    assert_eq!(Decimal64::<2>::parse("12a"), Err(ParseError::InvalidChar { byte: b'a', pos: 2 }));
    assert_eq!(Decimal64::<2>::parse("-1x"), Err(ParseError::InvalidChar { byte: b'x', pos: 2 }));
    assert_eq!(Decimal64::<2>::parse("92233720368547758.08"), Err(ParseError::Overflow));
    assert_eq!(Decimal64::<2>::parse("92233720368547758.07").unwrap().raw(), i64::MAX);
    assert_eq!(Decimal64::<2>::parse("-92233720368547758.07").unwrap().raw(), -i64::MAX);
}

#[test]
fn parse_agrees_with_from_str() {
    let a: Decimal64<3> = "-12.5".parse().unwrap();
    assert_eq!(a, Decimal64::<3>::parse("-12.5").unwrap());
    assert_eq!(a.raw(), -12_500);
    let b: UDecimal64<3> = "12.5".parse().unwrap();
    assert_eq!(b, UDecimal64::<3>::parse("12.5").unwrap());
}

#[test]
fn scientific_parse_errors() {
    assert_eq!(sci::<4>("1e99999999999"), Err(ParseError::Overflow));
    assert_eq!(sci::<4>("1e-19"), Err(ParseError::Underflow));
    assert_eq!(sci::<4>("1x5"), Err(ParseError::InvalidChar { byte: b'x', pos: 1 }));
    assert_eq!(sci::<4>("1e+x"), Err(ParseError::InvalidChar { byte: b'x', pos: 3 }));
    assert_eq!(usci::<4>("1e-20"), Err(ParseError::Underflow));
    assert_eq!(usci::<4>("1e-19").unwrap(), 0);
    assert_eq!(usci::<0>("18446744073709551615e0").unwrap(), u64::MAX);
    assert_eq!(usci::<1>("1.8e1").unwrap(), 180);
}

// ── Error messages ───────────────────────────────────────────────────────────

#[test]
fn error_messages() {
    assert_eq!(ParseError::Empty.to_string(), "empty or missing digits");
    assert_eq!(
        ParseError::InvalidChar { byte: b'x', pos: 3 }.to_string(),
        "invalid character 'x' at position 3"
    );
    assert_eq!(
        ParseError::InvalidChar { byte: b'\'', pos: 0 }.to_string(),
        "invalid character '\\'' at position 0"
    );
    assert_eq!(
        ParseError::InvalidChar { byte: b'\n', pos: 12 }.to_string(),
        "invalid character '\\n' at position 12"
    );
    assert_eq!(ParseError::Overflow.to_string(), "numeric overflow");
    assert_eq!(ParseError::Underflow.to_string(), "value too small to represent (underflow)");
    assert_eq!(
        ParseError::TooManyFractional { got: 5, max: 4 }.to_string(),
        "too many fractional digits: got 5, max 4"
    );
}

#[test]
fn error_message_of_a_real_parse() {
    let e = Decimal64::<2>::parse("1#").unwrap_err();
    assert_eq!(e.to_string(), "invalid character '#' at position 1");
}

#[test]
fn debug_strings() {
    assert_eq!(Decimal64::<4>::from_raw(-12345).to_debug_string(), "Decimal64<4>(-12345)");
    assert_eq!(Decimal64::<0>::from_raw(i64::MIN).to_debug_string(), "Decimal64<0>(-9223372036854775808)");
}

// ── Arithmetic laws ──────────────────────────────────────────────────────────

#[test]
fn rounding_modes_on_negative_tie() {
    let a = Decimal64::<0>::from_raw(-25);
    let b = Decimal64::<0>::from_raw(10);
    assert_eq!(a.div_round_floor(b).raw(), -3);
    assert_eq!(a.div_round_ceil(b).raw(), -2);
    assert_eq!(a.div_round_zero(b).raw(), -2);
    assert_eq!(a.div_round_nearest(b).raw(), -3);
    assert_eq!(a.div_round_nearest_even(b).raw(), -2);
}

#[test]
fn rounding_modes_on_positive_values() {
    let b = Decimal64::<0>::from_raw(10);
    let tie = Decimal64::<0>::from_raw(35);
    assert_eq!(tie.div_round_nearest_even(b).raw(), 4);
    assert_eq!(tie.div_round_nearest(b).raw(), 4);
    let low = Decimal64::<0>::from_raw(34);
    assert_eq!(low.div_round_nearest(b).raw(), 3);
    assert_eq!(low.div_round_ceil(b).raw(), 4);
    assert_eq!(low.div_round_floor(b).raw(), 3);
    let neg_divisor = Decimal64::<0>::from_raw(-10);
    assert_eq!(low.div_round_floor(neg_divisor).raw(), -4);
    assert_eq!(low.div_round_ceil(neg_divisor).raw(), -3);
}

#[test]
fn one_is_identity() {
    for &raw in &[0i64, 1, -1, 123_456, -987_654_321, i64::MAX, i64::MIN] {
        let x = Decimal64::<4>::from_raw(raw);
        let one = Decimal64::<4>::one();
        assert_eq!(x.checked_mul(one), Some(x));
        assert_eq!(x.checked_div(one), Some(x));
        assert_eq!(x.checked_div_round_nearest_even(one), Some(x));
        assert_eq!(x.checked_div_round_ceil(one), Some(x));
        assert_eq!(x.checked_div_round_floor(one), Some(x));
    }
    for &raw in &[0u64, 7, u64::MAX] {
        let x = UDecimal64::<6>::from_raw(raw);
        let one = UDecimal64::<6>::one();
        assert_eq!(x.checked_mul(one), Some(x));
        assert_eq!(x.checked_div_round_nearest(one), Some(x));
    }
}

#[test]
fn rescale_round_trip() {
    let d = Decimal64::<2>::from_raw(-125);
    let up: Decimal64<6> = d.rescale_into::<6>().unwrap();
    assert_eq!(up.raw(), -1_250_000);
    let back: Decimal64<2> = up.rescale_into::<2>().unwrap();
    assert_eq!(back, d);
    let u = UDecimal64::<4>::from_raw(12_300);
    let down: UDecimal64<2> = u.rescale_into::<2>().unwrap();
    assert_eq!(down.raw(), 123);
    assert_eq!(down.rescale_into::<4>().unwrap(), u);
}

#[test]
fn rescale_overflow_and_rounding() {
    assert_eq!(Decimal64::<0>::max_value().rescale_into::<1>(), None);
    assert_eq!(Decimal64::<0>::from_raw(5).rescale_round_into_floor::<18>().map(|d| d.raw()), Some(5_000_000_000_000_000_000));
    let d = Decimal64::<3>::from_raw(-1_255);
    assert_eq!(d.rescale_round_into_nearest_even::<2>().unwrap().raw(), -126);
    assert_eq!(d.rescale_round_into_nearest::<2>().unwrap().raw(), -126);
    assert_eq!(d.rescale_round_into_zero::<2>().unwrap().raw(), -125);
    assert_eq!(d.rescale_round_into_ceil::<2>().unwrap().raw(), -125);
    assert_eq!(d.rescale_round_into_floor::<2>().unwrap().raw(), -126);
    let e = Decimal64::<3>::from_raw(1_245);
    assert_eq!(e.rescale_round_into_nearest_even::<2>().unwrap().raw(), 124);
}

#[test]
fn sign_conversions_invert() {
    let s = Decimal64::<2>::from_raw(4_200);
    let u = s.as_unsigned().unwrap();
    assert_eq!(u.raw(), 4_200);
    assert_eq!(u.as_signed(), Some(s));
    let big = UDecimal64::<2>::from_raw(i64::MAX as u64);
    assert_eq!(big.as_signed().unwrap().as_unsigned(), Some(big));
    assert_eq!(UDecimal64::<2>::from_raw(i64::MAX as u64 + 1).as_signed(), None);
    assert_eq!(Decimal64::<2>::from_raw(-1).as_unsigned(), None);
}

#[test]
fn checked_and_saturating_edges() {
    let max = Decimal64::<2>::max_value();
    let min = Decimal64::<2>::min_value();
    let one_raw = Decimal64::<2>::from_raw(1);
    assert_eq!(max.checked_add(one_raw), None);
    assert_eq!(min.checked_sub(one_raw), None);
    assert_eq!(max.saturating_add(one_raw), max);
    assert_eq!(min.saturating_sub(one_raw), min);
    assert_eq!(min.saturating_mul(Decimal64::<2>::from_raw(-200)), max);
    assert_eq!(max.saturating_mul(Decimal64::<2>::from_raw(-200)), min);
    assert_eq!(min.checked_div(Decimal64::<2>::from_raw(-100)), None);
    assert_eq!(Decimal64::<0>::min_value().checked_div(Decimal64::<0>::from_raw(-1)), None);
    assert_eq!(Decimal64::<2>::from_raw(-7).checked_mul(Decimal64::<2>::from_raw(3)).unwrap().raw(), 0);
    let umax = UDecimal64::<2>::max_value();
    assert_eq!(umax.checked_add(UDecimal64::<2>::from_raw(1)), None);
    assert_eq!(UDecimal64::<2>::zero().saturating_sub(UDecimal64::<2>::from_raw(1)).raw(), 0);
}

#[test]
fn mode_taking_division_and_rescale() {
    let a = Decimal64::<0>::from_raw(-25);
    let b = Decimal64::<0>::from_raw(10);
    assert_eq!(a.div_round(b, Round::NearestEven).raw(), -2);
    assert_eq!(a.div_round(b, Round::Nearest).raw(), -3);
    assert_eq!(a.checked_div_round(b, Round::TowardPosInf).map(|d| d.raw()), Some(-2));
    assert_eq!(a.checked_div_round(Decimal64::<0>::zero(), Round::TowardPosInf), None);
    let d2: Decimal64<2> = "1.25".parse().unwrap();
    assert_eq!(d2.rescale_round_into::<1>(Round::Nearest).unwrap().raw(), 13);
    assert_eq!(d2.rescale_round_into::<1>(Round::NearestEven).unwrap().raw(), 12);
    assert_eq!(d2.rescale_round_into::<4>(Round::TowardNegInf).unwrap().raw(), 12_500);
    let u = UDecimal64::<0>::from_raw(7);
    assert_eq!(u.div_round(UDecimal64::<0>::from_raw(2), Round::TowardPosInf).raw(), 4);
    assert_eq!(u.checked_div_round(UDecimal64::<0>::zero(), Round::Nearest), None);
    let u2 = UDecimal64::<2>::from_raw(125);
    assert_eq!(u2.rescale_round_into::<1>(Round::TowardNegInf).unwrap().raw(), 12);
}
