use decimal64::{Decimal64, ParseError, Scientific, UDecimal64};

type S4 = Scientific<Decimal64<4>>;
type U4 = Scientific<UDecimal64<4>>;

#[test]
fn no_exponent_delegates() {
    let r: S4 = "1.2345".parse().unwrap();
    assert_eq!(r.0.raw(), 12345);
}

#[test]
fn positive_exponent_exact() {
    let r: S4 = "1.5e3".parse().unwrap();
    assert_eq!(r.0.raw(), 15_000_000);
}

#[test]
fn positive_exponent_zero_mantissa() {
    let r: S4 = "0e100".parse().unwrap();
    assert_eq!(r.0.raw(), 0);
}

#[test]
fn positive_exponent_overflow() {
    let r: Result<S4, _> = "9.9e18".parse();
    assert_eq!(r, Err(ParseError::Overflow));
}

#[test]
fn positive_exponent_boundary_exp18() {
    let r: Result<Scientific<Decimal64<0>>, _> = "1e18".parse();
    assert_eq!(r.unwrap().0.raw(), 10_i64.pow(18));
}

#[test]
fn negative_exponent_truncate() {
    let r: S4 = "1.5e-5".parse().unwrap();
    assert_eq!(r.0.raw(), 0);
}

#[test]
fn negative_exponent_exact() {
    let r: S4 = "1.5e-3".parse().unwrap();
    assert_eq!(r.0.raw(), 15);
}

#[test]
fn negative_exponent_boundary_neg18() {
    let r: Result<Scientific<Decimal64<0>>, _> = "1e-18".parse();
    assert_eq!(r.unwrap().0.raw(), 0);
}

#[test]
fn negative_exponent_underflow() {
    let r: Result<Scientific<Decimal64<0>>, _> = "1e-19".parse();
    assert_eq!(r, Err(ParseError::Underflow));
}

#[test]
fn negative_exponent_zero_mantissa() {
    let r: S4 = "0e-100".parse().unwrap();
    assert_eq!(r.0.raw(), 0);
}

#[test]
fn uppercase_e() {
    let r: S4 = "1.5E3".parse().unwrap();
    assert_eq!(r.0.raw(), 15_000_000);
}

#[test]
fn signed_positive_exponent() {
    let r: S4 = "1.5e+3".parse().unwrap();
    assert_eq!(r.0.raw(), 15_000_000);
}

#[test]
fn empty_exponent() {
    let r: Result<S4, _> = "1e".parse();
    assert_eq!(r, Err(ParseError::Empty));
}

#[test]
fn sign_only_exponent() {
    let r: Result<S4, _> = "1e+".parse();
    assert_eq!(r, Err(ParseError::Empty));
}

#[test]
fn invalid_exponent_char() {
    let r: Result<S4, _> = "1e3.0".parse();
    assert!(matches!(r, Err(ParseError::InvalidChar { .. })));
}

#[test]
fn empty_mantissa() {
    let r: Result<S4, _> = "e5".parse();
    assert_eq!(r, Err(ParseError::Empty));
}

#[test]
fn negative_mantissa_signed() {
    let r: S4 = "-1.5e3".parse().unwrap();
    assert_eq!(r.0.raw(), -15_000_000);
}

#[test]
fn negative_mantissa_unsigned_rejected() {
    let r: Result<U4, _> = "-1.5e3".parse();
    assert!(matches!(r, Err(ParseError::InvalidChar { .. })));
}

#[test]
fn scientific_display_zero() {
    assert_eq!(Scientific(Decimal64::<4>::from_raw(0)).to_string(), "0e0");
}

#[test]
fn scientific_display_basic() {
    assert_eq!(
        Scientific(Decimal64::<4>::from_raw(12345)).to_string(),
        "1.2345e0"
    );
}

#[test]
fn display_small_coeff() {
    // raw=100, scale=4 → 0.0100 → 1e-2
    assert_eq!(Scientific(Decimal64::<4>::from_raw(100)).to_string(), "1e-2");
}

#[test]
fn display_large() {
    // raw=1234500, scale=4 → 123.45 → 1.2345e2
    assert_eq!(
        Scientific(Decimal64::<4>::from_raw(1234500)).to_string(),
        "1.2345e2"
    );
}

#[test]
fn display_one_unit() {
    assert_eq!(Scientific(Decimal64::<4>::from_raw(10000)).to_string(), "1e0");
}

#[test]
fn display_smallest_nonzero() {
    assert_eq!(Scientific(Decimal64::<4>::from_raw(1)).to_string(), "1e-4");
}

#[test]
fn scientific_display_negative() {
    assert_eq!(
        Scientific(Decimal64::<4>::from_raw(-12345)).to_string(),
        "-1.2345e0"
    );
}

#[test]
fn display_unsigned_zero() {
    assert_eq!(Scientific(UDecimal64::<4>::from_raw(0)).to_string(), "0e0");
}

#[test]
fn display_unsigned_basic() {
    assert_eq!(
        Scientific(UDecimal64::<4>::from_raw(12345)).to_string(),
        "1.2345e0"
    );
}

#[test]
fn into_inner_signed() {
    let s: S4 = "1.2345".parse().unwrap();
    let inner: Decimal64<4> = s.into_inner();
    assert_eq!(inner.raw(), 12345);
}

#[test]
fn into_inner_unsigned() {
    let s: U4 = "1.2345".parse().unwrap();
    let inner: UDecimal64<4> = s.into_inner();
    assert_eq!(inner.raw(), 12345);
}

#[test]
fn round_trip_display_parse() {
    let cases: &[i64] = &[
        12345,
        15_000_000,
        100,
        1234500,
        10000,
        1,
        -12345,
        -15_000_000,
        15,
        1500,
    ];
    for &raw in cases {
        let d = Scientific(Decimal64::<4>::from_raw(raw));
        let s = d.to_string();
        let parsed: S4 = s
            .parse()
            .unwrap_or_else(|e| panic!("round-trip failed for raw={raw}: s={s:?}, err={e:?}"));
        assert_eq!(parsed.0.raw(), raw, "round-trip mismatch for raw={raw}, s={s:?}");
    }
}

#[test]
fn unsigned_exponent_overflow() {
    let r: Result<U4, _> = "1e25".parse();
    assert_eq!(r, Err(ParseError::Overflow));
}

#[test]
fn unsigned_exponent_underflow() {
    let r: Result<Scientific<UDecimal64<0>>, _> = "1e-20".parse();
    assert_eq!(r, Err(ParseError::Underflow));
}
