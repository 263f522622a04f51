use bignum_ig::{neg_infinity, pos_infinity, Big, SCALE};

#[test]
fn to_fixed() {
    // -6789.6799 as a raw mantissa over exponent zero.
    assert_eq!(Big::new(-67_896_799 * SCALE / 10_000, 0).to_fixed(3), "-6789.680");
    assert_eq!(Big::new(6_799 * SCALE / 1_000, -500).to_fixed(2), "0.00");
    assert_eq!(
        Big::new(1_234 * SCALE / 1_000, 500).to_fixed(200),
        format!("1234{}.{}", "0".repeat(497), "0".repeat(200))
    );
    assert_eq!(Big::NaN.to_fixed(2), "NaN");
}

#[test]
fn to_exponential() {
    // -6789.6789 as a raw mantissa over exponent zero.
    assert_eq!(Big::new(-67_896_789 * SCALE / 10_000, 0).to_exponential(2), "-6.79e3");
    assert_eq!(Big::from(0i64).to_exponential(2), "0.00");
    assert_eq!(Big::new(123 * SCALE / 100, -1234).to_exponential(2), "1.23e-1234");
    assert_eq!(Big::NaN.to_exponential(2), "NaN");
}

#[test]
fn to_fixed_more_shapes() {
    assert_eq!(Big::from(0i64).to_fixed(0), "0.");
    assert_eq!(Big::from(1235i64).to_fixed(0), "1235");
    assert_eq!(Big::from(-1i64).to_fixed(2), "-1.00");
    // Rounding half away from zero at the asked digit.
    assert_eq!(Big::new(12_345 * SCALE / 10_000, 0).to_fixed(3), "1.235");
    assert_eq!(Big::new(SCALE / 100, 0).to_fixed(4), "0.0100");
    assert_eq!(pos_infinity().to_fixed(2), "+inf");
    assert_eq!(neg_infinity().to_fixed(2), "-inf");
}

#[test]
fn to_exponential_more_shapes() {
    assert_eq!(Big::from(7i64).to_exponential(0), "7e0");
    assert_eq!(Big::from(1234i64).to_exponential(16), "1.2340000000000000e3");
    // Rounding can carry the head to a two-digit ten.
    assert_eq!(Big::new(99_999 * SCALE / 10_000, 3).to_exponential(2), "10.00e3");
    assert_eq!(pos_infinity().to_exponential(2), "+inf");
    assert_eq!(neg_infinity().to_exponential(2), "-inf");
}

#[test]
fn display_forms() {
    assert_eq!(Big::from(0i64).to_display_string(), "0");
    assert_eq!(Big::NaN.to_display_string(), "NaN");
    assert_eq!(pos_infinity().to_display_string(), "+inf");
    assert_eq!(neg_infinity().to_display_string(), "-inf");
    assert_eq!(Big::new(12_345 * SCALE / 10, 0).to_display_string(), "1.2345e3");
    assert_eq!(Big::from(1i64).to_display_string(), "1e0");
    assert_eq!(Big::from(-10i64).to_display_string(), "-1e1");
    assert_eq!(Big::new(123 * SCALE / 100, -1234).to_display_string(), "1.23e-1234");
}
