use bignum_ig::conversion::ParseError;
use bignum_ig::{Big, SCALE};

fn m(v: &Big) -> i128 {
    if let Big::Number { m, e: _ } = v {
        *m
    } else {
        panic!("expected a valid mantissa but the value is {:?}", v);
    }
}

fn e(v: &Big) -> i64 {
    if let Big::Number { m: _, e } = v {
        *e
    } else {
        panic!("expected a valid exponent but the value is {:?}", v);
    }
}

#[test]
fn parse_special_words() {
    assert_eq!(Big::from_str("0").unwrap(), Big::Zero);
    assert!(Big::from_str("nan").unwrap().is_nan());
    assert!(Big::from_str("NaN").unwrap().is_nan());
    assert!(Big::from_str("-NAN").unwrap().is_nan());
    assert!(Big::from_str("inf").unwrap().is_pos_inf());
    assert!(Big::from_str("+Inf").unwrap().is_pos_inf());
    assert!(Big::from_str("INFINITY").unwrap().is_pos_inf());
    assert!(Big::from_str("-inf").unwrap().is_neg_inf());
    assert!(Big::from_str("-Infinity").unwrap().is_neg_inf());
}

#[test]
fn parse_plain_numbers() {
    assert_eq!(Big::from_str("42").unwrap(), Big::from(42i64));
    assert_eq!(Big::from_str("-42").unwrap(), Big::from(-42i64));
    assert_eq!(Big::from_str("+42").unwrap(), Big::from(42i64));
    assert_eq!(Big::from_str("0.0").unwrap(), Big::Zero);
    assert_eq!(Big::from_str("-0").unwrap(), Big::Zero);
    let v = Big::from_str("1234.5").unwrap();
    assert_eq!(m(&v), 12_345 * SCALE / 10_000);
    assert_eq!(e(&v), 3);
    let v = Big::from_str(".25").unwrap();
    assert_eq!(m(&v), 25 * SCALE / 10);
    assert_eq!(e(&v), -1);
    let v = Big::from_str("3.").unwrap();
    assert_eq!(v, Big::from(3i64));
}

#[test]
fn parse_with_exponent() {
    let v = Big::from_str("1.23e-1234").unwrap();
    assert_eq!(m(&v), 123 * SCALE / 100);
    assert_eq!(e(&v), -1234);
    assert_eq!(v.to_exponential(2), "1.23e-1234");

    let v = Big::from_str("1.5E42").unwrap();
    assert_eq!(m(&v), 15 * SCALE / 10);
    assert_eq!(e(&v), 42);

    let v = Big::from_str("1234.5e+3").unwrap();
    assert_eq!(m(&v), 12_345 * SCALE / 10_000);
    assert_eq!(e(&v), 6);

    assert_eq!(Big::from_str("0e99").unwrap(), Big::Zero);
}

#[test]
fn parse_range_edges() {
    // An exponent past either end of the 64-bit range collapses cleanly.
    assert!(Big::from_str("1e99999999999999999999").unwrap().is_pos_inf());
    assert!(Big::from_str("-1e99999999999999999999").unwrap().is_neg_inf());
    assert_eq!(Big::from_str("1e-99999999999999999999").unwrap(), Big::Zero);
    // Mantissa digits beyond the grid are dropped toward zero.
    let v = Big::from_str("1.23456789012345678901").unwrap();
    assert_eq!(m(&v), 123_456_789_012_345);
    assert_eq!(e(&v), 0);
}

#[test]
fn parse_errors() {
    assert!(matches!(Big::from_str("abc"), Err(ParseError::Parts)));
    assert!(matches!(Big::from_str(""), Err(ParseError::Parts)));
    assert!(matches!(Big::from_str("1.2.3"), Err(ParseError::Parts)));
    assert!(matches!(Big::from_str("1e5e6"), Err(ParseError::Parts)));
    assert!(matches!(Big::from_str("abce5"), Err(ParseError::Mantissa(t)) if t == "abc"));
    assert!(matches!(Big::from_str("e5"), Err(ParseError::Mantissa(t)) if t == ""));
    assert!(matches!(Big::from_str("1e"), Err(ParseError::Exponent(t)) if t == ""));
    assert!(matches!(Big::from_str("1ex"), Err(ParseError::Exponent(t)) if t == "x"));
    assert!(matches!(Big::from_str("1e5.5"), Err(ParseError::Exponent(t)) if t == "5.5"));
    assert!(matches!(Big::from_str("xey"), Err(ParseError::Parts)));
}

#[test]
fn parse_format_round_trip() {
    let texts = ["1.2345e3", "-6.79e3", "9e0", "1.23e-1234"];
    for t in texts.iter() {
        let v = Big::from_str(t).unwrap();
        assert_eq!(v.to_display_string(), *t);
    }
}
