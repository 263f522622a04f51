use bignum_ig::{neg_infinity, pos_infinity, Big, InfinityKind, SCALE};

fn b(value: i64) -> Big {
    Big::from(value)
}

fn m(v: &Big) -> i128 {
    if let Big::Number { m, e: _ } = v {
        *m
    } else {
        panic!("expected a valid mantissa but the value is {:?}", v);
    }
}

fn e(v: &Big) -> i64 {
    if let Big::Number { m: _, e } = v {
        *e
    } else {
        panic!("expected a valid exponent but the value is {:?}", v);
    }
}

#[test]
fn creation() {
    // A mantissa of one over exponent one and a mantissa of ten over
    // exponent zero normalize to the identical value.
    assert_eq!(Big::new(SCALE, 1), Big::new(10 * SCALE, 0));

    Big::new(SCALE, 0);
    Big::new(-SCALE, 0);
    Big::new(SCALE, i64::MAX);
    Big::new(SCALE, i64::MIN);

    // A mantissa of one hundred pushes the exponent past the top.
    let pos_inf = Big::new(100 * SCALE, i64::MAX - 1);
    assert!(pos_inf.is_pos_inf());

    let neg_inf = Big::new(-100 * SCALE, i64::MAX - 1);
    assert!(neg_inf.is_neg_inf());

    // A mantissa of one hundredth pushes the exponent past the bottom.
    let zero = Big::new(SCALE / 100, i64::MIN + 1);
    assert_eq!(zero, Big::Zero);
}

#[test]
fn from_integers() {
    let hundred = Big::from(100i64);
    assert_eq!(m(&hundred), SCALE);
    assert_eq!(e(&hundred), 2);
    assert_eq!(Big::from(100i32), hundred);
    assert_eq!(Big::from(0i64), Big::Zero);
    assert_eq!(Big::from(-42i64), Big::from(-42i32));
}

#[test]
fn normalization() {
    // 1234.5 expressed as a raw mantissa over exponent zero.
    let norm = Big::new(12345 * SCALE / 10, 0);
    assert_eq!(m(&norm), 12345 * SCALE / 10000);
    assert_eq!(e(&norm), 3);

    let norm = Big::new(-12345 * SCALE / 10, 0);
    assert_eq!(m(&norm), -12345 * SCALE / 10000);
    assert_eq!(e(&norm), 3);

    // One thousandth normalizes to a mantissa of one.
    let norm = Big::new(SCALE / 1000, 0);
    assert_eq!(m(&norm), SCALE);
    assert_eq!(e(&norm), -3);

    let norm = Big::new(0, 4);
    assert_eq!(norm, Big::Zero);

    // Normalizing an already-canonical value changes nothing.
    let mut again = norm;
    again.normalize();
    assert_eq!(again, norm);
    let mut twice = Big::new(9 * SCALE, 77);
    let once = twice;
    twice.normalize();
    assert_eq!(twice, once);
}

#[test]
fn addition() {
    let mut a = b(1);
    a.add_assign(b(1));
    assert_eq!(a, b(2));

    assert_eq!(b(4).add(b(-15)), b(-11));
    assert!(b(1).add(Big::NaN).is_nan());
    assert_eq!(Big::Zero.add(b(0)).add(Big::Zero), Big::Zero);
    assert_eq!(b(0).add(b(-0)), Big::Zero);
    assert!(b(1).add(pos_infinity()).is_pos_inf());
    assert!(Big::new(9 * SCALE, i64::MAX).add(Big::new(9 * SCALE, i64::MAX)).is_pos_inf());
}

#[test]
fn substraction() {
    let mut a = b(1);
    a.sub_assign(b(1));
    assert_eq!(a, b(0));

    assert_eq!(b(4).sub(b(-15)), b(19));
    assert!(b(1).sub(Big::NaN).is_nan());
    assert_eq!(Big::Zero.sub(b(0)).sub(Big::Zero), Big::Zero);
    assert_eq!(b(0).sub(b(-0)), Big::Zero);
    assert!(b(1).sub(pos_infinity()).is_neg_inf());
    assert!(Big::new(-9 * SCALE, i64::MAX).sub(Big::new(9 * SCALE, i64::MAX)).is_neg_inf());
}

#[test]
fn multiplication() {
    let mut a = b(2);
    a.mul_assign(b(2));
    assert_eq!(a, b(4));

    assert_eq!(b(7).mul(b(6)), b(42));
    assert_eq!(b(7).mul(b(-6)), b(-42));
    assert!(pos_infinity().mul(b(0)).is_nan());
    assert!(pos_infinity().mul(neg_infinity()).is_neg_inf());
}

#[test]
fn division() {
    let mut a = b(4);
    a.div_assign(b(2));
    assert_eq!(a, b(2));

    assert_eq!(b(42).div(b(6)), b(7));
    assert_eq!(b(42).div(b(-6)), b(-7));
    assert!(b(42).div(b(0)).is_nan());
    assert!(pos_infinity().div(b(0)).is_nan());
    assert!(pos_infinity().div(neg_infinity()).is_nan());
}

#[test]
fn remainder() {
    assert_eq!(b(8).rem(b(3)), b(2));
    assert_eq!(b(-8).rem(b(3)), b(-2));
    assert_eq!(b(8).rem(b(-3)), b(2));
    assert_eq!(Big::new(12345 * SCALE / 10000, 1234).rem(b(5)), b(0));
    assert_eq!(b(5).rem(Big::new(12345 * SCALE / 10000, 1234)), b(5));
    assert_eq!(b(5).rem(pos_infinity()), b(5));
    assert!(pos_infinity().rem(b(5)).is_nan());
    assert!(b(42).rem(b(0)).is_nan());
}

#[test]
fn comparison() {
    assert!(b(11) > b(9));
    assert!(b(-5) < b(4));
    assert!(pos_infinity() > Big::new(99 * SCALE / 10, i64::MAX));
    assert!(neg_infinity() < Big::new(99 * SCALE / 10, i64::MAX));
    assert!(neg_infinity() < pos_infinity());
    assert_eq!(pos_infinity() != pos_infinity(), true);
    assert_eq!(pos_infinity() == pos_infinity(), false);
}

#[test]
fn comparison_cutoff_and_zero() {
    // An exponent gap of fifteen orders the pair by exponent alone.
    assert!(b(2) < Big::new(SCALE, 15));
    assert!(Big::new(SCALE, 15) > b(2));
    assert_eq!(Big::Zero == Big::Zero, true);
    assert!(Big::Zero < b(3));
    assert!(b(-3) < Big::Zero);
    assert!(!(Big::NaN < b(1)) && !(Big::NaN > b(1)) && Big::NaN != b(1));
}

#[test]
fn negation_and_absolute() {
    let mut number = Big::from(42i64);
    number.neg_mut();
    assert_eq!(number, Big::from(-42i64));

    let mut number = Big::from(-42i64);
    number.abs_mut();
    assert_eq!(number, Big::from(42i64));
    assert_eq!(Big::from(-42i64).abs(), Big::from(42i64));
    assert_eq!(Big::from(42i64).abs(), Big::from(42i64));
    assert_eq!(Big::from(42i64).neg(), Big::from(-42i64));
    assert!(pos_infinity().neg().is_neg_inf());
    assert!(Big::NaN.neg().is_nan());
    assert!(Big::NaN.abs().is_nan());
}

#[test]
fn predicates() {
    assert!(Big::NaN.is_nan());
    assert!(pos_infinity().is_pos_inf());
    assert!(neg_infinity().is_neg_inf());
    assert!(Big::from(0i64).is_zero());
    assert!(!Big::from(1i64).is_zero());
    // The equality relation never holds of an infinity, even an identical
    // one: the predicates are the way to test for a particular infinity.
    assert!(matches!(pos_infinity(), Big::Infinity(InfinityKind::Positive)));
    assert!(pos_infinity() != Big::Infinity(InfinityKind::Positive));
}

#[test]
fn addition_cutoff_swallows() {
    // 5 + 1.5e42 is exactly 1.5e42: the gap passes the significant-digit
    // cutoff.
    let big = Big::new(15 * SCALE / 10, 42);
    assert_eq!(b(5).add(big), big);
    assert_eq!(big.add(b(5)), big);
}

#[test]
fn commutativity_samples() {
    let samples = [
        b(3),
        b(-17),
        Big::new(12345 * SCALE / 10000, 7),
        Big::Zero,
        pos_infinity(),
        neg_infinity(),
    ];
    for x in samples.iter() {
        for y in samples.iter() {
            let xy = x.add(*y);
            let yx = y.add(*x);
            assert!(xy == yx || (xy.is_nan() && yx.is_nan()) || (xy.is_pos_inf() && yx.is_pos_inf()) || (xy.is_neg_inf() && yx.is_neg_inf()));
            let xy = x.mul(*y);
            let yx = y.mul(*x);
            assert!(xy == yx || (xy.is_nan() && yx.is_nan()) || (xy.is_pos_inf() && yx.is_pos_inf()) || (xy.is_neg_inf() && yx.is_neg_inf()));
        }
    }
}

#[test]
fn zero_identity_and_absorption() {
    assert_eq!(b(7).add(Big::Zero), b(7));
    assert_eq!(Big::Zero.add(b(7)), b(7));
    assert!(pos_infinity().add(Big::Zero).is_pos_inf());
    assert_eq!(b(7).mul(Big::Zero), Big::Zero);
    assert_eq!(Big::Zero.mul(b(7)), Big::Zero);
}

#[test]
fn nan_absorbs_every_operator() {
    assert!(Big::NaN.add(b(1)).is_nan());
    assert!(b(1).add(Big::NaN).is_nan());
    assert!(Big::NaN.sub(b(1)).is_nan());
    assert!(b(1).sub(Big::NaN).is_nan());
    assert!(Big::NaN.mul(b(1)).is_nan());
    assert!(b(1).mul(Big::NaN).is_nan());
    assert!(Big::NaN.div(b(1)).is_nan());
    assert!(b(1).div(Big::NaN).is_nan());
    assert!(Big::NaN.rem(b(1)).is_nan());
    assert!(b(1).rem(Big::NaN).is_nan());
}

#[test]
fn infinity_algebra() {
    assert!(pos_infinity().add(neg_infinity()).is_nan());
    assert!(neg_infinity().add(pos_infinity()).is_nan());
    assert!(pos_infinity().add(pos_infinity()).is_pos_inf());
    assert!(pos_infinity().sub(pos_infinity()).is_nan());
    assert!(pos_infinity().mul(b(0)).is_nan());
    assert!(b(0).mul(pos_infinity()).is_nan());
    assert!(pos_infinity().div(pos_infinity()).is_nan());
    assert!(pos_infinity().mul(pos_infinity()).is_nan());
    assert!(pos_infinity().mul(neg_infinity()).is_neg_inf());
    assert!(b(3).div(pos_infinity()).is_zero());
    assert!(pos_infinity().rem(pos_infinity()).is_nan());
    assert_eq!(b(3).rem(pos_infinity()), b(3));
}

#[test]
fn unnormalized_escape_hatch() {
    let mut a = Big::new_unnormalized(25 * SCALE, 0);
    a.add_mut_unnormalized(Big::new_unnormalized(5 * SCALE, 0));
    if let Big::Number { m, e } = a {
        assert_eq!(m, 30 * SCALE);
        assert_eq!(e, 0);
    } else {
        panic!("expected an unnormalized number, got {:?}", a);
    }
    a.normalize();
    assert_eq!(a, Big::from(30i64));
}
