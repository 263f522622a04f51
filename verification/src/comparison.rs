//! The comparator: a strict partial order and a narrow equality relation.
//!
//! The order is partial, not total: `NaN` is unordered with everything,
//! itself included, and an infinity is unordered with the identical
//! infinity. Equality is structural and holds only of two equal `Number`s
//! or of two `Zero`s; `NaN` and the infinities are never equal to anything
//! — a deliberate choice mirrored from the order, with the `is_pos_inf` and
//! `is_neg_inf` predicates as the way to test for a particular infinity.

use core::cmp::Ordering;

use vstd::prelude::*;

use crate::arith::iabs;
use crate::digits::{pow10, pow10_i128, lemma_pow10_pos};
use crate::{Big, InfinityKind, SIG_DIGITS};

verus! {

/// The equality relation: structural on `Number` (exact mantissa and
/// exponent equality) and on `Zero`; never true of `NaN` or an `Infinity`,
/// the identical infinity included.
pub open spec fn spec_eq(a: Big, b: Big) -> bool {
    match (a, b) {
        (Big::Number { m: m1, e: e1 }, Big::Number { m: m2, e: e2 }) => m1 == m2 && e1 == e2,
        (Big::Zero, Big::Zero) => true,
        _ => false,
    }
}

/// The strict partial order, in priority order: `NaN` is unordered with
/// everything; equal infinities are unordered while opposite ones order by
/// sign; an infinity bounds every finite value; `Zero` equals `Zero` and
/// orders against a `Number` by the mantissa's sign. Two `Number`s whose
/// exponents differ by at least `SIG_DIGITS` order by exponent alone — the
/// right operand greater on a positive gap — and inside that cutoff both
/// mantissas are compared exactly over the smaller exponent.
pub open spec fn spec_partial_cmp(a: Big, b: Big) -> Option<Ordering> {
    match (a, b) {
        (Big::NaN, _) => None,
        (_, Big::NaN) => None,
        (Big::Infinity(k), Big::Infinity(k2)) => match (k, k2) {
            (InfinityKind::Positive, InfinityKind::Positive) => None,
            (InfinityKind::Negative, InfinityKind::Negative) => None,
            (InfinityKind::Positive, InfinityKind::Negative) => Some(Ordering::Greater),
            (InfinityKind::Negative, InfinityKind::Positive) => Some(Ordering::Less),
        },
        (Big::Infinity(InfinityKind::Positive), _) => Some(Ordering::Greater),
        (Big::Infinity(InfinityKind::Negative), _) => Some(Ordering::Less),
        (_, Big::Infinity(InfinityKind::Positive)) => Some(Ordering::Less),
        (_, Big::Infinity(InfinityKind::Negative)) => Some(Ordering::Greater),
        (Big::Zero, Big::Zero) => Some(Ordering::Equal),
        (Big::Number { m, e }, Big::Zero) => if m >= 0 {
            Some(Ordering::Greater)
        } else {
            Some(Ordering::Less)
        },
        (Big::Zero, Big::Number { m, e }) => if m >= 0 {
            Some(Ordering::Less)
        } else {
            Some(Ordering::Greater)
        },
        (Big::Number { m: m1, e: e1 }, Big::Number { m: m2, e: e2 }) => {
            let delta = e2 - e1;
            if delta >= SIG_DIGITS {
                Some(Ordering::Less)
            } else if delta <= -SIG_DIGITS {
                Some(Ordering::Greater)
            } else if delta >= 0 {
                let rescaled = m2 * pow10(delta as nat);
                if m1 == rescaled {
                    Some(Ordering::Equal)
                } else if m1 < rescaled {
                    Some(Ordering::Less)
                } else {
                    Some(Ordering::Greater)
                }
            } else {
                let rescaled = m1 * pow10((-delta) as nat);
                if rescaled == m2 {
                    Some(Ordering::Equal)
                } else if rescaled < m2 {
                    Some(Ordering::Less)
                } else {
                    Some(Ordering::Greater)
                }
            }
        },
    }
}

impl PartialEq for Big {
    fn eq(&self, other: &Self) -> (r: bool) {
        match (*self, *other) {
            (Big::Number { m: m1, e: e1 }, Big::Number { m: m2, e: e2 }) => m1 == m2 && e1
                == e2,
            (Big::Zero, Big::Zero) => true,
            _ => false,
        }
    }
}

impl vstd::std_specs::cmp::PartialEqSpecImpl for Big {
    open spec fn obeys_eq_spec() -> bool {
        true
    }

    open spec fn eq_spec(&self, other: &Big) -> bool {
        spec_eq(*self, *other)
    }
}

impl PartialOrd for Big {
    fn partial_cmp(&self, other: &Self) -> (r: Option<Ordering>) {
        match (*self, *other) {
            (Big::NaN, _) => None,
            (_, Big::NaN) => None,
            (Big::Infinity(k), Big::Infinity(k2)) => match (k, k2) {
                (InfinityKind::Positive, InfinityKind::Positive) => None,
                (InfinityKind::Negative, InfinityKind::Negative) => None,
                (InfinityKind::Positive, InfinityKind::Negative) => Some(Ordering::Greater),
                (InfinityKind::Negative, InfinityKind::Positive) => Some(Ordering::Less),
            },
            (Big::Infinity(InfinityKind::Positive), _) => Some(Ordering::Greater),
            (Big::Infinity(InfinityKind::Negative), _) => Some(Ordering::Less),
            (_, Big::Infinity(InfinityKind::Positive)) => Some(Ordering::Less),
            (_, Big::Infinity(InfinityKind::Negative)) => Some(Ordering::Greater),
            (Big::Zero, Big::Zero) => Some(Ordering::Equal),
            (Big::Number { m, e }, Big::Zero) => if m >= 0 {
                Some(Ordering::Greater)
            } else {
                Some(Ordering::Less)
            },
            (Big::Zero, Big::Number { m, e }) => if m >= 0 {
                Some(Ordering::Less)
            } else {
                Some(Ordering::Greater)
            },
            (Big::Number { m: m1, e: e1 }, Big::Number { m: m2, e: e2 }) => {
                let delta: i128 = e2 as i128 - e1 as i128;
                if delta >= SIG_DIGITS as i128 {
                    Some(Ordering::Less)
                } else if delta <= -(SIG_DIGITS as i128) {
                    Some(Ordering::Greater)
                } else if delta >= 0 {
                    let pw: i128 = pow10_i128(delta as u32);
                    match m2.checked_mul(pw) {
                        Some(rescaled) => {
                            if m1 == rescaled {
                                Some(Ordering::Equal)
                            } else if m1 < rescaled {
                                Some(Ordering::Less)
                            } else {
                                Some(Ordering::Greater)
                            }
                        }
                        None => {
                            // The rescaled right mantissa left the 128-bit
                            // range, so it is past the left one in the
                            // direction of its sign.
                            proof {
                                lemma_product_sign(m2 as int, pw as int);
                            }
                            if m2 > 0 {
                                Some(Ordering::Less)
                            } else {
                                Some(Ordering::Greater)
                            }
                        }
                    }
                } else {
                    let pw: i128 = pow10_i128((-delta) as u32);
                    match m1.checked_mul(pw) {
                        Some(rescaled) => {
                            if rescaled == m2 {
                                Some(Ordering::Equal)
                            } else if rescaled < m2 {
                                Some(Ordering::Less)
                            } else {
                                Some(Ordering::Greater)
                            }
                        }
                        None => {
                            proof {
                                lemma_product_sign(m1 as int, pw as int);
                            }
                            if m1 > 0 {
                                Some(Ordering::Greater)
                            } else {
                                Some(Ordering::Less)
                            }
                        }
                    }
                }
            }
        }
    }
}

impl vstd::std_specs::cmp::PartialOrdSpecImpl for Big {
    open spec fn obeys_partial_cmp_spec() -> bool {
        true
    }

    open spec fn partial_cmp_spec(&self, other: &Big) -> Option<Ordering> {
        spec_partial_cmp(*self, *other)
    }
}

/// A product with a positive factor keeps the other factor's sign and
/// magnitude at least.
proof fn lemma_product_sign(x: int, p: int)
    requires
        p >= 1,
    ensures
        x > 0 ==> x * p >= x,
        x < 0 ==> x * p <= x,
        x == 0 ==> x * p == 0,
{
    assert(x > 0 ==> x * p >= x) by (nonlinear_arith)
        requires
            p >= 1,
    ;
    assert(x < 0 ==> x * p <= x) by (nonlinear_arith)
        requires
            p >= 1,
    ;
}

/// The equality relation holds of a value and itself exactly when the value
/// is finite: `NaN` and the infinities are never equal, themselves included.
pub proof fn lemma_eq_reflexive_on_finite(a: Big)
    ensures
        spec_eq(a, a) == (a is Number || a is Zero),
{
}

/// Two `Number`s are always ordered: the unordered outcomes of the partial
/// order are confined to `NaN` and to a pair of equal infinities. The
/// rescaling step compares exact integers, which leaves no fourth outcome.
pub proof fn lemma_number_cmp_total(a: Big, b: Big)
    requires
        a is Number,
        b is Number,
    ensures
        spec_partial_cmp(a, b) is Some,
{
}

} // verus!
