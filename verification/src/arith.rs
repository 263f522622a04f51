//! The arithmetic engine: addition, subtraction, multiplication, division
//! and remainder, each in a raw (unnormalized) form and a normalizing form.
//!
//! Every binary operator first resolves the special states — `NaN` absorbs
//! everything, infinities follow a fixed algebra, `Zero` is the additive
//! identity — and only then runs the numeric algorithm on two `Number`s.
//!
//! For addition and subtraction a fixed cutoff of `SIG_DIGITS` exponent
//! places decides whether the smaller operand is visible at all; inside the
//! cutoff the two mantissas are combined exactly over the smaller exponent.
//! Multiplication and division combine mantissas directly (dropping digits
//! beyond the mantissa grid, toward zero) and add or subtract exponents,
//! collapsing to an infinity or to `Zero` when the exponent leaves its
//! 64-bit range.

use vstd::prelude::*;

use crate::digits::{
    pow10, pow10_i128, pow10_u128, lemma_pow10_values, lemma_pow10_increases, lemma_pow10_pos,
};
use crate::{Big, InfinityKind, spec_abs, spec_flip, spec_neg, spec_normalize, COMBINE_LIMIT,
    SCALE, SIG_DIGITS};
use vstd::arithmetic::div_mod::{
    lemma_div_is_ordered, lemma_div_nonincreasing, lemma_mod_decreases,
    lemma_mod_division_less_than_divisor,
};
use vstd::arithmetic::mul::lemma_mul_strictly_positive;

verus! {

/// Magnitude of an integer.
pub open spec fn iabs(x: int) -> int {
    if x < 0 {
        -x
    } else {
        x
    }
}

/// A product of a value bounded by `b` in magnitude and a value in
/// `[0, c]` is bounded by `b * c` in magnitude.
pub(crate) proof fn lemma_mul_bound(x: int, b: int, y: int, c: int)
    requires
        -b <= x <= b,
        0 <= y <= c,
    ensures
        -(b * c) <= x * y <= b * c,
{
    assert(-(b * c) <= x * y <= b * c) by (nonlinear_arith)
        requires
            -b <= x <= b,
            0 <= y <= c,
    ;
}

/// The raw sum, before normalization.
///
/// Special states: `NaN` absorbs; opposite infinities are undefined and give
/// `NaN` while equal ones persist; an infinity beats a finite operand;
/// `Zero` is the identity. Two `Number`s whose exponents differ by at least
/// `SIG_DIGITS` collapse to the larger-exponent operand, the other being
/// below its representable precision; otherwise both mantissas are taken to
/// the smaller exponent and added there exactly.
pub open spec fn spec_add_unnorm(a: Big, b: Big) -> Big {
    match (a, b) {
        (Big::NaN, _) => Big::NaN,
        (_, Big::NaN) => Big::NaN,
        (Big::Infinity(k), Big::Infinity(k2)) => if k == k2 {
            Big::Infinity(k)
        } else {
            Big::NaN
        },
        (Big::Infinity(k), _) => Big::Infinity(k),
        (_, Big::Infinity(k)) => Big::Infinity(k),
        (Big::Zero, other) => other,
        (other, Big::Zero) => other,
        (Big::Number { m: m1, e: e1 }, Big::Number { m: m2, e: e2 }) => {
            let delta = e2 - e1;
            if delta >= SIG_DIGITS {
                b
            } else if delta <= -SIG_DIGITS {
                a
            } else if delta >= 0 {
                Big::Number { m: (m1 + m2 * pow10(delta as nat)) as i128, e: e1 }
            } else {
                Big::Number { m: (m1 * pow10((-delta) as nat) + m2) as i128, e: e2 }
            }
        },
    }
}

/// The raw difference, before normalization.
///
/// As `spec_add_unnorm`, except: any two infinities differ undefinedly
/// (`NaN`); a finite operand minus an infinity is the opposite infinity;
/// `Zero` on the left negates; and past the cutoff the right operand
/// survives sign-flipped.
pub open spec fn spec_sub_unnorm(a: Big, b: Big) -> Big {
    match (a, b) {
        (Big::NaN, _) => Big::NaN,
        (_, Big::NaN) => Big::NaN,
        (Big::Infinity(k), Big::Infinity(k2)) => Big::NaN,
        (Big::Infinity(k), _) => Big::Infinity(k),
        (_, Big::Infinity(k)) => Big::Infinity(spec_flip(k)),
        (Big::Zero, other) => spec_neg(other),
        (other, Big::Zero) => other,
        (Big::Number { m: m1, e: e1 }, Big::Number { m: m2, e: e2 }) => {
            let delta = e2 - e1;
            if delta >= SIG_DIGITS {
                spec_neg(b)
            } else if delta <= -SIG_DIGITS {
                a
            } else if delta >= 0 {
                Big::Number { m: (m1 - m2 * pow10(delta as nat)) as i128, e: e1 }
            } else {
                Big::Number { m: (m1 * pow10((-delta) as nat) - m2) as i128, e: e2 }
            }
        },
    }
}

/// The raw product, before normalization.
///
/// Special states: `NaN` absorbs; two equal-signed infinities are declared
/// indeterminate (`NaN`), opposite-signed ones give the negative infinity;
/// an infinity times a `Number` follows the product of the signs; an
/// infinity times `Zero` is `NaN`; `Zero` absorbs any finite operand. Two
/// `Number`s multiply mantissas on the `SCALE` grid (digits beyond it are
/// dropped toward zero) and add exponents, an exponent sum beyond the
/// 64-bit range collapsing to the infinity of the product's sign or to
/// `Zero`.
pub open spec fn spec_mul_unnorm(a: Big, b: Big) -> Big {
    match (a, b) {
        (Big::NaN, _) => Big::NaN,
        (_, Big::NaN) => Big::NaN,
        (Big::Infinity(k), Big::Infinity(k2)) => if k == k2 {
            Big::NaN
        } else {
            Big::Infinity(InfinityKind::Negative)
        },
        (Big::Infinity(k), Big::Zero) => Big::NaN,
        (Big::Zero, Big::Infinity(k)) => Big::NaN,
        (Big::Infinity(k), Big::Number { m, e }) => Big::Infinity(
            if m >= 0 {
                k
            } else {
                spec_flip(k)
            },
        ),
        (Big::Number { m, e }, Big::Infinity(k)) => Big::Infinity(
            if m >= 0 {
                k
            } else {
                spec_flip(k)
            },
        ),
        (Big::Zero, _) => Big::Zero,
        (_, Big::Zero) => Big::Zero,
        (Big::Number { m: m1, e: e1 }, Big::Number { m: m2, e: e2 }) => {
            let q = (iabs(m1 as int) * iabs(m2 as int)) / (SCALE as int);
            let same_sign = (m1 < 0) == (m2 < 0);
            let esum = e1 + e2;
            if esum > i64::MAX {
                Big::Infinity(
                    if same_sign {
                        InfinityKind::Positive
                    } else {
                        InfinityKind::Negative
                    },
                )
            } else if esum < i64::MIN {
                Big::Zero
            } else {
                Big::Number { m: (if same_sign { q } else { -q }) as i128, e: esum as i64 }
            }
        },
    }
}

/// The raw quotient, before normalization.
///
/// Special states: `NaN` absorbs; an infinity over an infinity is `NaN`; a
/// finite value over an infinity is `Zero`; an infinity over a `Number` is
/// that infinity; anything over `Zero` — `Zero` over `Zero` included — is
/// `NaN`; `Zero` over a `Number` is `Zero`. Two `Number`s divide mantissas
/// on the `SCALE` grid (digits beyond it dropped toward zero) and subtract
/// exponents, with the same collapse on leaving the 64-bit exponent range
/// as multiplication.
pub open spec fn spec_div_unnorm(a: Big, b: Big) -> Big {
    match (a, b) {
        (Big::NaN, _) => Big::NaN,
        (_, Big::NaN) => Big::NaN,
        (Big::Infinity(k), Big::Infinity(k2)) => Big::NaN,
        (Big::Number { m, e }, Big::Infinity(k)) => Big::Zero,
        (Big::Zero, Big::Infinity(k)) => Big::Zero,
        (Big::Infinity(k), Big::Number { m, e }) => a,
        (_, Big::Zero) => Big::NaN,
        (Big::Zero, _) => Big::Zero,
        (Big::Number { m: m1, e: e1 }, Big::Number { m: m2, e: e2 }) => {
            let q = (iabs(m1 as int) * (SCALE as int)) / iabs(m2 as int);
            let same_sign = (m1 < 0) == (m2 < 0);
            let ediff = e1 - e2;
            if ediff > i64::MAX {
                Big::Infinity(
                    if same_sign {
                        InfinityKind::Positive
                    } else {
                        InfinityKind::Negative
                    },
                )
            } else if ediff < i64::MIN {
                Big::Zero
            } else {
                Big::Number { m: (if same_sign { q } else { -q }) as i128, e: ediff as i64 }
            }
        },
    }
}

/// The raw remainder, before normalization.
///
/// Special states: `NaN` absorbs; anything modulo `Zero` is `NaN`; `Zero`
/// modulo anything else is `Zero`; a `Number` modulo an infinity is itself;
/// an infinity modulo anything is `NaN`. For two `Number`s the divisor is
/// read at the dividend's exponent: a divisor shifted up out of reach
/// leaves the dividend unchanged, one shifted below the mantissa grid
/// vanishes and takes the result to zero, and in between the remainder is
/// exact, carrying the dividend's sign as a truncating remainder does.
pub open spec fn spec_rem_unnorm(a: Big, b: Big) -> Big {
    match (a, b) {
        (Big::NaN, _) => Big::NaN,
        (_, Big::NaN) => Big::NaN,
        (_, Big::Zero) => Big::NaN,
        (Big::Zero, _) => Big::Zero,
        (Big::Infinity(k), Big::Infinity(k2)) => Big::NaN,
        (Big::Number { m, e }, Big::Infinity(k)) => a,
        (Big::Infinity(k), Big::Number { m, e }) => Big::NaN,
        (Big::Number { m: m1, e: e1 }, Big::Number { m: m2, e: e2 }) => {
            if m2 == 0 {
                Big::Number { m: 0, e: e1 }
            } else {
                let delta = e2 - e1;
                if delta >= 20 {
                    a
                } else if delta >= 0 {
                    let r = iabs(m1 as int) % (iabs(m2 as int) * pow10(delta as nat));
                    Big::Number { m: (if m1 < 0 { -r } else { r }) as i128, e: e1 }
                } else if delta >= -19 {
                    let r = (iabs(m1 as int) * pow10((-delta) as nat)) % iabs(m2 as int);
                    Big::Number { m: (if m1 < 0 { -r } else { r }) as i128, e: e2 }
                } else {
                    Big::Number { m: 0, e: e1 }
                }
            }
        },
    }
}

/// The normalized sum.
pub open spec fn spec_add(a: Big, b: Big) -> Big {
    spec_normalize(spec_add_unnorm(a, b))
}

/// The normalized difference.
pub open spec fn spec_sub(a: Big, b: Big) -> Big {
    spec_normalize(spec_sub_unnorm(a, b))
}

/// The normalized product.
pub open spec fn spec_mul(a: Big, b: Big) -> Big {
    spec_normalize(spec_mul_unnorm(a, b))
}

/// The normalized quotient.
pub open spec fn spec_div(a: Big, b: Big) -> Big {
    spec_normalize(spec_div_unnorm(a, b))
}

/// The normalized remainder.
pub open spec fn spec_rem(a: Big, b: Big) -> Big {
    spec_normalize(spec_rem_unnorm(a, b))
}

impl Big {
    /// Add `rhs` onto `self` without normalizing the result.
    ///
    /// The caller must call [`Big::normalize`] before the value is compared,
    /// tested for equality, or displayed.
    pub fn add_mut_unnormalized(&mut self, rhs: Big)
        requires
            old(self).is_combinable(),
            rhs.is_combinable(),
        ensures
            *final(self) == spec_add_unnorm(*old(self), rhs),
            final(self).is_raw(),
    {
        let a = *self;
        match (a, rhs) {
            (Big::NaN, _) | (_, Big::NaN) => {
                *self = Big::NaN;
            }
            (Big::Infinity(k), Big::Infinity(k2)) => {
                if k != k2 {
                    *self = Big::NaN;
                }
            }
            (Big::Infinity(_), _) => {}
            (_, Big::Infinity(k)) => {
                *self = Big::Infinity(k);
            }
            (Big::Zero, other) => {
                *self = other;
            }
            (_, Big::Zero) => {}
            (Big::Number { m: m1, e: e1 }, Big::Number { m: m2, e: e2 }) => {
                let delta: i128 = e2 as i128 - e1 as i128;
                if delta >= SIG_DIGITS as i128 {
                    *self = rhs;
                } else if delta <= -(SIG_DIGITS as i128) {
                } else if delta >= 0 {
                    let pw: i128 = pow10_i128(delta as u32);
                    proof {
                        lemma_pow10_values();
                        lemma_pow10_increases(delta as nat, 14);
                        lemma_mul_bound(m2 as int, COMBINE_LIMIT as int, pw as int, pow10(14));
                    }
                    *self = Big::Number { m: m1 + m2 * pw, e: e1 };
                } else {
                    let pw: i128 = pow10_i128((-delta) as u32);
                    proof {
                        lemma_pow10_values();
                        lemma_pow10_increases((-delta) as nat, 14);
                        lemma_mul_bound(m1 as int, COMBINE_LIMIT as int, pw as int, pow10(14));
                    }
                    *self = Big::Number { m: m1 * pw + m2, e: e2 };
                }
            }
        }
    }

    /// Subtract `rhs` from `self` without normalizing the result.
    ///
    /// The caller must call [`Big::normalize`] before the value is compared,
    /// tested for equality, or displayed.
    pub fn sub_mut_unnormalized(&mut self, rhs: Big)
        requires
            old(self).is_combinable(),
            rhs.is_combinable(),
        ensures
            *final(self) == spec_sub_unnorm(*old(self), rhs),
            final(self).is_raw(),
    {
        let a = *self;
        match (a, rhs) {
            (Big::NaN, _) | (_, Big::NaN) => {
                *self = Big::NaN;
            }
            (Big::Infinity(_), Big::Infinity(_)) => {
                *self = Big::NaN;
            }
            (Big::Infinity(_), _) => {}
            (_, Big::Infinity(InfinityKind::Positive)) => {
                *self = Big::Infinity(InfinityKind::Negative);
            }
            (_, Big::Infinity(InfinityKind::Negative)) => {
                *self = Big::Infinity(InfinityKind::Positive);
            }
            (Big::Zero, other) => {
                let mut negated = other;
                negated.neg_mut();
                *self = negated;
            }
            (_, Big::Zero) => {}
            (Big::Number { m: m1, e: e1 }, Big::Number { m: m2, e: e2 }) => {
                let delta: i128 = e2 as i128 - e1 as i128;
                if delta >= SIG_DIGITS as i128 {
                    let mut negated = rhs;
                    negated.neg_mut();
                    *self = negated;
                } else if delta <= -(SIG_DIGITS as i128) {
                } else if delta >= 0 {
                    let pw: i128 = pow10_i128(delta as u32);
                    proof {
                        lemma_pow10_values();
                        lemma_pow10_increases(delta as nat, 14);
                        lemma_mul_bound(m2 as int, COMBINE_LIMIT as int, pw as int, pow10(14));
                    }
                    *self = Big::Number { m: m1 - m2 * pw, e: e1 };
                } else {
                    let pw: i128 = pow10_i128((-delta) as u32);
                    proof {
                        lemma_pow10_values();
                        lemma_pow10_increases((-delta) as nat, 14);
                        lemma_mul_bound(m1 as int, COMBINE_LIMIT as int, pw as int, pow10(14));
                    }
                    *self = Big::Number { m: m1 * pw - m2, e: e2 };
                }
            }
        }
    }

    /// Multiply `rhs` onto `self` without normalizing the result.
    ///
    /// The caller must call [`Big::normalize`] before the value is compared,
    /// tested for equality, or displayed.
    pub fn mul_mut_unnormalized(&mut self, rhs: Big)
        requires
            old(self).is_combinable(),
            rhs.is_combinable(),
        ensures
            *final(self) == spec_mul_unnorm(*old(self), rhs),
            final(self).is_raw(),
    {
        let a = *self;
        match (a, rhs) {
            (Big::NaN, _) | (_, Big::NaN) => {
                *self = Big::NaN;
            }
            (Big::Infinity(k), Big::Infinity(k2)) => {
                *self = if k != k2 {
                    Big::Infinity(InfinityKind::Negative)
                } else {
                    Big::NaN
                };
            }
            (Big::Infinity(_), Big::Zero) | (Big::Zero, Big::Infinity(_)) => {
                *self = Big::NaN;
            }
            (Big::Infinity(k), Big::Number { m, .. }) => {
                *self = Big::Infinity(
                    if m >= 0 {
                        k
                    } else {
                        crate::flip_kind(k)
                    },
                );
            }
            (Big::Number { m, .. }, Big::Infinity(k)) => {
                *self = Big::Infinity(
                    if m >= 0 {
                        k
                    } else {
                        crate::flip_kind(k)
                    },
                );
            }
            (Big::Zero, _) => {}
            (_, Big::Zero) => {
                *self = Big::Zero;
            }
            (Big::Number { m: m1, e: e1 }, Big::Number { m: m2, e: e2 }) => {
                let am1: u128 = if m1 < 0 {
                    (-m1) as u128
                } else {
                    m1 as u128
                };
                let am2: u128 = if m2 < 0 {
                    (-m2) as u128
                } else {
                    m2 as u128
                };
                proof {
                    lemma_mul_bound(am1 as int, COMBINE_LIMIT as int, am2 as int,
                        COMBINE_LIMIT as int);
                    lemma_div_is_ordered(
                        (am1 * am2) as int,
                        COMBINE_LIMIT as int * COMBINE_LIMIT as int,
                        SCALE as int,
                    );
                }
                let q: u128 = (am1 * am2) / (SCALE as u128);
                let mm: i128 = if (m1 < 0) == (m2 < 0) {
                    q as i128
                } else {
                    -(q as i128)
                };
                let esum: i128 = e1 as i128 + e2 as i128;
                if esum > i64::MAX as i128 {
                    *self = Big::Infinity(
                        if (m1 < 0) == (m2 < 0) {
                            InfinityKind::Positive
                        } else {
                            InfinityKind::Negative
                        },
                    );
                } else if esum < i64::MIN as i128 {
                    *self = Big::Zero;
                } else {
                    *self = Big::Number { m: mm, e: esum as i64 };
                }
            }
        }
    }

    /// Divide `self` by `rhs` without normalizing the result.
    ///
    /// A `Number` divisor must carry a nonzero mantissa: the mantissa grid
    /// has no value that could stand for the infinite quotient. (A
    /// normalized divisor always qualifies; an exact zero is the `Zero`
    /// state, whose quotient is `NaN`.)
    ///
    /// The caller must call [`Big::normalize`] before the value is compared,
    /// tested for equality, or displayed.
    pub fn div_mut_unnormalized(&mut self, rhs: Big)
        requires
            old(self).is_combinable(),
            rhs.is_combinable(),
            rhs matches Big::Number { m, e } ==> m != 0,
        ensures
            *final(self) == spec_div_unnorm(*old(self), rhs),
            final(self).is_raw(),
    {
        let a = *self;
        match (a, rhs) {
            (Big::NaN, _) | (_, Big::NaN) => {
                *self = Big::NaN;
            }
            (Big::Infinity(_), Big::Infinity(_)) => {
                *self = Big::NaN;
            }
            (Big::Number { .. }, Big::Infinity(_)) | (Big::Zero, Big::Infinity(_)) => {
                *self = Big::Zero;
            }
            (Big::Infinity(_), Big::Number { .. }) => {}
            (_, Big::Zero) => {
                *self = Big::NaN;
            }
            (Big::Zero, _) => {}
            (Big::Number { m: m1, e: e1 }, Big::Number { m: m2, e: e2 }) => {
                let am1: u128 = if m1 < 0 {
                    (-m1) as u128
                } else {
                    m1 as u128
                };
                let am2: u128 = if m2 < 0 {
                    (-m2) as u128
                } else {
                    m2 as u128
                };
                proof {
                    lemma_mul_bound(am1 as int, COMBINE_LIMIT as int, SCALE as int, SCALE as int);
                    lemma_div_nonincreasing((am1 * (SCALE as u128)) as int, am2 as int);
                }
                let q: u128 = (am1 * (SCALE as u128)) / am2;
                let mm: i128 = if (m1 < 0) == (m2 < 0) {
                    q as i128
                } else {
                    -(q as i128)
                };
                let ediff: i128 = e1 as i128 - e2 as i128;
                if ediff > i64::MAX as i128 {
                    *self = Big::Infinity(
                        if (m1 < 0) == (m2 < 0) {
                            InfinityKind::Positive
                        } else {
                            InfinityKind::Negative
                        },
                    );
                } else if ediff < i64::MIN as i128 {
                    *self = Big::Zero;
                } else {
                    *self = Big::Number { m: mm, e: ediff as i64 };
                }
            }
        }
    }

    /// Put the remainder of `self % rhs` into `self` without normalizing
    /// the result.
    ///
    /// The caller must call [`Big::normalize`] before the value is compared,
    /// tested for equality, or displayed.
    pub fn remainder_mut_unnormalized(&mut self, rhs: &Big)
        requires
            old(self).is_combinable(),
            rhs.is_combinable(),
        ensures
            *final(self) == spec_rem_unnorm(*old(self), *rhs),
            final(self).is_raw(),
    {
        let a = *self;
        match (a, *rhs) {
            (Big::NaN, _) | (_, Big::NaN) => {
                *self = Big::NaN;
            }
            (_, Big::Zero) => {
                *self = Big::NaN;
            }
            (Big::Zero, _) => {}
            (Big::Infinity(_), Big::Infinity(_)) => {
                *self = Big::NaN;
            }
            (Big::Number { .. }, Big::Infinity(_)) => {}
            (Big::Infinity(_), Big::Number { .. }) => {
                *self = Big::NaN;
            }
            (Big::Number { m: m1, e: e1 }, Big::Number { m: m2, e: e2 }) => {
                if m2 == 0 {
                    *self = Big::Number { m: 0, e: e1 };
                    return;
                }
                let delta: i128 = e2 as i128 - e1 as i128;
                let am1: u128 = if m1 < 0 {
                    (-m1) as u128
                } else {
                    m1 as u128
                };
                let am2: u128 = if m2 < 0 {
                    (-m2) as u128
                } else {
                    m2 as u128
                };
                if delta >= 20 {
                } else if delta >= 0 {
                    let pw: u128 = pow10_u128(delta as u32);
                    proof {
                        lemma_pow10_values();
                        lemma_pow10_increases(delta as nat, 19);
                        lemma_pow10_pos(delta as nat);
                        lemma_mul_bound(am2 as int, COMBINE_LIMIT as int, pw as int, pow10(19));
                        lemma_mul_strictly_positive(am2 as int, pw as int);
                        lemma_mod_decreases(am1 as nat, (am2 * pw) as nat);
                    }
                    let r: u128 = am1 % (am2 * pw);
                    let mr: i128 = if m1 < 0 {
                        -(r as i128)
                    } else {
                        r as i128
                    };
                    *self = Big::Number { m: mr, e: e1 };
                } else if delta >= -19 {
                    let pw: u128 = pow10_u128((-delta) as u32);
                    proof {
                        lemma_pow10_values();
                        lemma_pow10_increases((-delta) as nat, 19);
                        lemma_mul_bound(am1 as int, COMBINE_LIMIT as int, pw as int, pow10(19));
                        lemma_mod_division_less_than_divisor((am1 * pw) as int, am2 as int);
                    }
                    let r: u128 = (am1 * pw) % am2;
                    let mr: i128 = if m1 < 0 {
                        -(r as i128)
                    } else {
                        r as i128
                    };
                    *self = Big::Number { m: mr, e: e2 };
                } else {
                    *self = Big::Number { m: 0, e: e1 };
                }
            }
        }
    }

    /// `self *= rhs`: the raw combination followed by normalization.
    pub fn mul_assign(&mut self, rhs: Big)
        requires
            old(self).is_combinable(),
            rhs.is_combinable(),
        ensures
            *final(self) == spec_mul(*old(self), rhs),
            final(self).is_wf(),
    {
        self.mul_mut_unnormalized(rhs);
        self.normalize();
    }

    /// The normalized product `self * rhs`.
    pub fn mul(self, rhs: Big) -> (r: Big)
        requires
            self.is_combinable(),
            rhs.is_combinable(),
        ensures
            r == spec_mul(self, rhs),
            r.is_wf(),
    {
        let mut result = self;
        result.mul_assign(rhs);
        result
    }

    /// `self /= rhs`: the raw combination followed by normalization.
    pub fn div_assign(&mut self, rhs: Big)
        requires
            old(self).is_combinable(),
            rhs.is_combinable(),
            rhs matches Big::Number { m, e } ==> m != 0,
        ensures
            *final(self) == spec_div(*old(self), rhs),
            final(self).is_wf(),
    {
        self.div_mut_unnormalized(rhs);
        self.normalize();
    }

    /// The normalized quotient `self / rhs`.
    pub fn div(self, rhs: Big) -> (r: Big)
        requires
            self.is_combinable(),
            rhs.is_combinable(),
            rhs matches Big::Number { m, e } ==> m != 0,
        ensures
            r == spec_div(self, rhs),
            r.is_wf(),
    {
        let mut result = self;
        result.div_assign(rhs);
        result
    }

    /// `self %= rhs`: the raw combination followed by normalization.
    pub fn rem_assign(&mut self, rhs: Big)
        requires
            old(self).is_combinable(),
            rhs.is_combinable(),
        ensures
            *final(self) == spec_rem(*old(self), rhs),
            final(self).is_wf(),
    {
        self.remainder_mut_unnormalized(&rhs);
        self.normalize();
    }

    /// The normalized remainder `self % rhs`.
    pub fn rem(self, rhs: Big) -> (r: Big)
        requires
            self.is_combinable(),
            rhs.is_combinable(),
        ensures
            r == spec_rem(self, rhs),
            r.is_wf(),
    {
        let mut result = self;
        result.rem_assign(rhs);
        result
    }

    /// `self += rhs`: the raw combination followed by normalization.
    pub fn add_assign(&mut self, rhs: Big)
        requires
            old(self).is_combinable(),
            rhs.is_combinable(),
        ensures
            *final(self) == spec_add(*old(self), rhs),
            final(self).is_wf(),
    {
        self.add_mut_unnormalized(rhs);
        self.normalize();
    }

    /// The normalized sum `self + rhs`.
    pub fn add(self, rhs: Big) -> (r: Big)
        requires
            self.is_combinable(),
            rhs.is_combinable(),
        ensures
            r == spec_add(self, rhs),
            r.is_wf(),
    {
        let mut result = self;
        result.add_assign(rhs);
        result
    }

    /// `self -= rhs`: the raw combination followed by normalization.
    pub fn sub_assign(&mut self, rhs: Big)
        requires
            old(self).is_combinable(),
            rhs.is_combinable(),
        ensures
            *final(self) == spec_sub(*old(self), rhs),
            final(self).is_wf(),
    {
        self.sub_mut_unnormalized(rhs);
        self.normalize();
    }

    /// The normalized difference `self - rhs`.
    pub fn sub(self, rhs: Big) -> (r: Big)
        requires
            self.is_combinable(),
            rhs.is_combinable(),
        ensures
            r == spec_sub(self, rhs),
            r.is_wf(),
    {
        let mut result = self;
        result.sub_assign(rhs);
        result
    }
}

/// Addition is commutative: the raw sums — and so the normalized sums — of
/// `a + b` and `b + a` are one and the same value, whatever the operands'
/// states.
pub proof fn lemma_add_commutes(a: Big, b: Big)
    ensures
        spec_add_unnorm(a, b) == spec_add_unnorm(b, a),
        spec_add(a, b) == spec_add(b, a),
{
    match (a, b) {
        (Big::Number { m: m1, e: e1 }, Big::Number { m: m2, e: e2 }) => {
            vstd::arithmetic::power::lemma_pow0(10);
            let delta = e2 - e1;
            if delta >= SIG_DIGITS {
                assert(spec_add_unnorm(a, b) == b);
                assert(spec_add_unnorm(b, a) == b);
            } else if delta <= -SIG_DIGITS {
                assert(spec_add_unnorm(a, b) == a);
                assert(spec_add_unnorm(b, a) == a);
            } else if delta == 0 {
                assert(m1 + m2 * pow10(0) == m2 + m1 * pow10(0));
            } else if delta > 0 {
                assert(spec_add_unnorm(a, b) ==
                    (Big::Number { m: (m1 + m2 * pow10(delta as nat)) as i128, e: e1 }));
                assert(spec_add_unnorm(b, a) ==
                    (Big::Number { m: (m2 * pow10(delta as nat) + m1) as i128, e: e1 }));
            } else {
                assert(spec_add_unnorm(a, b) ==
                    (Big::Number { m: (m1 * pow10((-delta) as nat) + m2) as i128, e: e2 }));
                assert(spec_add_unnorm(b, a) ==
                    (Big::Number { m: (m2 + m1 * pow10((-delta) as nat)) as i128, e: e2 }));
            }
        }
        _ => {
            assert(spec_add_unnorm(a, b) == spec_add_unnorm(b, a));
        }
    }
}

/// Multiplication is commutative: the raw products — and so the normalized
/// products — of `a * b` and `b * a` are one and the same value, whatever
/// the operands' states.
pub proof fn lemma_mul_commutes(a: Big, b: Big)
    ensures
        spec_mul_unnorm(a, b) == spec_mul_unnorm(b, a),
        spec_mul(a, b) == spec_mul(b, a),
{
    match (a, b) {
        (Big::Number { m: m1, e: e1 }, Big::Number { m: m2, e: e2 }) => {
            assert(iabs(m1 as int) * iabs(m2 as int) == iabs(m2 as int) * iabs(m1 as int));
            assert(((m1 < 0) == (m2 < 0)) == ((m2 < 0) == (m1 < 0)));
        }
        _ => {}
    }
}

/// `Zero` is the additive identity: adding `Zero` to any value that is not
/// `NaN`, on either side, gives that value back.
pub proof fn lemma_add_zero_identity(a: Big)
    requires
        a.is_wf(),
        !(a is NaN),
    ensures
        spec_add(a, Big::Zero) == a,
        spec_add(Big::Zero, a) == a,
{
    crate::lemma_normalize_idempotent(a);
}

/// `Zero` absorbs any finite factor: a `Number` or `Zero` times `Zero`, on
/// either side, is `Zero`.
pub proof fn lemma_mul_zero_absorbs(a: Big)
    requires
        a is Number || a is Zero,
    ensures
        spec_mul(a, Big::Zero) == Big::Zero,
        spec_mul(Big::Zero, a) == Big::Zero,
{
}

/// `NaN` absorbs: every arithmetic operator applied to a `NaN` operand
/// yields `NaN`, and `NaN` is its own negation and absolute value.
pub proof fn lemma_nan_absorbs(a: Big, b: Big)
    requires
        a is NaN || b is NaN,
    ensures
        spec_add(a, b) is NaN,
        spec_sub(a, b) is NaN,
        spec_mul(a, b) is NaN,
        spec_div(a, b) is NaN,
        spec_rem(a, b) is NaN,
        spec_neg(Big::NaN) == Big::NaN,
        spec_abs(Big::NaN) == Big::NaN,
{
}

/// The infinity algebra: opposite infinities cancel to `NaN` in addition
/// and equal ones persist; subtracting infinities is always undefined; the
/// product of equal-signed infinities is declared indeterminate while
/// opposite signs give the negative infinity; an infinity times `Zero` and
/// a quotient of two infinities are undefined.
pub proof fn lemma_infinity_algebra(k: InfinityKind, k2: InfinityKind)
    ensures
        spec_add(Big::Infinity(k), Big::Infinity(k2)) == (if k == k2 {
            Big::Infinity(k)
        } else {
            Big::NaN
        }),
        spec_sub(Big::Infinity(k), Big::Infinity(k2)) is NaN,
        spec_mul(Big::Infinity(k), Big::Infinity(k2)) == (if k == k2 {
            Big::NaN
        } else {
            Big::Infinity(InfinityKind::Negative)
        }),
        spec_div(Big::Infinity(k), Big::Infinity(k2)) is NaN,
        spec_mul(Big::Infinity(k), Big::Zero) is NaN,
        spec_mul(Big::Zero, Big::Infinity(k)) is NaN,
{
}

/// A remainder's sign follows the dividend: whenever the raw remainder of
/// two `Number`s is itself a `Number`, its mantissa is zero or carries the
/// dividend's sign.
pub proof fn lemma_rem_sign(a: Big, b: Big)
    requires
        a is Number,
        b is Number,
        a.is_combinable(),
        b.is_combinable(),
    ensures
        spec_rem_unnorm(a, b) matches Big::Number { m, e } ==> (m == 0 || ((m < 0) == (
        a->Number_m < 0))),
{
    match (a, b) {
        (Big::Number { m: m1, e: e1 }, Big::Number { m: m2, e: e2 }) => {
            if m2 != 0 {
                let delta = e2 - e1;
                lemma_pow10_values();
                if 0 <= delta <= 19 {
                    lemma_pow10_pos(delta as nat);
                    lemma_pow10_increases(delta as nat, 19);
                    lemma_mul_strictly_positive(iabs(m2 as int), pow10(delta as nat));
                    lemma_mul_bound(iabs(m2 as int), COMBINE_LIMIT as int, pow10(delta as nat),
                        pow10(19));
                    vstd::arithmetic::div_mod::lemma_mod_division_less_than_divisor(
                        iabs(m1 as int),
                        iabs(m2 as int) * pow10(delta as nat),
                    );
                } else if -19 <= delta <= -1 {
                    lemma_pow10_pos((-delta) as nat);
                    vstd::arithmetic::div_mod::lemma_mod_division_less_than_divisor(
                        iabs(m1 as int) * pow10((-delta) as nat),
                        iabs(m2 as int),
                    );
                }
            }
        }
        _ => {}
    }
}

/// A `Zero` divisor is undefined: dividing anything by `Zero`, or taking
/// any remainder modulo `Zero`, yields `NaN` — `Zero` over `Zero` included.
pub proof fn lemma_zero_divisor(a: Big)
    ensures
        spec_div(a, Big::Zero) is NaN,
        spec_rem(a, Big::Zero) is NaN,
{
}

} // verus!
