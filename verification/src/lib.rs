//! A big-number value type: a decimal mantissa of fifteen significant digits
//! paired with a 64-bit power-of-ten exponent, so that magnitudes far beyond
//! the reach of a native floating-point number can be represented and
//! combined with ordinary arithmetic.
//!
//! A finite nonzero value is `Big::Number { m, e }`, standing for
//! `(m / SCALE) * 10^e`. The mantissa `m` is a scaled decimal integer: the
//! canonical (normalized) range is `SCALE <= |m| < 10 * SCALE`, which makes
//! the mantissa's value lie in `[1, 10)` with the sign carried by `m`.
//! The remaining states are `Zero` (the only representation of zero), `NaN`
//! (never equal to anything, itself included), and a signed `Infinity`.

use vstd::prelude::*;

pub mod arith;
pub mod comparison;
pub mod conversion;
pub mod digits;
pub mod fmt;

verus! {

use crate::digits::{
    pow10, spec_digits, pow10_u128, digits_u128, lemma_digits_bounds, lemma_digits_unique,
    lemma_pow10_values, lemma_pow10_increases, lemma_pow10_adds, lemma_pow10_pos,
};
use vstd::arithmetic::div_mod::{
    lemma_div_is_ordered, lemma_div_multiples_vanish, lemma_multiply_divide_lt,
};
use vstd::arithmetic::mul::{lemma_mul_inequality, lemma_mul_is_distributive_add_other_way};

/// Number of mantissa units per mantissa value of one: a canonical mantissa
/// `m` stands for the value `m / SCALE`, which lies in `[1, 10)`.
pub const SCALE: i128 = 100_000_000_000_000;

/// Significant decimal digits carried by a mantissa. An exponent gap of at
/// least this many digits makes the smaller operand of an addition invisible.
pub const SIG_DIGITS: i64 = 15;

/// Largest mantissa magnitude accepted by `normalize` and the raw
/// constructors (ten to the 34th). It admits every 64-bit integer scaled by
/// `SCALE`, while keeping all intermediate arithmetic inside an `i128`.
pub const RAW_LIMIT: i128 = 10_000_000_000_000_000_000_000_000_000_000_000;

/// Largest mantissa magnitude the raw combining steps accept (ten to the
/// 19th). Any one unnormalized combination of two such operands stays inside
/// an `i128` and below `RAW_LIMIT`, so its result can always be normalized;
/// chaining several combinations without normalizing needs the intermediate
/// mantissas to stay under this bound.
pub const COMBINE_LIMIT: i128 = 10_000_000_000_000_000_000;

/// Sign of an infinite value.
#[derive(Clone, Copy, Debug, PartialEq, Eq, Structural)]
pub enum InfinityKind {
    Positive,
    Negative,
}

/// The big-number type: one of four mutually exclusive states.
#[derive(Clone, Copy, Debug)]
pub enum Big {
    /// A finite nonzero value `(m / SCALE) * 10^e`.
    Number { m: i128, e: i64 },
    /// Not a number; never equal to anything, itself included.
    NaN,
    /// Positive or negative infinity.
    Infinity(InfinityKind),
    /// The unique representation of zero.
    Zero,
}

/// The positive-infinity value, for direct use and comparison.
pub fn pos_infinity() -> (r: Big)
    ensures
        r == Big::Infinity(InfinityKind::Positive),
{
    Big::Infinity(InfinityKind::Positive)
}

/// The negative-infinity value, for direct use and comparison.
pub fn neg_infinity() -> (r: Big)
    ensures
        r == Big::Infinity(InfinityKind::Negative),
{
    Big::Infinity(InfinityKind::Negative)
}

/// The opposite sign.
pub open spec fn spec_flip(k: InfinityKind) -> InfinityKind {
    match k {
        InfinityKind::Positive => InfinityKind::Negative,
        InfinityKind::Negative => InfinityKind::Positive,
    }
}

/// Negation: flip a mantissa's or an infinity's sign; `Zero` and `NaN` are
/// their own opposites.
pub open spec fn spec_neg(v: Big) -> Big {
    match v {
        Big::Number { m, e } => Big::Number { m: (-m) as i128, e },
        Big::Infinity(k) => Big::Infinity(spec_flip(k)),
        _ => v,
    }
}

/// Absolute value: make the mantissa nonnegative; every other state is kept,
/// a negative infinity included.
pub open spec fn spec_abs(v: Big) -> Big {
    match v {
        Big::Number { m, e } => Big::Number { m: (if m < 0 { -m } else { m as int }) as i128, e },
        _ => v,
    }
}

/// The canonical form of a raw mantissa/exponent pair.
///
/// A zero mantissa collapses to `Zero`. Otherwise a provisional magnitude
/// order `p` (the order truncated toward zero) tests whether shifting the
/// exponent would leave the 64-bit range: shifting below it gives `Zero`,
/// above it the infinity of the mantissa's sign. When the shift fits, the
/// exact order `f` (the order rounded toward minus infinity, one below `p`
/// for a fractional mantissa magnitude that is not a power of ten) rescales
/// the mantissa to fifteen digits — dropping digits beyond the fifteenth —
/// and moves the exponent by `f`; the one extra underflow this finer shift
/// can meet also gives `Zero`.
pub open spec fn spec_normalize_parts(m: int, e: int) -> Big {
    if m == 0 {
        Big::Zero
    } else {
        let a = if m < 0 { -m } else { m };
        let d = crate::digits::spec_digits(a as nat) as int;
        let f = d - 15;
        let p = if a >= SCALE || a == crate::digits::pow10((d - 1) as nat) {
            f
        } else {
            f + 1
        };
        if p <= 0 && e + p < i64::MIN {
            Big::Zero
        } else if p > 0 && e + p > i64::MAX {
            if m > 0 {
                Big::Infinity(InfinityKind::Positive)
            } else {
                Big::Infinity(InfinityKind::Negative)
            }
        } else if e + f < i64::MIN {
            Big::Zero
        } else {
            let a2 = if f >= 0 {
                a / crate::digits::pow10(f as nat)
            } else {
                a * crate::digits::pow10((-f) as nat)
            };
            Big::Number { m: (if m > 0 { a2 } else { -a2 }) as i128, e: (e + f) as i64 }
        }
    }
}

/// Normalization of a value: a raw `Number` is forced into canonical form;
/// the three special states are already canonical.
pub open spec fn spec_normalize(v: Big) -> Big {
    match v {
        Big::Number { m, e } => spec_normalize_parts(m as int, e as int),
        _ => v,
    }
}

/// Normalization is idempotent: normalizing a value that is already in
/// canonical form leaves it unchanged.
pub proof fn lemma_normalize_idempotent(v: Big)
    requires
        v.is_wf(),
    ensures
        spec_normalize(v) == v,
{
    match v {
        Big::Number { m, e } => {
            lemma_pow10_values();
            let a = if m < 0 { -m as int } else { m as int };
            lemma_digits_unique(a as nat, 15);
            vstd::arithmetic::power::lemma_pow0(10);
            vstd::arithmetic::div_mod::lemma_div_basics(a);
        }
        _ => {}
    }
}

/// The opposite sign, computed.
pub(crate) fn flip_kind(k: InfinityKind) -> (r: InfinityKind)
    ensures
        r == spec_flip(k),
{
    match k {
        InfinityKind::Positive => InfinityKind::Negative,
        InfinityKind::Negative => InfinityKind::Positive,
    }
}

impl Big {
    /// A canonical mantissa: fifteen digits, value in `[1, 10)` in magnitude.
    pub open spec fn is_canonical_m(m: int) -> bool {
        SCALE <= m < 10 * SCALE || -10 * SCALE < m <= -SCALE
    }

    /// Well-formed: every `Number` carries a canonical mantissa. This is the
    /// state every public operation returns and most expect.
    pub open spec fn is_wf(self) -> bool {
        match self {
            Big::Number { m, e } => Big::is_canonical_m(m as int),
            _ => true,
        }
    }

    /// A raw (possibly unnormalized) value: the mantissa merely fits the
    /// range that keeps all internal arithmetic inside an `i128`.
    pub open spec fn is_raw(self) -> bool {
        match self {
            Big::Number { m, e } => -RAW_LIMIT <= m <= RAW_LIMIT,
            _ => true,
        }
    }

    /// A value whose mantissa is small enough to go through one raw
    /// combining step. Every well-formed value qualifies.
    pub open spec fn is_combinable(self) -> bool {
        match self {
            Big::Number { m, e } => -COMBINE_LIMIT <= m <= COMBINE_LIMIT,
            _ => true,
        }
    }

    /// Create a new value from a raw mantissa (in `SCALE` units) and a
    /// power-of-ten exponent, normalized so every invariant holds.
    pub fn new(mantissa: i128, exponent: i64) -> (r: Big)
        requires
            -RAW_LIMIT <= mantissa <= RAW_LIMIT,
        ensures
            r == spec_normalize_parts(mantissa as int, exponent as int),
            r.is_wf(),
    {
        let mut number = Big::Number { m: mantissa, e: exponent };
        number.normalize();
        number
    }

    /// Create a new value from a raw mantissa and exponent, skipping
    /// normalization. The caller must call [`Big::normalize`] before the
    /// value is compared, tested for equality, or displayed.
    pub fn new_unnormalized(mantissa: i128, exponent: i64) -> (r: Big)
        requires
            -RAW_LIMIT <= mantissa <= RAW_LIMIT,
        ensures
            r == (Big::Number { m: mantissa, e: exponent }),
            r.is_raw(),
    {
        Big::Number { m: mantissa, e: exponent }
    }

    /// Force `self` into canonical form: a `Number`'s mantissa is rescaled
    /// to fifteen digits (collapsing to `Zero` or an `Infinity` when the
    /// exponent shift would leave the 64-bit range), a zero mantissa becomes
    /// `Zero`, and the three special states are left unchanged.
    ///
    /// Unless an `_unnormalized` method produced the value, this never needs
    /// calling by hand.
    pub fn normalize(&mut self)
        requires
            old(self).is_raw(),
        ensures
            *final(self) == spec_normalize(*old(self)),
            final(self).is_wf(),
            old(self).is_wf() ==> *final(self) == *old(self),
    {
        proof {
            if old(self).is_wf() {
                lemma_normalize_idempotent(*old(self));
            }
        }
        let (m, e): (i128, i64) = match *self {
            Big::Infinity(_) | Big::NaN | Big::Zero => {
                return;
            }
            Big::Number { m, e } => (m, e),
        };
        if m == 0 {
            *self = Big::Zero;
            return;
        }
        let neg: bool = m < 0;
        let a: u128 = if neg {
            (-m) as u128
        } else {
            m as u128
        };
        let d: u32 = digits_u128(a);
        proof {
            lemma_digits_bounds(a as nat);
            lemma_pow10_values();
            if d > 35 {
                lemma_pow10_increases(35, (d - 1) as nat);
                lemma_pow10_adds(34, 1);
            }
            if d >= 15 {
                lemma_pow10_increases(14, (d - 1) as nat);
            } else {
                lemma_pow10_increases(d as nat, 14);
            }
        }
        // Provisional order, truncated toward zero: one above the exact
        // order for a fractional magnitude that is not a power of ten.
        let p: i64 = if d >= 15 {
            d as i64 - 15
        } else {
            let pw: u128 = pow10_u128(d - 1);
            if a == pw {
                d as i64 - 15
            } else {
                d as i64 - 14
            }
        };
        // Guard the exponent shift with the cheap provisional order before
        // rescaling anything.
        if p <= 0 {
            if e.checked_add(p).is_none() {
                *self = Big::Zero;
                return;
            }
        } else {
            if e.checked_add(p).is_none() {
                *self = if neg {
                    Big::Infinity(InfinityKind::Negative)
                } else {
                    Big::Infinity(InfinityKind::Positive)
                };
                return;
            }
        }
        // The exact order; its shift can only underflow, by at most one
        // below the provisional test.
        let f: i64 = d as i64 - 15;
        let e2: i64 = match e.checked_add(f) {
            None => {
                *self = Big::Zero;
                return;
            }
            Some(x) => x,
        };
        let a2: u128 = if d >= 15 {
            let pw: u128 = pow10_u128(d - 15);
            proof {
                lemma_pow10_pos((d - 15) as nat);
                lemma_pow10_adds((d - 15) as nat, 14);
                lemma_pow10_adds((d - 15) as nat, 15);
                lemma_div_is_ordered(pow10((d - 1) as nat), a as int, pow10((d - 15) as nat));
                lemma_div_multiples_vanish(pow10(14), pow10((d - 15) as nat));
                lemma_multiply_divide_lt(a as int, pow10((d - 15) as nat), pow10(15));
                assert(SCALE <= a as int / pow10((d - 15) as nat) < 10 * SCALE);
            }
            a / pw
        } else {
            let pw: u128 = pow10_u128(15 - d);
            proof {
                lemma_pow10_pos((15 - d) as nat);
                lemma_pow10_adds((d - 1) as nat, (15 - d) as nat);
                lemma_pow10_adds(d as nat, (15 - d) as nat);
                lemma_mul_inequality(pow10((d - 1) as nat), a as int, pow10((15 - d) as nat));
                lemma_mul_inequality(a as int + 1, pow10(d as nat), pow10((15 - d) as nat));
                lemma_mul_is_distributive_add_other_way(pow10((15 - d) as nat), a as int, 1);
                assert(SCALE <= a as int * pow10((15 - d) as nat) < 10 * SCALE);
            }
            a * pw
        };
        let m2: i128 = if neg {
            -(a2 as i128)
        } else {
            a2 as i128
        };
        *self = Big::Number { m: m2, e: e2 };
    }

    /// Return true if `self` is `NaN`.
    ///
    /// Use this method: `Big::NaN == Big::NaN` is false by design.
    pub fn is_nan(&self) -> (r: bool)
        ensures
            r == (self is NaN),
    {
        matches!(self, Big::NaN)
    }

    /// Return true if `self` is the positive infinity.
    ///
    /// Use this method: the equality relation never holds of an infinity.
    pub fn is_pos_inf(&self) -> (r: bool)
        ensures
            r == (*self == Big::Infinity(InfinityKind::Positive)),
    {
        matches!(self, Big::Infinity(InfinityKind::Positive))
    }

    /// Return true if `self` is the negative infinity.
    ///
    /// Use this method: the equality relation never holds of an infinity.
    pub fn is_neg_inf(&self) -> (r: bool)
        ensures
            r == (*self == Big::Infinity(InfinityKind::Negative)),
    {
        matches!(self, Big::Infinity(InfinityKind::Negative))
    }

    /// Return true if `self` is `Zero`.
    pub fn is_zero(&self) -> (r: bool)
        ensures
            r == (self is Zero),
    {
        matches!(self, Big::Zero)
    }

    /// Invert the sign of `self` in place. No state needs renormalizing
    /// afterwards: negation keeps a canonical mantissa canonical.
    pub fn neg_mut(&mut self)
        requires
            old(self).is_raw(),
        ensures
            *final(self) == spec_neg(*old(self)),
            old(self).is_wf() ==> final(self).is_wf(),
    {
        match self {
            Big::Infinity(InfinityKind::Positive) => {
                *self = Big::Infinity(InfinityKind::Negative);
            }
            Big::Infinity(InfinityKind::Negative) => {
                *self = Big::Infinity(InfinityKind::Positive);
            }
            Big::Number { m, .. } => {
                *m = -*m;
            }
            _ => {}
        }
    }

    /// Negate `self`, returning a new value.
    pub fn neg(self) -> (r: Big)
        requires
            self.is_raw(),
        ensures
            r == spec_neg(self),
            self.is_wf() ==> r.is_wf(),
    {
        let mut result = self;
        result.neg_mut();
        result
    }

    /// Take the absolute value of `self` in place: the mantissa's sign is
    /// dropped; `Zero`, `NaN` and both infinities are left as they are.
    pub fn abs_mut(&mut self)
        requires
            old(self).is_raw(),
        ensures
            *final(self) == spec_abs(*old(self)),
            old(self).is_wf() ==> final(self).is_wf(),
    {
        if let Big::Number { m, .. } = self {
            if *m < 0 {
                *m = -*m;
            }
        }
    }

    /// Take the absolute value of `self`, returning a new value.
    pub fn abs(&self) -> (r: Big)
        requires
            self.is_raw(),
        ensures
            r == spec_abs(*self),
            self.is_wf() ==> r.is_wf(),
    {
        let mut result = *self;
        result.abs_mut();
        result
    }
}

} // verus!
