//! Powers of ten and decimal digit counts: the ruler by which mantissas are
//! measured and rescaled.

use vstd::prelude::*;
use vstd::arithmetic::power::{
    pow, lemma_pow_adds, lemma_pow_positive, lemma_pow_strictly_increases,
};
use vstd::arithmetic::div_mod::{lemma_fundamental_div_mod, lemma_div_is_ordered};

verus! {

/// Ten to the `n`.
pub open spec fn pow10(n: nat) -> int {
    pow(10, n)
}

/// Number of decimal digits of `v`; zero is counted as one digit.
pub open spec fn spec_digits(v: nat) -> nat
    decreases v,
{
    if v < 10 {
        1
    } else {
        1 + spec_digits(v / 10)
    }
}

pub broadcast proof fn lemma_pow10_pos(n: nat)
    ensures
        #[trigger] pow10(n) >= 1,
{
    lemma_pow_positive(10, n);
}

pub proof fn lemma_pow10_adds(a: nat, b: nat)
    ensures
        pow10(a + b) == pow10(a) * pow10(b),
{
    lemma_pow_adds(10, a, b);
}

pub proof fn lemma_pow10_increases(a: nat, b: nat)
    requires
        a <= b,
    ensures
        pow10(a) <= pow10(b),
{
    if a < b {
        lemma_pow_strictly_increases(10, a, b);
    }
}

/// `spec_digits` measures magnitude: a `d`-digit number lies in
/// `[pow10(d - 1), pow10(d))`.
pub proof fn lemma_digits_bounds(v: nat)
    requires
        v >= 1,
    ensures
        pow10((spec_digits(v) - 1) as nat) <= v < pow10(spec_digits(v)),
    decreases v,
{
    vstd::arithmetic::power::lemma_pow0(10);
    vstd::arithmetic::power::lemma_pow1(10);
    if v < 10 {
    } else {
        let q = v / 10;
        lemma_fundamental_div_mod(v as int, 10);
        assert(q >= 1) by {
            if q == 0 {
                assert(v == v % 10);
            }
        }
        lemma_digits_bounds(q);
        let d = spec_digits(q);
        assert(spec_digits(v) == d + 1);
        lemma_pow10_adds(1, (d - 1) as nat);
        lemma_pow10_adds(1, d);
        assert(v == 10 * q + v % 10);
    }
}

/// The digit count is determined by the magnitude bracket.
pub proof fn lemma_digits_unique(v: nat, d: nat)
    requires
        d >= 1,
        pow10((d - 1) as nat) <= v < pow10(d),
    ensures
        spec_digits(v) == d,
{
    lemma_pow10_pos((d - 1) as nat);
    lemma_digits_bounds(v);
    let dv = spec_digits(v);
    if dv < d {
        lemma_pow10_increases(dv, (d - 1) as nat);
    }
    if dv > d {
        lemma_pow10_increases(d, (dv - 1) as nat);
    }
}

/// The concrete powers of ten that the bounds proofs lean on.
pub proof fn lemma_pow10_values()
    ensures
        pow10(13) == 10_000_000_000_000,
        pow10(14) == 100_000_000_000_000,
        pow10(15) == 1_000_000_000_000_000,
        pow10(19) == 10_000_000_000_000_000_000,
        pow10(34) == 10_000_000_000_000_000_000_000_000_000_000_000,
        pow10(38) == 100_000_000_000_000_000_000_000_000_000_000_000_000,
        pow10(39) == 1_000_000_000_000_000_000_000_000_000_000_000_000_000,
{
    reveal_with_fuel(pow, 41);
}

/// Ten to the `k`, computed; `k` may reach 38, the last power of ten that an
/// `u128` holds.
pub(crate) fn pow10_u128(k: u32) -> (r: u128)
    requires
        k <= 38,
    ensures
        r == pow10(k as nat),
{
    proof {
        lemma_pow10_increases(k as nat, 38);
        lemma_pow10_values();
        vstd::arithmetic::power::lemma_pow0(10);
    }
    let mut i: u32 = 0;
    let mut r: u128 = 1;
    while i < k
        invariant
            i <= k <= 38,
            r == pow10(i as nat),
            pow10(38) == 100000000000000000000000000000000000000,
        decreases k - i,
    {
        proof {
            lemma_pow10_adds(i as nat, 1);
            vstd::arithmetic::power::lemma_pow1(10);
            lemma_pow10_increases((i + 1) as nat, 38);
            lemma_pow10_pos(i as nat);
        }
        r = r * 10;
        i = i + 1;
    }
    r
}

/// Ten to the `k` as a signed 128-bit value.
pub(crate) fn pow10_i128(k: u32) -> (r: i128)
    requires
        k <= 38,
    ensures
        r == pow10(k as nat),
        r >= 1,
{
    proof {
        lemma_pow10_pos(k as nat);
        lemma_pow10_increases(k as nat, 38);
        lemma_pow10_values();
    }
    pow10_u128(k) as i128
}

/// The decimal digit count of `v`.
pub(crate) fn digits_u128(v: u128) -> (d: u32)
    requires
        v >= 1,
    ensures
        d == spec_digits(v as nat),
        1 <= d <= 39,
{
    proof {
        lemma_digits_bounds(v as nat);
        let dv = spec_digits(v as nat);
        if dv > 39 {
            lemma_pow10_increases(39, (dv - 1) as nat);
            lemma_pow10_values();
        }
    }
    let mut x: u128 = v;
    let mut d: u32 = 1;
    while x >= 10
        invariant
            x >= 1,
            d >= 1,
            spec_digits(v as nat) == spec_digits(x as nat) + d - 1,
            spec_digits(v as nat) <= 39,
        decreases x,
    {
        proof {
            lemma_fundamental_div_mod(x as int, 10);
        }
        x = x / 10;
        d = d + 1;
    }
    d
}

} // verus!
