//! Textual formatting: the default display form, fixed-point rendering and
//! exponential rendering.
//!
//! The default form is `0`, `NaN`, `+inf` or `-inf` for the special states
//! and `<mantissa>e<exponent>` for a `Number`, the mantissa printed with
//! its trailing zero digits dropped. The fixed and exponential forms take a
//! count of fraction digits and round half away from zero where the
//! mantissa grid is finer than asked.

use vstd::prelude::*;

use crate::arith::lemma_mul_bound;
use crate::digits::{
    digits_u128, lemma_digits_bounds, lemma_pow10_adds, lemma_pow10_increases, lemma_pow10_pos,
    lemma_pow10_values, pow10, pow10_u128, spec_digits,
};
use crate::{Big, InfinityKind, SCALE, SIG_DIGITS};
use vstd::arithmetic::div_mod::{
    lemma_basic_div, lemma_div_is_ordered, lemma_div_is_ordered_by_denominator,
    lemma_mod_division_less_than_divisor, lemma_multiply_divide_lt, lemma_small_mod,
};

verus! {

/// A run of `n` zero digits.
pub open spec fn spec_zeros(n: nat) -> Seq<char> {
    Seq::new(n, |i: int| '0')
}

/// The character for one decimal digit.
pub open spec fn spec_digit_char(d: int) -> char {
    if d == 0 {
        '0'
    } else if d == 1 {
        '1'
    } else if d == 2 {
        '2'
    } else if d == 3 {
        '3'
    } else if d == 4 {
        '4'
    } else if d == 5 {
        '5'
    } else if d == 6 {
        '6'
    } else if d == 7 {
        '7'
    } else if d == 8 {
        '8'
    } else {
        '9'
    }
}

/// The low `w` decimal digits of `v`, zero-padded to exactly `w`
/// characters; the full decimal rendering whenever `v < 10^w`.
pub open spec fn spec_digits_pad(v: nat, w: nat) -> Seq<char>
    decreases w,
{
    if w == 0 {
        Seq::empty()
    } else {
        spec_digits_pad(v / 10, (w - 1) as nat) + seq![spec_digit_char((v % 10) as int)]
    }
}

/// The decimal rendering of `v`, without padding.
pub open spec fn spec_digits_str(v: nat) -> Seq<char> {
    spec_digits_pad(v, spec_digits(v))
}

/// `v` with its trailing zero digits removed.
pub open spec fn spec_strip_tens(v: nat) -> nat
    decreases v,
{
    if v == 0 {
        0
    } else if v % 10 == 0 {
        spec_strip_tens(v / 10)
    } else {
        v
    }
}

/// The rendering of a signed 64-bit exponent.
pub open spec fn spec_i64_seq(e: int) -> Seq<char> {
    let a = (if e < 0 {
        -e
    } else {
        e
    }) as nat;
    if e < 0 {
        seq!['-'] + spec_digits_str(a)
    } else {
        spec_digits_str(a)
    }
}

/// The rendering of a mantissa: sign, leading digit, and — when any
/// nonzero digit follows — a decimal point and the remaining digits, the
/// trailing zeros dropped as an ordinary float display would.
pub open spec fn spec_mantissa_seq(m: int) -> Seq<char> {
    let a = (if m < 0 {
        -m
    } else {
        m
    }) as nat;
    let r = spec_strip_tens(a);
    let d = spec_digits(r);
    let core = if d == 1 {
        spec_digits_str(r)
    } else {
        spec_digits_str((r as int / pow10((d - 1) as nat)) as nat) + seq!['.'] + spec_digits_pad(
            (r as int % pow10((d - 1) as nat)) as nat,
            (d - 1) as nat,
        )
    };
    if m < 0 {
        seq!['-'] + core
    } else {
        core
    }
}

/// The default textual form: `0`, `NaN`, `+inf`, `-inf`, or
/// `<mantissa>e<exponent>`.
pub open spec fn spec_display(v: Big) -> Seq<char> {
    match v {
        Big::Zero => seq!['0'],
        Big::NaN => seq!['N', 'a', 'N'],
        Big::Infinity(InfinityKind::Positive) => seq!['+', 'i', 'n', 'f'],
        Big::Infinity(InfinityKind::Negative) => seq!['-', 'i', 'n', 'f'],
        Big::Number { m, e } => spec_mantissa_seq(m as int) + seq!['e'] + spec_i64_seq(e as int),
    }
}

/// A string of `n` zero digits.
fn zeros_string(n: usize) -> (s: String)
    ensures
        s@ =~= spec_zeros(n as nat),
{
    let mut s = String::new();
    let mut i: usize = 0;
    while i < n
        invariant
            i <= n,
            s@ =~= spec_zeros(i as nat),
        decreases n - i,
    {
        proof {
            reveal_strlit("0");
            assert(spec_zeros(i as nat) + "0"@ =~= spec_zeros((i + 1) as nat));
        }
        s.append("0");
        i = i + 1;
    }
    s
}

/// The one-character string for a decimal digit.
fn digit_str(d: u32) -> (s: &'static str)
    requires
        d < 10,
    ensures
        s@ =~= seq![spec_digit_char(d as int)],
{
    proof {
        reveal_strlit("0");
        reveal_strlit("1");
        reveal_strlit("2");
        reveal_strlit("3");
        reveal_strlit("4");
        reveal_strlit("5");
        reveal_strlit("6");
        reveal_strlit("7");
        reveal_strlit("8");
        reveal_strlit("9");
    }
    match d {
        0 => "0",
        1 => "1",
        2 => "2",
        3 => "3",
        4 => "4",
        5 => "5",
        6 => "6",
        7 => "7",
        8 => "8",
        _ => "9",
    }
}

/// The low `w` digits of `v`, zero-padded to exactly `w` characters.
fn digits_pad(v: u128, w: u32) -> (s: String)
    requires
        w <= 39,
    ensures
        s@ =~= spec_digits_pad(v as nat, w as nat),
        s@.len() == w,
    decreases w,
{
    if w == 0 {
        String::new()
    } else {
        let mut s = digits_pad(v / 10, w - 1);
        s.append(digit_str((v % 10) as u32));
        s
    }
}

/// The decimal rendering of `v`.
fn digits_string(v: u128) -> (s: String)
    ensures
        s@ =~= spec_digits_str(v as nat),
        s@.len() == spec_digits(v as nat),
{
    let w: u32 = if v == 0 {
        1
    } else {
        digits_u128(v)
    };
    digits_pad(v, w)
}

/// The rendering of a signed 64-bit value, computed.
fn i64_string(e: i64) -> (s: String)
    ensures
        s@ =~= spec_i64_seq(e as int),
{
    let mut out = String::new();
    let ea: u128 = if e < 0 {
        (-(e as i128)) as u128
    } else {
        e as u128
    };
    if e < 0 {
        proof {
            reveal_strlit("-");
        }
        out.append("-");
    }
    let es = digits_string(ea);
    out.append(es.as_str());
    proof {
        assert(out@ =~= spec_i64_seq(e as int));
    }
    out
}

/// Zero renders as `w` zero digits at any width.
proof fn lemma_pad_zero(w: nat)
    ensures
        spec_digits_pad(0, w) =~= spec_zeros(w),
    decreases w,
{
    if w > 0 {
        vstd::arithmetic::div_mod::lemma_div_of0(10);
        vstd::arithmetic::div_mod::lemma_small_mod(0, 10);
        lemma_pad_zero((w - 1) as nat);
        assert(spec_zeros((w - 1) as nat) + seq!['0'] =~= spec_zeros(w));
    }
}

/// Padding a value out to a width beyond its own digits only prepends
/// zeros.
proof fn lemma_pad_leading_zeros(v: nat, w: nat, k: nat)
    requires
        k <= w,
        v < pow10(k),
    ensures
        spec_digits_pad(v, w) =~= spec_zeros((w - k) as nat) + spec_digits_pad(v, k),
    decreases w,
{
    lemma_pow10_pos(k);
    if w == k {
        assert(spec_digits_pad(v, w) =~= spec_zeros(0) + spec_digits_pad(v, k));
    } else if k == 0 {
        vstd::arithmetic::power::lemma_pow0(10);
        lemma_pad_zero(w);
        assert(spec_digits_pad(v, w) =~= spec_zeros((w - 0) as nat) + spec_digits_pad(v, 0));
    } else {
        lemma_pow10_adds(1, (k - 1) as nat);
        vstd::arithmetic::power::lemma_pow1(10);
        lemma_pow10_pos((k - 1) as nat);
        lemma_multiply_divide_lt(v as int, 10, pow10((k - 1) as nat));
        lemma_pad_leading_zeros(v / 10, (w - 1) as nat, (k - 1) as nat);
        assert((spec_zeros((w - k) as nat) + spec_digits_pad(v / 10, (k - 1) as nat)) + seq![
            spec_digit_char((v % 10) as int),
        ] =~= spec_zeros((w - k) as nat) + (spec_digits_pad(v / 10, (k - 1) as nat) + seq![
            spec_digit_char((v % 10) as int),
        ]));
        assert(spec_digits_pad(v, w) =~= spec_zeros((w - k) as nat) + spec_digits_pad(v, k));
    }
}

/// The exponential form's mantissa: the leading digit, a point, and
/// `places` fraction digits — zero-extended past the grid's fourteen, and
/// rounded half away from zero short of them (which can carry the head up
/// to a two-digit `10`).
pub open spec fn spec_exp_mantissa(a: int, places: int) -> Seq<char> {
    if places >= 14 {
        spec_digits_str((a / (SCALE as int)) as nat) + seq!['.'] + spec_digits_pad(
            (a % (SCALE as int)) as nat,
            14,
        ) + spec_zeros((places - 14) as nat)
    } else {
        let k = 14 - places;
        let r2 = (a + 5 * pow10((k - 1) as nat)) / pow10(k as nat);
        spec_digits_str((r2 / pow10(places as nat)) as nat) + (if places > 0 {
            seq!['.'] + spec_digits_pad((r2 % pow10(places as nat)) as nat, places as nat)
        } else {
            Seq::empty()
        })
    }
}

/// The exponential textual form: `<mantissa to places digits>e<exponent>`;
/// `Zero` renders as `0.` and `places` zeros; `NaN` and the infinities use
/// their default form.
pub open spec fn spec_exponential(v: Big, places: int) -> Seq<char> {
    match v {
        Big::Zero => seq!['0', '.'] + spec_zeros(places as nat),
        Big::NaN => seq!['N', 'a', 'N'],
        Big::Infinity(InfinityKind::Positive) => seq!['+', 'i', 'n', 'f'],
        Big::Infinity(InfinityKind::Negative) => seq!['-', 'i', 'n', 'f'],
        Big::Number { m, e } => {
            let a = if m < 0 {
                -(m as int)
            } else {
                m as int
            };
            (if m < 0 {
                seq!['-']
            } else {
                Seq::empty()
            }) + spec_exp_mantissa(a, places) + seq!['e'] + spec_i64_seq(e as int)
        },
    }
}

/// The fixed form of a `Number`'s magnitude. At or past the
/// significant-digit cutoff the mantissa's digits are laid down whole and
/// zero-padded out to the exponent, a literal reconstruction being
/// meaningless at that magnitude. Below it the value is an ordinary
/// decimal: rendered exactly and zero-extended when `places` covers every
/// fraction digit the grid holds, rounded half away from zero when not.
pub open spec fn spec_fixed_mag(a: int, e: int, places: int) -> Seq<char> {
    if e >= SIG_DIGITS {
        let r = spec_strip_tens(a as nat);
        let d = spec_digits(r) as int;
        spec_digits_str(r) + spec_zeros((e - d + 1) as nat) + seq!['.'] + spec_zeros(
            places as nat,
        )
    } else {
        let j = 14 - e;
        if places >= j {
            spec_digits_str((a / pow10(j as nat)) as nat) + (if places > 0 {
                seq!['.'] + spec_digits_pad((a % pow10(j as nat)) as nat, j as nat) + spec_zeros(
                    (places - j) as nat,
                )
            } else {
                Seq::empty()
            })
        } else {
            let k = j - places;
            let r2 = (a + 5 * pow10((k - 1) as nat)) / pow10(k as nat);
            spec_digits_str((r2 / pow10(places as nat)) as nat) + (if places > 0 {
                seq!['.'] + spec_digits_pad((r2 % pow10(places as nat)) as nat, places as nat)
            } else {
                Seq::empty()
            })
        }
    }
}

/// The fixed-point textual form: an ordinary decimal with `places`
/// fraction digits; `Zero` renders as `0.` and `places` zeros; `NaN` and
/// the infinities use their default form.
pub open spec fn spec_fixed(v: Big, places: int) -> Seq<char> {
    match v {
        Big::Zero => seq!['0', '.'] + spec_zeros(places as nat),
        Big::NaN => seq!['N', 'a', 'N'],
        Big::Infinity(InfinityKind::Positive) => seq!['+', 'i', 'n', 'f'],
        Big::Infinity(InfinityKind::Negative) => seq!['-', 'i', 'n', 'f'],
        Big::Number { m, e } => {
            let a = if m < 0 {
                -(m as int)
            } else {
                m as int
            };
            (if m < 0 {
                seq!['-']
            } else {
                Seq::empty()
            }) + spec_fixed_mag(a, e as int, places)
        },
    }
}

impl Big {
    /// The default textual form: `"0"` for `Zero`, `"NaN"` for `NaN`,
    /// `"+inf"`/`"-inf"` for the infinities, and
    /// `"<mantissa>e<exponent>"` for a `Number`, the mantissa shown with
    /// trailing zeros dropped.
    pub fn to_display_string(&self) -> (s: String)
        requires
            self.is_raw(),
        ensures
            s@ =~= spec_display(*self),
    {
        match *self {
            Big::Zero => {
                proof {
                    reveal_strlit("0");
                }
                let s = String::from_str("0");
                proof {
                    assert(s@ =~= spec_display(*self));
                }
                s
            }
            Big::NaN => {
                proof {
                    reveal_strlit("NaN");
                }
                let s = String::from_str("NaN");
                proof {
                    assert(s@ =~= spec_display(*self));
                }
                s
            }
            Big::Infinity(InfinityKind::Positive) => {
                proof {
                    reveal_strlit("+inf");
                }
                let s = String::from_str("+inf");
                proof {
                    assert(s@ =~= spec_display(*self));
                }
                s
            }
            Big::Infinity(InfinityKind::Negative) => {
                proof {
                    reveal_strlit("-inf");
                }
                let s = String::from_str("-inf");
                proof {
                    assert(s@ =~= spec_display(*self));
                }
                s
            }
            Big::Number { m, e } => {
                let a: u128 = if m < 0 {
                    (-m) as u128
                } else {
                    m as u128
                };
                let mut r: u128 = a;
                while r > 0 && r % 10 == 0
                    invariant
                        spec_strip_tens(a as nat) == spec_strip_tens(r as nat),
                    decreases r,
                {
                    r = r / 10;
                }
                assert(r as nat == spec_strip_tens(a as nat));
                let mut out = String::new();
                if m < 0 {
                    proof {
                        reveal_strlit("-");
                    }
                    out.append("-");
                }
                let d: u32 = if r == 0 {
                    1
                } else {
                    digits_u128(r)
                };
                if d == 1 {
                    let ds = digits_string(r);
                    out.append(ds.as_str());
                } else {
                    proof {
                        lemma_digits_bounds(r as nat);
                        lemma_pow10_pos((d - 1) as nat);
                        lemma_pow10_adds((d - 1) as nat, 1);
                        vstd::arithmetic::power::lemma_pow1(10);
                        lemma_div_is_ordered(
                            pow10((d - 1) as nat),
                            r as int,
                            pow10((d - 1) as nat),
                        );
                        vstd::arithmetic::div_mod::lemma_div_by_self(pow10((d - 1) as nat));
                        lemma_multiply_divide_lt(r as int, pow10((d - 1) as nat), 10);
                        lemma_mod_division_less_than_divisor(r as int, pow10((d - 1) as nat));
                        lemma_pow10_increases((d - 1) as nat, 38);
                        lemma_pow10_values();
                    }
                    let pw: u128 = pow10_u128(d - 1);
                    let head = digits_string(r / pw);
                    out.append(head.as_str());
                    proof {
                        reveal_strlit(".");
                    }
                    out.append(".");
                    let tail = digits_pad(r % pw, d - 1);
                    out.append(tail.as_str());
                }
                proof {
                    reveal_strlit("e");
                }
                out.append("e");
                let ea: u128 = if e < 0 {
                    (-(e as i128)) as u128
                } else {
                    e as u128
                };
                if e < 0 {
                    proof {
                        reveal_strlit("-");
                    }
                    out.append("-");
                }
                let es = digits_string(ea);
                out.append(es.as_str());
                proof {
                    assert(out@ =~= spec_display(*self));
                }
                out
            }
        }
    }

    /// Format as `<mantissa to places digits>e<exponent>`. `Zero` renders
    /// as `0.` followed by `places` zeros; `NaN` and the infinities use
    /// their default form. Where the mantissa grid is finer than asked the
    /// digits round half away from zero, which can carry the leading digit
    /// up to a two-digit `10`.
    pub fn to_exponential(&self, places: usize) -> (s: String)
        requires
            self.is_wf(),
        ensures
            s@ =~= spec_exponential(*self, places as int),
    {
        match *self {
            Big::Zero => {
                proof {
                    reveal_strlit("0.");
                }
                let mut out = String::from_str("0.");
                let z = zeros_string(places);
                out.append(z.as_str());
                proof {
                    assert(out@ =~= spec_exponential(*self, places as int));
                }
                out
            }
            Big::NaN | Big::Infinity(_) => {
                let s = self.to_display_string();
                proof {
                    assert(s@ =~= spec_exponential(*self, places as int));
                }
                s
            }
            Big::Number { m, e } => {
                let a: u128 = if m < 0 {
                    (-m) as u128
                } else {
                    m as u128
                };
                let mut out = String::new();
                if m < 0 {
                    proof {
                        reveal_strlit("-");
                    }
                    out.append("-");
                }
                if places >= 14 {
                    proof {
                        lemma_pow10_values();
                    }
                    let hs = digits_string(a / (SCALE as u128));
                    out.append(hs.as_str());
                    proof {
                        reveal_strlit(".");
                    }
                    out.append(".");
                    let f = digits_pad(a % (SCALE as u128), 14);
                    out.append(f.as_str());
                    let z = zeros_string(places - 14);
                    out.append(z.as_str());
                } else {
                    let k: u32 = (14 - places) as u32;
                    proof {
                        lemma_pow10_values();
                        lemma_pow10_increases((k - 1) as nat, 13);
                        lemma_pow10_pos((k - 1) as nat);
                        lemma_pow10_pos(k as nat);
                        lemma_pow10_pos(places as nat);
                        lemma_pow10_increases(places as nat, 13);
                    }
                    let half: u128 = 5 * pow10_u128(k - 1);
                    let r2: u128 = (a + half) / pow10_u128(k);
                    let pwp: u128 = pow10_u128(places as u32);
                    let hs = digits_string(r2 / pwp);
                    out.append(hs.as_str());
                    if places > 0 {
                        proof {
                            reveal_strlit(".");
                        }
                        out.append(".");
                        let f = digits_pad(r2 % pwp, places as u32);
                        out.append(f.as_str());
                    }
                }
                proof {
                    reveal_strlit("e");
                }
                out.append("e");
                let es = i64_string(e);
                out.append(es.as_str());
                proof {
                    assert(out@ =~= spec_exponential(*self, places as int));
                }
                out
            }
        }
    }

    /// Format as an ordinary decimal with `places` fraction digits. At or
    /// past the significant-digit cutoff the mantissa's digits are laid
    /// down whole and zero-padded out to the exponent — a value of that
    /// magnitude has no exact decimal on the grid — which is why such an
    /// exponent must also leave the output's length representable. `Zero`
    /// renders as `0.` followed by `places` zeros; `NaN` and the
    /// infinities use their default form.
    #[verifier::rlimit(60)]
    pub fn to_fixed(&self, places: usize) -> (s: String)
        requires
            self.is_wf(),
            self matches Big::Number { m, e } ==> (e < SIG_DIGITS || e as int + 1
                + places as int <= usize::MAX as int),
        ensures
            s@ =~= spec_fixed(*self, places as int),
    {
        match *self {
            Big::Zero => {
                proof {
                    reveal_strlit("0.");
                }
                let mut out = String::from_str("0.");
                let z = zeros_string(places);
                out.append(z.as_str());
                proof {
                    assert(out@ =~= spec_fixed(*self, places as int));
                }
                out
            }
            Big::NaN | Big::Infinity(_) => {
                let s = self.to_display_string();
                proof {
                    assert(s@ =~= spec_fixed(*self, places as int));
                }
                s
            }
            Big::Number { m, e } => {
                let a: u128 = if m < 0 {
                    (-m) as u128
                } else {
                    m as u128
                };
                let mut out = String::new();
                if m < 0 {
                    proof {
                        reveal_strlit("-");
                    }
                    out.append("-");
                }
                proof {
                    lemma_pow10_values();
                }
                if e >= SIG_DIGITS {
                    let mut r: u128 = a;
                    while r > 0 && r % 10 == 0
                        invariant
                            1 <= r <= a,
                            a < 1_000_000_000_000_000,
                            spec_strip_tens(a as nat) == spec_strip_tens(r as nat),
                        decreases r,
                    {
                        r = r / 10;
                    }
                    let d: u32 = digits_u128(r);
                    proof {
                        lemma_digits_bounds(r as nat);
                        if d > 15 {
                            lemma_pow10_increases(15, (d - 1) as nat);
                        }
                    }
                    let ds = digits_string(r);
                    out.append(ds.as_str());
                    let zcount: usize = (e as usize) - (d as usize - 1);
                    let z = zeros_string(zcount);
                    out.append(z.as_str());
                    proof {
                        reveal_strlit(".");
                    }
                    out.append(".");
                    let z2 = zeros_string(places);
                    out.append(z2.as_str());
                } else {
                    let j: i128 = 14 - (e as i128);
                    if places as i128 >= j {
                        let ju: usize = j as usize;
                        if ju <= 15 {
                            proof {
                                lemma_pow10_pos(ju as nat);
                                lemma_pow10_increases(ju as nat, 15);
                            }
                            let pw: u128 = pow10_u128(ju as u32);
                            let ip = digits_string(a / pw);
                            out.append(ip.as_str());
                            if places > 0 {
                                proof {
                                    reveal_strlit(".");
                                }
                                out.append(".");
                                let f = digits_pad(a % pw, ju as u32);
                                out.append(f.as_str());
                                let z = zeros_string(places - ju);
                                out.append(z.as_str());
                            }
                        } else {
                            proof {
                                lemma_pow10_pos(ju as nat);
                                lemma_pow10_increases(15, ju as nat);
                                lemma_basic_div(a as int, pow10(ju as nat));
                                lemma_small_mod(a as nat, pow10(ju as nat) as nat);
                                lemma_pad_leading_zeros(a as nat, ju as nat, 15);
                            }
                            let ip = digits_string(0);
                            out.append(ip.as_str());
                            proof {
                                reveal_strlit(".");
                            }
                            out.append(".");
                            let z = zeros_string(ju - 15);
                            out.append(z.as_str());
                            let f = digits_pad(a, 15);
                            out.append(f.as_str());
                            let z2 = zeros_string(places - ju);
                            out.append(z2.as_str());
                            proof {
                                assert(spec_digits_pad((a as int % pow10(ju as nat)) as nat,
                                    ju as nat) =~= spec_zeros((ju - 15) as nat)
                                    + spec_digits_pad(a as nat, 15));
                            }
                        }
                    } else {
                        let k: i128 = j - places as i128;
                        if k >= 16 {
                            proof {
                                lemma_pow10_pos((k - 1) as nat);
                                lemma_pow10_pos(k as nat);
                                lemma_pow10_pos(places as nat);
                                lemma_pow10_increases(15, (k - 1) as nat);
                                lemma_pow10_adds((k - 1) as nat, 1);
                                vstd::arithmetic::power::lemma_pow1(10);
                                crate::arith::lemma_mul_bound(
                                    5,
                                    5,
                                    pow10((k - 1) as nat),
                                    pow10((k - 1) as nat),
                                );
                                lemma_basic_div(
                                    a as int + 5 * pow10((k - 1) as nat),
                                    pow10(k as nat),
                                );
                                lemma_basic_div(0, pow10(places as nat));
                                lemma_small_mod(0, pow10(places as nat) as nat);
                                lemma_pad_zero(places as nat);
                            }
                            let ip = digits_string(0);
                            out.append(ip.as_str());
                            if places > 0 {
                                proof {
                                    reveal_strlit(".");
                                }
                                out.append(".");
                                let z = zeros_string(places);
                                out.append(z.as_str());
                            }
                        } else {
                            let ku: u32 = k as u32;
                            proof {
                                lemma_pow10_pos((ku - 1) as nat);
                                lemma_pow10_pos(ku as nat);
                                lemma_pow10_increases((ku - 1) as nat, 14);
                                lemma_pow10_increases(1, ku as nat);
                                vstd::arithmetic::power::lemma_pow1(10);
                                lemma_div_is_ordered_by_denominator(
                                    a as int + 5 * pow10((ku - 1) as nat),
                                    10,
                                    pow10(ku as nat),
                                );
                                lemma_div_is_ordered(
                                    a as int + 5 * pow10((ku - 1) as nat),
                                    1_499_999_999_999_999,
                                    10,
                                );
                            }
                            let half: u128 = 5 * pow10_u128(ku - 1);
                            let r2: u128 = (a + half) / pow10_u128(ku);
                            if places <= 15 {
                                proof {
                                    lemma_pow10_pos(places as nat);
                                }
                                let pwp: u128 = pow10_u128(places as u32);
                                let ip = digits_string(r2 / pwp);
                                out.append(ip.as_str());
                                if places > 0 {
                                    proof {
                                        reveal_strlit(".");
                                    }
                                    out.append(".");
                                    let f = digits_pad(r2 % pwp, places as u32);
                                    out.append(f.as_str());
                                }
                            } else {
                                proof {
                                    lemma_pow10_pos(places as nat);
                                    lemma_pow10_increases(15, places as nat);
                                    lemma_basic_div(r2 as int, pow10(places as nat));
                                    lemma_small_mod(r2 as nat, pow10(places as nat) as nat);
                                    lemma_pad_leading_zeros(r2 as nat, places as nat, 15);
                                }
                                let ip = digits_string(0);
                                out.append(ip.as_str());
                                proof {
                                    reveal_strlit(".");
                                }
                                out.append(".");
                                let z = zeros_string(places - 15);
                                out.append(z.as_str());
                                let f = digits_pad(r2, 15);
                                out.append(f.as_str());
                                proof {
                                    assert(spec_digits_pad(
                                        (r2 as int % pow10(places as nat)) as nat,
                                        places as nat,
                                    ) =~= spec_zeros((places - 15) as nat) + spec_digits_pad(
                                        r2 as nat,
                                        15,
                                    ));
                                }
                            }
                        }
                    }
                }
                proof {
                    assert(out@ =~= spec_fixed(*self, places as int));
                }
                out
            }
        }
    }
}

} // verus!
