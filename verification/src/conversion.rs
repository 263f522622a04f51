//! Textual parsing and conversion from native integers.
//!
//! Text is read as a decimal literal — an optional sign, digits with an
//! optional decimal point, and an optional `e`/`E` exponent — with the
//! case-insensitive words `0`, `nan`, `inf` and `infinity` (the latter two
//! optionally signed) standing for the special states. Parse failures are
//! typed: a malformed overall shape, a malformed mantissa substring, or a
//! malformed exponent substring.
//!
//! Parsing is exact over the whole exponent range: `1.23e-1234` comes back
//! as that value, not as an underflowed zero. Mantissa digits beyond the
//! fifteen the representation carries are dropped toward zero, and an
//! exponent whose own magnitude passes ten to the eighteenth is treated as
//! past either end of the 64-bit range, which collapses the value to an
//! infinity or to `Zero` exactly as normalization would.

use vstd::prelude::*;

use crate::digits::pow10;
use crate::{spec_normalize_parts, Big, InfinityKind, RAW_LIMIT, SCALE};

verus! {

/// Why a piece of text failed to parse.
#[derive(Debug, PartialEq)]
pub enum ParseError {
    /// The text does not have the overall shape of a number: several
    /// exponent markers, or no marker and no readable value at all.
    Parts,
    /// The mantissa in front of the exponent marker is malformed; carries
    /// that substring.
    Mantissa(String),
    /// The exponent behind the marker is malformed; carries that substring.
    Exponent(String),
}

/// Mantissa magnitudes stop accumulating at this bound (one more digit than
/// the representation keeps): further digits only shift the exponent.
pub const MANT_CAP: u128 = 1_000_000_000_000_000;

/// An exponent magnitude beyond this bound saturates ...
pub const EXP_CAP: u128 = 1_000_000_000_000_000_000;

/// ... to this value, which stays past either end of the 64-bit exponent
/// range even after every possible decimal-point adjustment.
pub const EXP_SAT: u128 = 1_000_000_000_000_000_000_000;

/// ASCII lowercasing of a single character.
pub open spec fn spec_lower(c: char) -> char {
    match c {
        'A' => 'a',
        'B' => 'b',
        'C' => 'c',
        'D' => 'd',
        'E' => 'e',
        'F' => 'f',
        'G' => 'g',
        'H' => 'h',
        'I' => 'i',
        'J' => 'j',
        'K' => 'k',
        'L' => 'l',
        'M' => 'm',
        'N' => 'n',
        'O' => 'o',
        'P' => 'p',
        'Q' => 'q',
        'R' => 'r',
        'S' => 's',
        'T' => 't',
        'U' => 'u',
        'V' => 'v',
        'W' => 'w',
        'X' => 'x',
        'Y' => 'y',
        'Z' => 'z',
        _ => c,
    }
}

/// Case-insensitive (ASCII) equality of `s` against a lowercase keyword.
pub open spec fn matches_ci(s: Seq<char>, kw: Seq<char>) -> bool {
    s.len() == kw.len() && (forall|i: int| 0 <= i < s.len() ==> spec_lower(s[i]) == kw[i])
}

/// The value of a digit character, or ten for any other character.
pub open spec fn spec_digit_of(c: char) -> int {
    match c {
        '0' => 0,
        '1' => 1,
        '2' => 2,
        '3' => 3,
        '4' => 4,
        '5' => 5,
        '6' => 6,
        '7' => 7,
        '8' => 8,
        '9' => 9,
        _ => 10,
    }
}

/// An exponent marker.
pub open spec fn is_exp_marker(c: char) -> bool {
    c == 'e' || c == 'E'
}

/// How many exponent markers the text holds.
pub open spec fn spec_marker_count(s: Seq<char>) -> nat
    decreases s.len(),
{
    if s.len() == 0 {
        0
    } else {
        (if is_exp_marker(s[0]) {
            1nat
        } else {
            0nat
        }) + spec_marker_count(s.skip(1))
    }
}

/// The index of the first exponent marker, or the length if there is none.
pub open spec fn spec_first_marker(s: Seq<char>) -> int
    decreases s.len(),
{
    if s.len() == 0 {
        0
    } else if is_exp_marker(s[0]) {
        0
    } else {
        1 + spec_first_marker(s.skip(1))
    }
}

/// The digit-and-dot scan of a mantissa: folds digits into `acc` (capped at
/// `MANT_CAP`, beyond which whole-part digits shift the exponent instead)
/// and counts fraction digits into `fexp`. `None` on any other character, a
/// second dot, or a mantissa with no digit at all.
pub open spec fn spec_scan_mant(
    s: Seq<char>,
    acc: int,
    fexp: int,
    after_dot: bool,
    seen: bool,
) -> Option<(int, int)>
    decreases s.len(),
{
    if s.len() == 0 {
        if seen {
            Some((acc, fexp))
        } else {
            None
        }
    } else {
        let c = s[0];
        if spec_digit_of(c) < 10 {
            if acc < SCALE {
                spec_scan_mant(
                    s.skip(1),
                    acc * 10 + spec_digit_of(c),
                    if after_dot {
                        fexp - 1
                    } else {
                        fexp
                    },
                    after_dot,
                    true,
                )
            } else {
                spec_scan_mant(
                    s.skip(1),
                    acc,
                    if after_dot {
                        fexp
                    } else {
                        fexp + 1
                    },
                    after_dot,
                    true,
                )
            }
        } else if c == '.' && !after_dot {
            spec_scan_mant(s.skip(1), acc, fexp, true, seen)
        } else {
            None
        }
    }
}

/// A mantissa: an optional sign followed by the digit-and-dot scan.
/// `Some((negative, magnitude, point_shift))` on success.
pub open spec fn spec_parse_mant(s: Seq<char>) -> Option<(bool, int, int)> {
    if s.len() >= 1 && (s[0] == '+' || s[0] == '-') {
        match spec_scan_mant(s.skip(1), 0, 0, false, false) {
            Some(p) => Some((s[0] == '-', p.0, p.1)),
            None => None,
        }
    } else {
        match spec_scan_mant(s, 0, 0, false, false) {
            Some(p) => Some((false, p.0, p.1)),
            None => None,
        }
    }
}

/// The digit scan of an exponent: exact up to `EXP_CAP`, saturated to
/// `EXP_SAT` beyond it. `None` on any non-digit.
pub open spec fn spec_scan_exp(s: Seq<char>, acc: int) -> Option<int>
    decreases s.len(),
{
    if s.len() == 0 {
        Some(acc)
    } else if spec_digit_of(s[0]) < 10 {
        spec_scan_exp(
            s.skip(1),
            if acc > EXP_CAP {
                EXP_SAT as int
            } else {
                acc * 10 + spec_digit_of(s[0])
            },
        )
    } else {
        None
    }
}

/// An exponent: an optional sign followed by at least one digit.
pub open spec fn spec_parse_exp(s: Seq<char>) -> Option<int> {
    if s.len() >= 1 && (s[0] == '+' || s[0] == '-') {
        if s.len() >= 2 {
            match spec_scan_exp(s.skip(1), 0) {
                Some(v) => Some(
                    if s[0] == '-' {
                        -v
                    } else {
                        v
                    },
                ),
                None => None,
            }
        } else {
            None
        }
    } else if s.len() >= 1 {
        spec_scan_exp(s, 0)
    } else {
        None
    }
}

/// The value a parsed digit magnitude and total decimal exponent stand
/// for: the value is `units * 10^total`, canonicalized. Zero digits give
/// `Zero`; a canonical exponent past the 64-bit range gives the signed
/// infinity or `Zero`; anything else is the `Number` whose mantissa holds
/// the digits shifted onto the fifteen-digit grid.
pub open spec fn spec_assemble(neg: bool, units: int, total: int) -> Big {
    if units == 0 {
        Big::Zero
    } else {
        let d = crate::digits::spec_digits(units as nat) as int;
        let efinal = total + d - 1;
        if efinal > i64::MAX {
            Big::Infinity(
                if neg {
                    InfinityKind::Negative
                } else {
                    InfinityKind::Positive
                },
            )
        } else if efinal < i64::MIN {
            Big::Zero
        } else {
            let us = units * pow10((15 - d) as nat);
            Big::Number {
                m: (if neg {
                    -us
                } else {
                    us
                }) as i128,
                e: efinal as i64,
            }
        }
    }
}

/// The value a piece of text stands for, if it stands for one: first the
/// case-insensitive special words, then a plain decimal literal, then a
/// mantissa and exponent split on the single marker.
pub open spec fn spec_parse_value(s: Seq<char>) -> Option<Big> {
    if matches_ci(s, "0"@) {
        Some(Big::Zero)
    } else if matches_ci(s, "nan"@) || matches_ci(s, "+nan"@) || matches_ci(s, "-nan"@) {
        Some(Big::NaN)
    } else if matches_ci(s, "inf"@) || matches_ci(s, "+inf"@) || matches_ci(s, "infinity"@)
        || matches_ci(s, "+infinity"@) {
        Some(Big::Infinity(InfinityKind::Positive))
    } else if matches_ci(s, "-inf"@) || matches_ci(s, "-infinity"@) {
        Some(Big::Infinity(InfinityKind::Negative))
    } else if spec_marker_count(s) == 0 {
        match spec_parse_mant(s) {
            Some(p) => Some(spec_assemble(p.0, p.1, p.2)),
            None => None,
        }
    } else if spec_marker_count(s) == 1 {
        let cut = spec_first_marker(s);
        match (spec_parse_mant(s.take(cut)), spec_parse_exp(s.skip(cut + 1))) {
            (Some(p), Some(ev)) => Some(spec_assemble(p.0, p.1, ev + p.2)),
            _ => None,
        }
    } else {
        None
    }
}

/// Which error a text that stands for no value must come back with: `Parts`
/// unless exactly one of the two halves around a single marker is
/// malformed, in which case that half's error carries the half itself.
pub open spec fn spec_error_matches(s: Seq<char>, e: ParseError) -> bool {
    if spec_marker_count(s) != 1 {
        e is Parts
    } else {
        let cut = spec_first_marker(s);
        let mant_ok = spec_parse_mant(s.take(cut)) is Some;
        let exp_ok = spec_parse_exp(s.skip(cut + 1)) is Some;
        if !mant_ok && exp_ok {
            e matches ParseError::Mantissa(t) && t@ == s.take(cut)
        } else if mant_ok && !exp_ok {
            e matches ParseError::Exponent(t) && t@ == s.skip(cut + 1)
        } else {
            e is Parts
        }
    }
}

/// ASCII lowercasing, computed.
fn lower_char(c: char) -> (r: char)
    ensures
        r == spec_lower(c),
{
    match c {
        'A' => 'a',
        'B' => 'b',
        'C' => 'c',
        'D' => 'd',
        'E' => 'e',
        'F' => 'f',
        'G' => 'g',
        'H' => 'h',
        'I' => 'i',
        'J' => 'j',
        'K' => 'k',
        'L' => 'l',
        'M' => 'm',
        'N' => 'n',
        'O' => 'o',
        'P' => 'p',
        'Q' => 'q',
        'R' => 'r',
        'S' => 's',
        'T' => 't',
        'U' => 'u',
        'V' => 'v',
        'W' => 'w',
        'X' => 'x',
        'Y' => 'y',
        'Z' => 'z',
        other => other,
    }
}

/// The value of a digit character, or ten, computed.
fn digit_of(c: char) -> (d: u32)
    ensures
        d == spec_digit_of(c),
{
    match c {
        '0' => 0,
        '1' => 1,
        '2' => 2,
        '3' => 3,
        '4' => 4,
        '5' => 5,
        '6' => 6,
        '7' => 7,
        '8' => 8,
        '9' => 9,
        _ => 10,
    }
}

/// Case-insensitive (ASCII) comparison against a lowercase keyword.
fn eq_ignore_case(s: &str, kw: &str) -> (b: bool)
    ensures
        b == matches_ci(s@, kw@),
{
    let n: usize = s.unicode_len();
    let m: usize = kw.unicode_len();
    if n != m {
        return false;
    }
    let mut i: usize = 0;
    while i < n
        invariant
            i <= n,
            n == s@.len(),
            n == kw@.len(),
            forall|j: int| 0 <= j < i ==> spec_lower(s@[j]) == kw@[j],
        decreases n - i,
    {
        let c = s.get_char(i);
        let k = kw.get_char(i);
        if lower_char(c) != k {
            return false;
        }
        i = i + 1;
    }
    true
}

/// The digit-and-dot scan over `s[i..end]`, mirroring `spec_scan_mant`.
fn scan_mant(s: &str, i: usize, end: usize, acc: u128, fexp: i128, after_dot: bool, seen: bool)
    -> (r: Option<(u128, i128)>)
    requires
        i <= end <= s@.len(),
        acc < MANT_CAP,
        -(i as int) <= fexp <= i as int,
    ensures
        (match r {
            Some(p) => {
                &&& spec_scan_mant(
                    s@.subrange(i as int, end as int),
                    acc as int,
                    fexp as int,
                    after_dot,
                    seen,
                ) == Some((p.0 as int, p.1 as int))
                &&& p.0 < MANT_CAP
                &&& -(end as int) <= p.1 <= end as int
            },
            None => spec_scan_mant(
                s@.subrange(i as int, end as int),
                acc as int,
                fexp as int,
                after_dot,
                seen,
            ) is None,
        }),
    decreases end - i,
{
    if i == end {
        if seen {
            Some((acc, fexp))
        } else {
            None
        }
    } else {
        proof {
            assert(s@.subrange(i as int, end as int)[0] == s@[i as int]);
            assert(s@.subrange(i as int, end as int).skip(1) =~= s@.subrange(
                i as int + 1,
                end as int,
            ));
        }
        let c = s.get_char(i);
        let d: u32 = digit_of(c);
        if d < 10 {
            if acc < (SCALE as u128) {
                scan_mant(
                    s,
                    i + 1,
                    end,
                    acc * 10 + (d as u128),
                    if after_dot {
                        fexp - 1
                    } else {
                        fexp
                    },
                    after_dot,
                    true,
                )
            } else {
                scan_mant(
                    s,
                    i + 1,
                    end,
                    acc,
                    if after_dot {
                        fexp
                    } else {
                        fexp + 1
                    },
                    after_dot,
                    true,
                )
            }
        } else if c == '.' && !after_dot {
            scan_mant(s, i + 1, end, acc, fexp, true, seen)
        } else {
            None
        }
    }
}

/// The digit scan over `s[i..end]`, mirroring `spec_scan_exp`.
fn scan_exp(s: &str, i: usize, end: usize, acc: u128) -> (r: Option<u128>)
    requires
        i <= end <= s@.len(),
        acc <= EXP_SAT,
    ensures
        (match r {
            Some(v) => spec_scan_exp(s@.subrange(i as int, end as int), acc as int) == Some(
                v as int,
            ) && v <= EXP_SAT,
            None => spec_scan_exp(s@.subrange(i as int, end as int), acc as int) is None,
        }),
    decreases end - i,
{
    if i == end {
        Some(acc)
    } else {
        proof {
            assert(s@.subrange(i as int, end as int)[0] == s@[i as int]);
            assert(s@.subrange(i as int, end as int).skip(1) =~= s@.subrange(
                i as int + 1,
                end as int,
            ));
        }
        let c = s.get_char(i);
        let d: u32 = digit_of(c);
        if d < 10 {
            let acc2: u128 = if acc > EXP_CAP {
                EXP_SAT
            } else {
                acc * 10 + (d as u128)
            };
            scan_exp(s, i + 1, end, acc2)
        } else {
            None
        }
    }
}

/// A signed mantissa over `s[from..to]`, mirroring `spec_parse_mant`.
fn parse_mant_part(s: &str, from: usize, to: usize) -> (r: Option<(bool, u128, i128)>)
    requires
        from <= to <= s@.len(),
    ensures
        (match r {
            Some(p) => spec_parse_mant(s@.subrange(from as int, to as int)) == Some(
                (p.0, p.1 as int, p.2 as int),
            ) && p.1 < MANT_CAP && -(to as int) <= p.2 <= to as int,
            None => spec_parse_mant(s@.subrange(from as int, to as int)) is None,
        }),
{
    proof {
        if from < to {
            assert(s@.subrange(from as int, to as int)[0] == s@[from as int]);
            assert(s@.subrange(from as int, to as int).skip(1) =~= s@.subrange(
                from as int + 1,
                to as int,
            ));
        }
    }
    if from < to {
        let c0 = s.get_char(from);
        if c0 == '+' || c0 == '-' {
            match scan_mant(s, from + 1, to, 0, 0, false, false) {
                Some(p) => Some((c0 == '-', p.0, p.1)),
                None => None,
            }
        } else {
            match scan_mant(s, from, to, 0, 0, false, false) {
                Some(p) => Some((false, p.0, p.1)),
                None => None,
            }
        }
    } else {
        match scan_mant(s, from, to, 0, 0, false, false) {
            Some(p) => Some((false, p.0, p.1)),
            None => None,
        }
    }
}

/// A signed exponent over `s[from..to]`, mirroring `spec_parse_exp`.
fn parse_exp_part(s: &str, from: usize, to: usize) -> (r: Option<i128>)
    requires
        from <= to <= s@.len(),
    ensures
        (match r {
            Some(v) => spec_parse_exp(s@.subrange(from as int, to as int)) == Some(v as int)
                && -(EXP_SAT as i128) <= v <= EXP_SAT as i128,
            None => spec_parse_exp(s@.subrange(from as int, to as int)) is None,
        }),
{
    proof {
        if from < to {
            assert(s@.subrange(from as int, to as int)[0] == s@[from as int]);
            assert(s@.subrange(from as int, to as int).skip(1) =~= s@.subrange(
                from as int + 1,
                to as int,
            ));
        }
    }
    if from < to {
        let c0 = s.get_char(from);
        if c0 == '+' || c0 == '-' {
            if from + 1 < to {
                match scan_exp(s, from + 1, to, 0) {
                    Some(v) => Some(
                        if c0 == '-' {
                            -(v as i128)
                        } else {
                            v as i128
                        },
                    ),
                    None => None,
                }
            } else {
                None
            }
        } else {
            match scan_exp(s, from, to, 0) {
                Some(v) => Some(v as i128),
                None => None,
            }
        }
    } else {
        None
    }
}

/// Build the value a parsed digit magnitude and total decimal exponent
/// stand for.
fn assemble(neg: bool, units: u128, total: i128) -> (r: Big)
    requires
        units < MANT_CAP,
        -10_000_000_000_000_000_000_000 <= total <= 10_000_000_000_000_000_000_000,
    ensures
        r == spec_assemble(neg, units as int, total as int),
        r.is_wf(),
{
    if units == 0 {
        return Big::Zero;
    }
    let d: u32 = crate::digits::digits_u128(units);
    proof {
        crate::digits::lemma_digits_bounds(units as nat);
        crate::digits::lemma_pow10_values();
        if d > 15 {
            crate::digits::lemma_pow10_increases(15, (d - 1) as nat);
        }
        crate::digits::lemma_pow10_pos((15 - d) as nat);
        crate::digits::lemma_pow10_adds((d - 1) as nat, (15 - d) as nat);
        crate::digits::lemma_pow10_adds(d as nat, (15 - d) as nat);
        vstd::arithmetic::mul::lemma_mul_inequality(
            pow10((d - 1) as nat),
            units as int,
            pow10((15 - d) as nat),
        );
        vstd::arithmetic::mul::lemma_mul_inequality(
            units as int + 1,
            pow10(d as nat),
            pow10((15 - d) as nat),
        );
        vstd::arithmetic::mul::lemma_mul_is_distributive_add_other_way(
            pow10((15 - d) as nat),
            units as int,
            1,
        );
    }
    let efinal: i128 = total + (d as i128) - 1;
    if efinal > i64::MAX as i128 {
        Big::Infinity(
            if neg {
                InfinityKind::Negative
            } else {
                InfinityKind::Positive
            },
        )
    } else if efinal < i64::MIN as i128 {
        Big::Zero
    } else {
        let us: u128 = units * crate::digits::pow10_u128(15 - d);
        let m: i128 = if neg {
            -(us as i128)
        } else {
            us as i128
        };
        Big::Number { m, e: efinal as i64 }
    }
}

impl Big {
    /// Parse a value from text: the case-insensitive words `0`, `nan`,
    /// `inf`/`infinity` (the latter optionally signed), or a decimal
    /// literal with an optional `e`/`E` exponent. The typed error says
    /// which part of a rejected input was malformed.
    pub fn from_str(s: &str) -> (r: Result<Big, ParseError>)
        ensures
            (match r {
                Ok(v) => spec_parse_value(s@) == Some(v),
                Err(e) => spec_parse_value(s@) is None && spec_error_matches(s@, e),
            }),
    {
        if eq_ignore_case(s, "0") {
            return Ok(Big::Zero);
        }
        if eq_ignore_case(s, "nan") || eq_ignore_case(s, "+nan") || eq_ignore_case(s, "-nan") {
            return Ok(Big::NaN);
        }
        if eq_ignore_case(s, "inf") || eq_ignore_case(s, "+inf") || eq_ignore_case(s, "infinity")
            || eq_ignore_case(s, "+infinity") {
            return Ok(Big::Infinity(InfinityKind::Positive));
        }
        if eq_ignore_case(s, "-inf") || eq_ignore_case(s, "-infinity") {
            return Ok(Big::Infinity(InfinityKind::Negative));
        }
        let n: usize = s.unicode_len();
        let mut i: usize = 0;
        let mut count: usize = 0;
        let mut first: usize = n;
        proof {
            assert(s@.skip(0) =~= s@);
        }
        while i < n
            invariant
                i <= n,
                count <= i,
                n == s@.len(),
                count + spec_marker_count(s@.skip(i as int)) == spec_marker_count(s@),
                count == 0 ==> first == n && spec_first_marker(s@) == i + spec_first_marker(
                    s@.skip(i as int),
                ),
                count >= 1 ==> first < i && spec_first_marker(s@) == first,
            decreases n - i,
        {
            proof {
                assert(s@.skip(i as int)[0] == s@[i as int]);
                assert(s@.skip(i as int).skip(1) =~= s@.skip(i as int + 1));
            }
            let c = s.get_char(i);
            if c == 'e' || c == 'E' {
                if count == 0 {
                    first = i;
                }
                count = count + 1;
            }
            i = i + 1;
        }
        proof {
            assert(s@.skip(n as int) =~= Seq::<char>::empty());
        }
        if count == 0 {
            proof {
                assert(s@.subrange(0, n as int) =~= s@);
            }
            match parse_mant_part(s, 0, n) {
                Some(p) => Ok(assemble(p.0, p.1, p.2)),
                None => Err(ParseError::Parts),
            }
        } else if count == 1 {
            proof {
                assert(s@.subrange(0, first as int) =~= s@.take(first as int));
                assert(s@.subrange(first as int + 1, n as int) =~= s@.skip(first as int + 1));
            }
            let mant = parse_mant_part(s, 0, first);
            let exp = parse_exp_part(s, first + 1, n);
            match (mant, exp) {
                (Some(p), Some(ev)) => Ok(assemble(p.0, p.1, ev + p.2)),
                (None, Some(_)) => Err(ParseError::Mantissa(s.substring_char(0, first).to_owned())),
                (Some(_), None) => Err(
                    ParseError::Exponent(s.substring_char(first + 1, n).to_owned()),
                ),
                (None, None) => Err(ParseError::Parts),
            }
        } else {
            Err(ParseError::Parts)
        }
    }
}

impl From<i64> for Big {
    /// A 64-bit integer, read as a mantissa over exponent zero and
    /// normalized.
    fn from(value: i64) -> (r: Big) {
        proof {
            crate::arith::lemma_mul_bound(
                value as int,
                0x8000_0000_0000_0000,
                SCALE as int,
                SCALE as int,
            );
        }
        Big::new((value as i128) * SCALE, 0)
    }
}

impl vstd::std_specs::convert::FromSpecImpl<i64> for Big {
    open spec fn obeys_from_spec() -> bool {
        true
    }

    open spec fn from_spec(v: i64) -> Big {
        spec_normalize_parts(v * SCALE, 0)
    }
}

impl From<i32> for Big {
    /// A 32-bit integer, read as a mantissa over exponent zero and
    /// normalized.
    fn from(value: i32) -> (r: Big) {
        proof {
            crate::arith::lemma_mul_bound(
                value as int,
                0x8000_0000,
                SCALE as int,
                SCALE as int,
            );
        }
        Big::new((value as i128) * SCALE, 0)
    }
}

impl vstd::std_specs::convert::FromSpecImpl<i32> for Big {
    open spec fn obeys_from_spec() -> bool {
        true
    }

    open spec fn from_spec(v: i32) -> Big {
        spec_normalize_parts(v * SCALE, 0)
    }
}

} // verus!
