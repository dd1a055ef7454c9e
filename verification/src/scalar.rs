//! Fixed-point scalars.
//!
//! A coordinate of a candidate solution is an `i64` counting units of
//! `1 / SCALE`, i.e. a decimal number with exactly ten decimal places. This is
//! the canonical resolution of the library: two coordinates are the same
//! coordinate exactly when these integers are equal, so equality and hashing
//! of candidates need no further rounding step.

use vstd::prelude::*;

verus! {

/// Number of fixed-point units that make up `1.0`: ten decimal places.
pub const SCALE: i64 = 10_000_000_000;

/// Truncating division (rounding toward zero) for a positive divisor `d`.
pub open spec fn tdiv(x: int, d: int) -> int {
    if x >= 0 {
        x / d
    } else {
        -((-x) / d)
    }
}

/// Division by a positive divisor `d`, rounded to the nearest integer with
/// ties away from zero.
pub open spec fn round_div(x: int, d: int) -> int {
    if x >= 0 {
        (x + d / 2) / d
    } else {
        -(((-x) + d / 2) / d)
    }
}

/// Clamp a mathematical integer into the `i64` range.
pub open spec fn clamp_i64(x: int) -> int {
    if x > i64::MAX {
        i64::MAX as int
    } else if x < i64::MIN {
        i64::MIN as int
    } else {
        x
    }
}

/// The average of two scalars, truncated toward zero at the fixed-point grain.
pub open spec fn spec_avg(a: int, b: int) -> int {
    tdiv(a + b, 2)
}

/// The product of a scalar and a fixed-point factor, rounded to the nearest
/// unit (ties away from zero) and saturated at the `i64` bounds.
pub open spec fn spec_mul_fixed(a: int, f: int) -> int {
    clamp_i64(round_div(a * f, SCALE as int))
}

/// Averaging a value with itself gives the value back.
pub proof fn lemma_avg_idempotent(a: int)
    ensures
        spec_avg(a, a) == a,
{
    if a >= 0 {
        assert((a + a) / 2 == a) by (nonlinear_arith);
    } else {
        assert(((-a) + (-a)) / 2 == -a) by (nonlinear_arith);
    }
}

/// The average of two scalars lies between them (inclusive).
pub proof fn lemma_avg_bounds(a: int, b: int)
    requires
        a <= b,
    ensures
        a <= spec_avg(a, b) <= b,
{
    let s = a + b;
    assert(2 * a <= s <= 2 * b);
    if s >= 0 {
        assert(s / 2 <= b && a <= s / 2) by (nonlinear_arith)
            requires
                2 * a <= s <= 2 * b && s >= 0;
    } else {
        assert(-((-s) / 2) <= b && a <= -((-s) / 2)) by (nonlinear_arith)
            requires
                2 * a <= s <= 2 * b && s < 0;
    }
}

/// For a positive divisor, a value below `a * d` divides to below `a`.
pub proof fn lemma_div_bound_lt(y: int, a: int, d: int)
    requires
        d > 0,
        0 <= y,
        y < a * d,
    ensures
        y / d < a,
{
    assert(a * d == d * a) by (nonlinear_arith);
    vstd::arithmetic::div_mod::lemma_multiply_divide_lt(y, d, a);
}

/// For a positive divisor, a value of at least `a * d` divides to at least
/// `a`.
pub proof fn lemma_div_bound_ge(y: int, a: int, d: int)
    requires
        d > 0,
        y >= a * d,
    ensures
        y / d >= a,
{
    assert(a * d == d * a) by (nonlinear_arith);
    vstd::arithmetic::div_mod::lemma_div_multiples_vanish(a, d);
    vstd::arithmetic::div_mod::lemma_div_is_ordered(d * a, y, d);
}

/// Multiplying a scalar by a legal mutation factor (of `[0.8, 1.2)` but not
/// exactly `1.0`) changes it, provided its magnitude is above one half and
/// comfortably away from the saturation bounds.
pub proof fn lemma_mul_fixed_changes(a: int, f: int)
    requires
        8_000_000_000 <= f < 12_000_000_000,
        f != SCALE as int,
        SCALE as int / 2 < a <= i64::MAX as int / 2 || -(i64::MAX as int / 2) <= a < -(
        SCALE as int / 2),
    ensures
        spec_mul_fixed(a, f) != a,
{
    let s = SCALE as int;
    let h = s / 2;
    let x = a * f;
    if a > 0 {
        assert(x >= 0) by (nonlinear_arith)
            requires
                a > 0 && f > 0 && x == a * f;
        if f < s {
            assert(x + h < a * s) by (nonlinear_arith)
                requires
                    x == a * f && f <= s - 1 && a > h && h >= 1 && s == 2 * h;
            lemma_div_bound_lt(x + h, a, s);
            assert(round_div(x, s) < a);
        } else {
            assert(x + h >= (a + 1) * s) by (nonlinear_arith)
                requires
                    x == a * f && f >= s + 1 && a > h && h >= 1 && s == 2 * h;
            lemma_div_bound_ge(x + h, a + 1, s);
            assert(round_div(x, s) > a);
            assert(x + h < (i64::MAX as int) * s) by (nonlinear_arith)
                requires
                    x == a * f && a <= i64::MAX as int / 2 && 0 < f < 12_000_000_000 && h
                        == 5_000_000_000 && s == 10_000_000_000;
            lemma_div_bound_lt(x + h, i64::MAX as int, s);
            assert(round_div(x, s) < i64::MAX);
        }
    } else {
        let b = -a;
        let y = b * f;
        assert(y >= 0 && y == -x) by (nonlinear_arith)
            requires
                b > 0 && f > 0 && y == b * f && x == a * f && b == -a;
        if f < s {
            assert(y + h < b * s) by (nonlinear_arith)
                requires
                    y == b * f && f <= s - 1 && b > h && h >= 1 && s == 2 * h;
            lemma_div_bound_lt(y + h, b, s);
            assert(round_div(x, s) == -((y + h) / s));
            assert(round_div(x, s) > a);
        } else {
            assert(y + h >= (b + 1) * s) by (nonlinear_arith)
                requires
                    y == b * f && f >= s + 1 && b > h && h >= 1 && s == 2 * h;
            lemma_div_bound_ge(y + h, b + 1, s);
            assert(round_div(x, s) < a);
            assert(y + h < (i64::MAX as int) * s) by (nonlinear_arith)
                requires
                    y == b * f && b <= i64::MAX as int / 2 && 0 < f < 12_000_000_000 && h
                        == 5_000_000_000 && s == 10_000_000_000;
            lemma_div_bound_lt(y + h, i64::MAX as int, s);
            assert(round_div(x, s) > i64::MIN);
        }
    }
}

/// The character for a single decimal digit.
pub open spec fn digit_char(d: int) -> char {
    if d == 0 {
        '0'
    } else if d == 1 {
        '1'
    } else if d == 2 {
        '2'
    } else if d == 3 {
        '3'
    } else if d == 4 {
        '4'
    } else if d == 5 {
        '5'
    } else if d == 6 {
        '6'
    } else if d == 7 {
        '7'
    } else if d == 8 {
        '8'
    } else {
        '9'
    }
}

/// The decimal digits of a nonnegative integer, most significant first.
pub open spec fn spec_decimal(n: int) -> Seq<char>
    decreases n,
{
    if n < 10 {
        seq![digit_char(n)]
    } else {
        spec_decimal(n / 10).push(digit_char(n % 10))
    }
}

/// The one-character string for a decimal digit.
fn digit_str(d: u64) -> (r: &'static str)
    requires
        d < 10,
    ensures
        r@ =~= seq![digit_char(d as int)],
{
    proof {
        reveal_strlit("0");
        reveal_strlit("1");
        reveal_strlit("2");
        reveal_strlit("3");
        reveal_strlit("4");
        reveal_strlit("5");
        reveal_strlit("6");
        reveal_strlit("7");
        reveal_strlit("8");
        reveal_strlit("9");
    }
    match d {
        0 => "0",
        1 => "1",
        2 => "2",
        3 => "3",
        4 => "4",
        5 => "5",
        6 => "6",
        7 => "7",
        8 => "8",
        _ => "9",
    }
}

/// Render a nonnegative integer in decimal, most significant digit first.
pub fn u64_to_string(n: u64) -> (r: String)
    ensures
        r@ == spec_decimal(n as int),
    decreases n,
{
    let digit: u64 = n % 10;
    let rest: u64 = n / 10;
    if rest == 0 {
        let r = String::from_str(digit_str(digit));
        proof {
            assert(r@ =~= spec_decimal(n as int));
        }
        r
    } else {
        let mut s = u64_to_string(rest);
        s.append(digit_str(digit));
        proof {
            assert(s@ =~= spec_decimal(n as int));
        }
        s
    }
}

/// Powers of ten up to the canonical resolution.
pub open spec fn spec_pow10(k: int) -> int {
    if k <= 0 {
        1
    } else if k == 1 {
        10
    } else if k == 2 {
        100
    } else if k == 3 {
        1_000
    } else if k == 4 {
        10_000
    } else if k == 5 {
        100_000
    } else if k == 6 {
        1_000_000
    } else if k == 7 {
        10_000_000
    } else if k == 8 {
        100_000_000
    } else if k == 9 {
        1_000_000_000
    } else {
        10_000_000_000
    }
}

/// Exactly `p` decimal digits of `n`, least significant last, with leading
/// zeros kept.
pub open spec fn spec_padded(n: int, p: int) -> Seq<char>
    decreases p,
{
    if p <= 0 {
        Seq::<char>::empty()
    } else {
        spec_padded(n / 10, p - 1).push(digit_char(n % 10))
    }
}

/// The canonical decimal rendering of a scalar at `p` decimal places: the
/// scalar is rounded to `p` decimals (nearest, ties away from zero), and
/// written with exactly `p` digits after the point (none, and no point, for
/// `p == 0`), with a leading minus sign exactly for a negative non-zero
/// rounded value.
pub open spec fn spec_rounded_string(v: int, p: int) -> Seq<char> {
    let q = round_div(v, spec_pow10(10 - p));
    let m = if q < 0 {
        -q
    } else {
        q
    };
    let ip = m / spec_pow10(p);
    let frac = m % spec_pow10(p);
    let body = if p <= 0 {
        spec_decimal(ip)
    } else {
        spec_decimal(ip) + seq!['.'] + spec_padded(frac, p)
    };
    if v < 0 && m != 0 {
        seq!['-'] + body
    } else {
        body
    }
}

/// Exec powers of ten up to the canonical resolution.
fn pow10(k: usize) -> (r: u64)
    requires
        k <= 10,
    ensures
        r as int == spec_pow10(k as int),
        r >= 1,
{
    match k {
        0 => 1,
        1 => 10,
        2 => 100,
        3 => 1_000,
        4 => 10_000,
        5 => 100_000,
        6 => 1_000_000,
        7 => 10_000_000,
        8 => 100_000_000,
        9 => 1_000_000_000,
        _ => 10_000_000_000,
    }
}

/// Exactly `p` decimal digits of `n`, least significant last, with leading
/// zeros kept.
fn padded_digits(n: u64, p: usize) -> (r: String)
    ensures
        r@ == spec_padded(n as int, p as int),
    decreases p,
{
    if p == 0 {
        String::new()
    } else {
        let mut s = padded_digits(n / 10, p - 1);
        s.append(digit_str(n % 10));
        proof {
            assert(s@ =~= spec_padded(n as int, p as int));
        }
        s
    }
}

/// Render a scalar as a decimal number with exactly `precision` decimal
/// places, rounding to the nearest representable value (ties away from
/// zero). With `precision == 10` this is the scalar's canonical form.
pub fn to_rounded_string(value: i64, precision: usize) -> (r: String)
    requires
        precision <= 10,
    ensures
        r@ == spec_rounded_string(value as int, precision as int),
{
    let unit: u64 = pow10(10 - precision);
    let wide: i128 = value as i128;
    let magnitude: u64 = if wide < 0 {
        (-wide) as u64
    } else {
        wide as u64
    };
    let q: u64 = (magnitude + unit / 2) / unit;
    let pow_p: u64 = pow10(precision);
    let ip: u64 = q / pow_p;
    let frac: u64 = q % pow_p;
    let mut s = if value < 0 && q != 0 {
        String::from_str("-")
    } else {
        String::new()
    };
    s.append(u64_to_string(ip).as_str());
    if precision > 0 {
        s.append(".");
        s.append(padded_digits(frac, precision).as_str());
    }
    proof {
        reveal_strlit("-");
        reveal_strlit(".");
        assert(s@ =~= spec_rounded_string(value as int, precision as int));
    }
    s
}

/// The canonical form of a scalar: its decimal rendering with all ten
/// decimal places.
pub fn canonical_string(value: i64) -> (r: String)
    ensures
        r@ == spec_rounded_string(value as int, 10),
{
    to_rounded_string(value, 10)
}

/// Exec average of two scalars; total, since the sum is taken at a wider width.
pub fn avg(a: i64, b: i64) -> (r: i64)
    ensures
        r as int == spec_avg(a as int, b as int),
{
    let s: i128 = a as i128 + b as i128;
    let q: i128 = match s.checked_div(2) {
        Some(q) => q,
        None => {
            proof {
                assert(false);
            }
            0
        },
    };
    proof {
        lemma_avg_bounds(if a <= b { a as int } else { b as int },
            if a <= b { b as int } else { a as int });
    }
    q as i64
}

/// Exec product of a scalar and a fixed-point factor, rounded to the nearest
/// unit (ties away from zero) and saturated at the `i64` bounds.
pub fn mul_fixed(a: i64, f: i64) -> (r: i64)
    ensures
        r as int == spec_mul_fixed(a as int, f as int),
{
    proof {
        assert((a as int) * (f as int) <= 0x8000_0000_0000_0000 * 0x8000_0000_0000_0000
            && (a as int) * (f as int) >= -(0x8000_0000_0000_0000 * 0x8000_0000_0000_0000))
            by (nonlinear_arith)
            requires
                i64::MIN <= a <= i64::MAX && i64::MIN <= f <= i64::MAX;
    }
    let p: i128 = (a as i128) * (f as i128);
    let padded: i128 = if p >= 0 {
        p + 5_000_000_000
    } else {
        p - 5_000_000_000
    };
    let q: i128 = match padded.checked_div(10_000_000_000) {
        Some(q) => q,
        None => {
            proof {
                assert(false);
            }
            0
        },
    };
    if q > i64::MAX as i128 {
        i64::MAX
    } else if q < i64::MIN as i128 {
        i64::MIN
    } else {
        q as i64
    }
}

} // verus!

