//! Double-precision arithmetic on whole numbers: what a product, a quotient and a rounding to an
//! integer come to when every step is rounded to 53 significant bits.

use vstd::arithmetic::power2::{
    lemma2_to64, lemma_pow2_adds, lemma_pow2_pos, lemma_pow2_strictly_increases, pow2,
};
use vstd::prelude::*;

use crate::boundary::{exponent_bits, exponent_field, fraction_bits, fraction_field, sign_field};
use crate::rounding::{
    half_even, law_half_even_is_nearest, lemma_half_even_bounds, rounds_half_even,
};

verus! {

/// Two to the power of 52: the least number of 53 significant bits.
pub const LEAST_DIGITS: u128 = 0x10_0000_0000_0000;

/// The number `digits * 2^exponent`.
pub struct Scaled {
    pub digits: int,
    pub exponent: int,
}

/// The double nearest to the positive number `n / d`, the even one of two that are equally near.
/// The number is halved or doubled until its integral part has 53 bits; that part is rounded,
/// and the exponent counts the steps. The range of the exponent is not bounded here.
pub open spec fn nearest(n: int, d: int) -> Scaled
    decreases
            (if n < d * LEAST_DIGITS {
                d * LEAST_DIGITS - n
            } else if n >= 2 * d * LEAST_DIGITS {
                n - 2 * d * LEAST_DIGITS + 1
            } else {
                0
            }),
    when n > 0 && d > 0
{
    if n < d * LEAST_DIGITS {
        let closer = nearest(2 * n, d);
        Scaled { exponent: closer.exponent - 1, ..closer }
    } else if n >= 2 * d * LEAST_DIGITS {
        let closer = nearest(n, 2 * d);
        Scaled { exponent: closer.exponent + 1, ..closer }
    } else {
        Scaled { digits: half_even(n, d), exponent: 0 }
    }
}

/// A double times a whole number, as a double.
pub open spec fn times(a: Scaled, n: int) -> Scaled {
    let product = nearest(a.digits * n, 1);
    Scaled { exponent: product.exponent + a.exponent, ..product }
}

/// A double over a double, as a double.
pub open spec fn over(a: Scaled, b: Scaled) -> Scaled {
    let quotient = nearest(a.digits, b.digits);
    Scaled { exponent: quotient.exponent + a.exponent - b.exponent, ..quotient }
}

/// Whether a rounded number is too large for a double: two to the power of 1024 or more.
pub open spec fn too_large(a: Scaled) -> bool {
    a.exponent >= 972 || (a.exponent == 971 && a.digits >= 2 * LEAST_DIGITS)
}

/// The integer nearest to a positive number, the larger one of two that are equally near.
pub open spec fn whole(a: Scaled) -> int {
    if a.exponent >= 0 {
        a.digits * pow2(a.exponent as nat)
    } else {
        (a.digits + pow2((-a.exponent - 1) as nat)) / (pow2((-a.exponent) as nat) as int)
    }
}

/// Whether a number is further from the nearest integer than eight units of relative rounding
/// error, or eight units of rounding error at one for a number below one: by more than
/// `max(a, 1) / 2^49`.
pub open spec fn off_grid(a: Scaled) -> bool {
    a.exponent < 0 && {
        let unit = pow2((-a.exponent) as nat) as int;
        let gap = a.digits - whole(a) * unit;
        let bound = if a.digits > unit {
            a.digits
        } else {
            unit
        };
        gap * 0x2_0000_0000_0000 > bound || -gap * 0x2_0000_0000_0000 > bound
    }
}

/// Whether a binary64 encoding stands for a number above zero that is not infinite.
pub open spec fn is_positive(bits: u64) -> bool {
    &&& !sign_field(bits)
    &&& exponent_field(bits) < 0x7FF
    &&& exponent_field(bits) > 0 || fraction_field(bits) > 0
}

/// The number that a binary64 encoding above zero stands for.
pub open spec fn number(bits: u64) -> Scaled {
    if exponent_field(bits) == 0 {
        Scaled { digits: fraction_field(bits), exponent: -1074 }
    } else {
        Scaled {
            digits: LEAST_DIGITS + fraction_field(bits),
            exponent: exponent_field(bits) - 1075,
        }
    }
}

proof fn lemma_powers()
    ensures
        pow2(52) == LEAST_DIGITS,
        pow2(53) == 2 * LEAST_DIGITS,
        pow2(49) == 0x2_0000_0000_0000,
        pow2(63) == 0x8000_0000_0000_0000,
        pow2(10) == 1024,
        pow2(11) == 2048,
        pow2(102) == 2 * LEAST_DIGITS * 0x2_0000_0000_0000,
        pow2(127) == i128::MAX + 1,
{
    lemma2_to64();
    lemma_pow2_adds(32, 20);
    lemma_pow2_adds(32, 21);
    lemma_pow2_adds(32, 17);
    lemma_pow2_adds(32, 31);
    lemma_pow2_adds(53, 49);
    lemma_pow2_adds(63, 64);
}

/// A power of two that fits has an exponent below 127.
proof fn lemma_power_fits(n: nat, exponent: nat)
    requires
        pow2(exponent) <= n <= i128::MAX,
    ensures
        exponent < 127,
        pow2(exponent + 1) == 2 * pow2(exponent),
{
    lemma_powers();
    lemma2_to64();
    lemma_pow2_adds(exponent, 1);
    if exponent > 127 {
        lemma_pow2_strictly_increases(127, exponent);
    }
}

/// The nearest double has 53 significant bits, or is the power of two above them.
pub proof fn lemma_nearest_digits(n: int, d: int)
    requires
        n > 0,
        d > 0,
    ensures
        LEAST_DIGITS <= nearest(n, d).digits <= 2 * LEAST_DIGITS,
    decreases
            (if n < d * LEAST_DIGITS {
                d * LEAST_DIGITS - n
            } else if n >= 2 * d * LEAST_DIGITS {
                n - 2 * d * LEAST_DIGITS + 1
            } else {
                0
            }),
{
    if n < d * LEAST_DIGITS {
        lemma_nearest_digits(2 * n, d);
    } else if n >= 2 * d * LEAST_DIGITS {
        lemma_nearest_digits(n, 2 * d);
    } else {
        lemma_half_even_bounds(n, d);
        assert(LEAST_DIGITS <= n / d < 2 * LEAST_DIGITS) by (nonlinear_arith)
            requires
                d > 0,
                d * LEAST_DIGITS <= n,
                n < 2 * d * LEAST_DIGITS,
        ;
    }
}

/// Of all multiples of a unit in the last place, [`nearest`] is the one nearest to `n / d`, and
/// the even one of two that are equally near. The unit is such that 53 bits stand above it.
pub proof fn law_nearest_is_nearest(n: int, d: int)
    requires
        n > 0,
        d > 0,
    ensures
        nearest(n, d).exponent <= 0 ==> rounds_half_even(
            n * pow2((-nearest(n, d).exponent) as nat),
            d,
            nearest(n, d).digits,
        ),
        nearest(n, d).exponent >= 0 ==> rounds_half_even(
            n,
            d * pow2(nearest(n, d).exponent as nat),
            nearest(n, d).digits,
        ),
        n < 2 * d * LEAST_DIGITS ==> nearest(n, d).exponent <= 0,
        n >= d * LEAST_DIGITS ==> nearest(n, d).exponent >= 0,
    decreases
            (if n < d * LEAST_DIGITS {
                d * LEAST_DIGITS - n
            } else if n >= 2 * d * LEAST_DIGITS {
                n - 2 * d * LEAST_DIGITS + 1
            } else {
                0
            }),
{
    lemma2_to64();
    let e = nearest(n, d).exponent;
    if n < d * LEAST_DIGITS {
        law_nearest_is_nearest(2 * n, d);
        lemma_pow2_adds((-e - 1) as nat, 1);
        assert(2 * n * pow2((-e - 1) as nat) == n * pow2((-e) as nat)) by (nonlinear_arith)
            requires
                pow2((-e) as nat) == 2 * pow2((-e - 1) as nat),
        ;
    } else if n >= 2 * d * LEAST_DIGITS {
        law_nearest_is_nearest(n, 2 * d);
        lemma_pow2_adds((e - 1) as nat, 1);
        assert(2 * d * pow2((e - 1) as nat) == d * pow2(e as nat)) by (nonlinear_arith)
            requires
                pow2(e as nat) == 2 * pow2((e - 1) as nat),
        ;
    } else {
        law_half_even_is_nearest(n, d, half_even(n, d));
        assert(n * pow2(0) == n);
        assert(d * pow2(0) == d);
    }
}

/// A number `digits * 2^exponent` in machine integers.
#[derive(Clone, Copy, PartialEq, Eq, Debug)]
pub struct Double {
    pub digits: u128,
    pub exponent: i64,
}

impl View for Double {
    type V = Scaled;

    open spec fn view(&self) -> Scaled {
        Scaled { digits: self.digits as int, exponent: self.exponent as int }
    }
}

/// The double nearest to `n / d`.
pub fn nearest_double(n: u128, d: u128) -> (double: Double)
    requires
        0 < n,
        n as int <= i128::MAX,
        0 < d,
        d <= 2 * LEAST_DIGITS,
    ensures
        double@ == nearest(n as int, d as int),
        LEAST_DIGITS <= double.digits <= 2 * LEAST_DIGITS,
        -127 <= double.exponent <= 127,
{
    let mut num: u128 = n;
    let mut den: u128 = d;
    let mut exponent: i64 = 0;
    proof {
        lemma2_to64();
        lemma_nearest_digits(n as int, d as int);
    }
    while num < den * LEAST_DIGITS
        invariant
            0 < n,
            0 < d,
            0 < num,
            num as int <= i128::MAX,
            0 < den <= 2 * LEAST_DIGITS,
            -127 <= exponent <= 0,
            num >= pow2((-exponent) as nat),
            exponent < 0 ==> num < 2 * den * LEAST_DIGITS,
            nearest(n as int, d as int).digits == nearest(num as int, den as int).digits,
            nearest(n as int, d as int).exponent == nearest(num as int, den as int).exponent
                + exponent,
        decreases i128::MAX - num,
    {
        proof {
            lemma_power_fits(num as nat, (-exponent) as nat);
        }
        num = num * 2;
        exponent = exponent - 1;
    }
    proof {
        lemma2_to64();
    }
    while num / 0x20_0000_0000_0000 >= den
        invariant
            0 < n,
            0 < d,
            0 < num,
            num as int <= i128::MAX,
            0 < den,
            -127 <= exponent <= 127,
            num >= den * LEAST_DIGITS,
            exponent < 0 ==> num < 2 * den * LEAST_DIGITS,
            exponent >= 0 ==> den >= pow2(exponent as nat),
            nearest(n as int, d as int).digits == nearest(num as int, den as int).digits,
            nearest(n as int, d as int).exponent == nearest(num as int, den as int).exponent
                + exponent,
        decreases num - den,
    {
        assert(num >= 2 * den * LEAST_DIGITS);
        proof {
            lemma_power_fits(den as nat, exponent as nat);
        }
        den = den * 2;
        exponent = exponent + 1;
    }
    assert(num < 0x20_0000_0000_0000 * den);
    assert(nearest(num as int, den as int).exponent == 0);
    let quotient: u128 = num / den;
    let remainder: u128 = num % den;
    let digits: u128 = if 2 * remainder < den || (2 * remainder == den && quotient % 2 == 0) {
        quotient
    } else {
        quotient + 1
    };
    assert(digits == half_even(num as int, den as int));
    Double { digits, exponent }
}

/// Two to the power of `exponent`.
fn power_of_two(exponent: i64) -> (power: u128)
    requires
        0 <= exponent <= 102,
    ensures
        power == pow2(exponent as nat),
{
    let mut power: u128 = 1;
    let mut done: i64 = 0;
    proof {
        lemma2_to64();
    }
    while done < exponent
        invariant
            0 <= done <= exponent <= 102,
            power == pow2(done as nat),
        decreases exponent - done,
    {
        proof {
            lemma_powers();
            lemma_pow2_strictly_increases(done as nat, 102);
            lemma_pow2_adds(done as nat, 1);
            lemma2_to64();
        }
        power = power * 2;
        done = done + 1;
    }
    power
}

/// Whether a binary64 encoding stands for a number above zero that is not infinite.
pub fn positive(bits: u64) -> (above: bool)
    ensures
        above == is_positive(bits),
{
    bits < 0x8000_0000_0000_0000 && exponent_bits(bits) < 0x7FF && (exponent_bits(bits) > 0
        || fraction_bits(bits) > 0)
}

/// The number that a binary64 encoding above zero stands for.
pub fn number_of(bits: u64) -> (double: Double)
    ensures
        double@ == number(bits),
        double.digits < 2 * LEAST_DIGITS,
        -1074 <= double.exponent <= 972,
{
    let exponent: u64 = exponent_bits(bits);
    let fraction: u64 = fraction_bits(bits);
    if exponent == 0 {
        Double { digits: fraction as u128, exponent: -1074 }
    } else {
        Double { digits: LEAST_DIGITS + fraction as u128, exponent: exponent as i64 - 1075 }
    }
}

/// Where a number stands to the integers that fit.
#[derive(Clone, Copy, PartialEq, Eq, Debug, Structural)]
pub enum Whole {
    /// It is an integer, up to rounding error.
    Near(i64),
    /// It is an integer, up to rounding error, that is too large.
    TooLarge,
    /// It lies between two integers.
    Between,
}

/// Where a number stands to the integers that fit.
pub open spec fn to_whole(a: Scaled) -> Whole {
    if off_grid(a) {
        Whole::Between
    } else if whole(a) > i64::MAX {
        Whole::TooLarge
    } else {
        Whole::Near(whole(a) as i64)
    }
}

/// A number of 53 bits with an exponent of 11 or more is too large.
proof fn lemma_large(a: Scaled)
    requires
        a.digits >= LEAST_DIGITS,
        a.exponent >= 11,
    ensures
        whole(a) > i64::MAX,
{
    lemma_powers();
    if a.exponent > 11 {
        lemma_pow2_strictly_increases(11, a.exponent as nat);
    }
    assert(a.digits * pow2(a.exponent as nat) >= LEAST_DIGITS * 2048) by (nonlinear_arith)
        requires
            a.digits >= LEAST_DIGITS,
            pow2(a.exponent as nat) >= 2048,
    ;
}

/// A number of 53 bits with an exponent of -102 or less is zero, up to rounding error.
proof fn lemma_small(a: Scaled)
    requires
        0 <= a.digits <= 2 * LEAST_DIGITS,
        a.exponent <= -102,
    ensures
        whole(a) == 0,
        !off_grid(a),
{
    let k = (-a.exponent) as nat;
    lemma_powers();
    if k > 102 {
        lemma_pow2_strictly_increases(102, k);
    }
    lemma2_to64();
    lemma_pow2_adds((k - 1) as nat, 1);
    let unit = pow2(k) as int;
    let half = pow2((k - 1) as nat) as int;
    assert(a.digits + half < unit);
    assert((a.digits + half) / unit == 0) by (nonlinear_arith)
        requires
            0 <= a.digits + half < unit,
    ;
    assert(0 * unit == 0);
}

/// Where a double stands to the integers that fit.
pub fn whole_of(a: Double) -> (whole: Whole)
    requires
        LEAST_DIGITS <= a.digits <= 2 * LEAST_DIGITS,
        -3000 <= a.exponent <= 3000,
    ensures
        whole == to_whole(a@),
{
    if a.exponent >= 11 {
        proof {
            lemma_large(a@);
        }
        return Whole::TooLarge;
    }
    if a.exponent >= 0 {
        proof {
            lemma_powers();
            if a.exponent < 10 {
                lemma_pow2_strictly_increases(a.exponent as nat, 10);
            }
        }
        let power: u128 = power_of_two(a.exponent);
        assert(a.digits * power <= 2 * LEAST_DIGITS * 1024) by (nonlinear_arith)
            requires
                a.digits <= 2 * LEAST_DIGITS,
                power <= 1024,
        ;
        let value: u128 = a.digits * power;
        if value > i64::MAX as u128 {
            return Whole::TooLarge;
        }
        return Whole::Near(value as i64);
    }
    let k: i64 = -a.exponent;
    if k >= 102 {
        proof {
            lemma_small(a@);
        }
        return Whole::Near(0);
    }
    let unit: u128 = power_of_two(k);
    let half: u128 = power_of_two(k - 1);
    proof {
        lemma_powers();
        lemma_pow2_strictly_increases(k as nat, 102);
        lemma2_to64();
        lemma_pow2_adds((k - 1) as nat, 1);
        lemma_pow2_pos((k - 1) as nat);
    }
    let value: u128 = (a.digits + half) / unit;
    proof {
        lemma_whole_is_near(a.digits as int, half as int, unit as int);
    }
    let back: u128 = value * unit;
    let gap: u128 = if a.digits > back {
        a.digits - back
    } else {
        back - a.digits
    };
    let bound: u128 = if a.digits > unit {
        a.digits
    } else {
        unit
    };
    proof {
        if unit as int > 4 * LEAST_DIGITS {
            assert(value == 0) by (nonlinear_arith)
                requires
                    value as int == (a.digits + half) / (unit as int),
                    a.digits <= 2 * LEAST_DIGITS,
                    unit as int == 2 * half,
                    unit as int > 4 * LEAST_DIGITS,
            ;
            assert(back == 0) by (nonlinear_arith)
                requires
                    back == value * unit,
                    value == 0,
            ;
        }
    }
    if gap * 0x2_0000_0000_0000 > bound {
        return Whole::Between;
    }
    Whole::Near(value as i64)
}

/// Rounding to the nearest integer moves a number by half a unit at most.
proof fn lemma_whole_is_near(digits: int, half: int, unit: int)
    requires
        digits >= 0,
        half > 0,
        unit == 2 * half,
    ensures
        0 <= (digits + half) / unit <= digits,
        0 <= (digits + half) / unit * unit <= digits + half,
        digits - half < (digits + half) / unit * unit,
{
    let quotient = (digits + half) / unit;
    vstd::arithmetic::div_mod::lemma_fundamental_div_mod(digits + half, unit);
    assert(quotient * unit == unit * quotient) by (nonlinear_arith);
    assert(quotient >= 0) by (nonlinear_arith)
        requires
            quotient == (digits + half) / unit,
            digits + half >= 0,
            unit > 0,
    ;
    assert(quotient <= digits) by (nonlinear_arith)
        requires
            quotient * unit <= digits + half,
            unit == 2 * half,
            half >= 1,
            quotient >= 0,
            digits >= 0,
    ;
    assert(quotient * unit >= 0) by (nonlinear_arith)
        requires
            quotient >= 0,
            unit > 0,
    ;
}

/// The binary64 encoding of a number of 53 significant bits. The fraction field leaves out the
/// leading bit, and a full one carries over into the exponent.
pub open spec fn encoded(a: Scaled) -> u64 {
    ((a.exponent + 1075) * LEAST_DIGITS + (a.digits - LEAST_DIGITS)) as u64
}

/// The binary64 encoding of a number of 53 significant bits, in the range of such encodings.
pub fn bits_of(a: Double) -> (bits: u64)
    requires
        LEAST_DIGITS <= a.digits <= 2 * LEAST_DIGITS,
        -1074 <= a.exponent <= 970,
    ensures
        bits == encoded(a@),
        is_positive(bits),
{
    let field: u128 = (a.exponent + 1075) as u128;
    assert(field * LEAST_DIGITS <= 2045 * LEAST_DIGITS) by (nonlinear_arith)
        requires
            field <= 2045,
    ;
    proof {
        law_encoding_reads_back(a@);
    }
    (field * LEAST_DIGITS + (a.digits - LEAST_DIGITS)) as u64
}

/// An encoding stands for the number that was encoded.
pub proof fn law_encoding_reads_back(a: Scaled)
    requires
        LEAST_DIGITS <= a.digits <= 2 * LEAST_DIGITS,
        -1074 <= a.exponent <= 970,
    ensures
        is_positive(encoded(a)),
        a.digits < 2 * LEAST_DIGITS ==> number(encoded(a)) == a,
        a.digits == 2 * LEAST_DIGITS ==> number(encoded(a)) == (Scaled {
            digits: LEAST_DIGITS as int,
            exponent: a.exponent + 1,
        }),
{
}

} // verus!
