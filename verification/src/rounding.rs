//! Whole-number arithmetic: division that rounds halves to even, and narrowing to a smaller type.

use vstd::prelude::*;

use crate::canonical::RejectReason;

verus! {

/// How positions round what does not divide evenly.
#[derive(Clone, Copy, PartialEq, Eq, Debug, Structural)]
pub enum PositionRounding {
    /// To the nearest integer, halves to the even one.
    HalfEven,
}

/// The rounding that positions use.
pub const POSITION_ROUNDING: PositionRounding = PositionRounding::HalfEven;

/// `n / d` rounded to the nearest integer, halves to the even one.
pub open spec fn half_even(n: int, d: int) -> int
    recommends
        d > 0,
{
    let quotient = n / d;
    let remainder = n % d;
    if 2 * remainder < d || (2 * remainder == d && quotient % 2 == 0) {
        quotient
    } else {
        quotient + 1
    }
}

/// Whether `q` is a nearest integer to `n / d`, and the even one of two that are equally near.
pub open spec fn rounds_half_even(n: int, d: int, q: int) -> bool {
    let gap = n - q * d;
    &&& -d <= 2 * gap <= d
    &&& (2 * gap == d || 2 * gap == -d) ==> q % 2 == 0
}

/// Half-even rounding gives a nearest integer, the even one of two, and no other integer is so.
pub proof fn law_half_even_is_nearest(n: int, d: int, q: int)
    requires
        d > 0,
    ensures
        rounds_half_even(n, d, q) <==> q == half_even(n, d),
{
    let quotient = n / d;
    let remainder = n % d;
    vstd::arithmetic::div_mod::lemma_fundamental_div_mod(n, d);
    assert(n == quotient * d + remainder) by (nonlinear_arith)
        requires
            n == d * quotient + remainder,
    ;
    assert((quotient + 1) * d == quotient * d + d) by (nonlinear_arith);
    let best = half_even(n, d);
    assert(rounds_half_even(n, d, best));
    if rounds_half_even(n, d, q) && q != best {
        let step = q - best;
        assert(q * d == best * d + step * d) by (nonlinear_arith)
            requires
                q == best + step,
        ;
        let near = n - best * d;
        assert(-d <= 2 * near <= d);
        if step >= 2 {
            assert(step * d >= 2 * d) by (nonlinear_arith)
                requires
                    step >= 2,
                    d > 0,
            ;
        } else if step <= -2 {
            assert(step * d <= -2 * d) by (nonlinear_arith)
                requires
                    step <= -2,
                    d > 0,
            ;
        } else if step == 1 {
            assert(step * d == d) by (nonlinear_arith)
                requires
                    step == 1,
            ;
        } else {
            assert(step * d == -d) by (nonlinear_arith)
                requires
                    step == -1,
            ;
        }
    }
}

/// Rounding a non-negative ratio stays between the ratio rounded down and rounded up.
pub proof fn lemma_half_even_bounds(n: int, d: int)
    requires
        d > 0,
        n >= 0,
    ensures
        0 <= half_even(n, d) <= n,
        n / d <= half_even(n, d) <= n / d + 1,
{
    let quotient = n / d;
    let remainder = n % d;
    vstd::arithmetic::div_mod::lemma_fundamental_div_mod(n, d);
    assert(quotient >= 0) by (nonlinear_arith)
        requires
            quotient == n / d,
            n >= 0,
            d > 0,
    ;
    assert(d * quotient >= quotient) by (nonlinear_arith)
        requires
            d >= 1,
            quotient >= 0,
    ;
}

/// Whether [`div_round_half_even`] can divide: the ratio is not negative and the doubled
/// remainder fits.
pub open spec fn divides_half_even(n: int, d: int) -> bool {
    n >= 0 && d > 0 && 2 * (n % d) <= i128::MAX
}

/// Half-even rounding in plain words: no integer is nearer to the ratio, and of two that are
/// equally near it is the even one.
pub proof fn law_half_even_rounds_to_the_nearest(n: int, d: int, other: int)
    requires
        d > 0,
    ensures
        ({
            let gap = n - half_even(n, d) * d;
            let other_gap = n - other * d;
            let far = if gap < 0 {
                -gap
            } else {
                gap
            };
            let other_far = if other_gap < 0 {
                -other_gap
            } else {
                other_gap
            };
            &&& 2 * far <= d
            &&& far <= other_far
            &&& far == other_far && other != half_even(n, d) ==> half_even(n, d) % 2 == 0
        }),
{
    let q = half_even(n, d);
    law_half_even_is_nearest(n, d, q);
    let step = other - q;
    assert(other * d == q * d + step * d) by (nonlinear_arith)
        requires
            other == q + step,
    ;
    if step >= 1 {
        assert(step * d >= d) by (nonlinear_arith)
            requires
                step >= 1,
                d > 0,
        ;
    } else if step <= -1 {
        assert(step * d <= -d) by (nonlinear_arith)
            requires
                step <= -1,
                d > 0,
        ;
    } else {
        assert(step * d == 0) by (nonlinear_arith)
            requires
                step == 0,
        ;
    }
}

/// A division is made for every ratio that is not negative, as long as twice the remainder fits.
pub proof fn law_division_is_made_where_it_fits(n: int, d: int)
    ensures
        divides_half_even(n, d) <==> n >= 0 && d > 0 && 2 * (n % d) <= i128::MAX,
{
}

/// Divides and rounds to the nearest integer, halves to the even one.
pub fn div_round_half_even(numerator: i128, denominator: i128) -> (result: Result<
    i128,
    RejectReason,
>)
    ensures
        match result {
            Ok(rounded) => divides_half_even(numerator as int, denominator as int) && rounded
                == half_even(numerator as int, denominator as int),
            Err(reason) => !divides_half_even(numerator as int, denominator as int) && reason
                == RejectReason::ArithmeticOverflow,
        },
{
    if numerator < 0 || denominator <= 0 {
        return Err(RejectReason::ArithmeticOverflow);
    }
    let quotient: i128 = numerator / denominator;
    let remainder: i128 = numerator % denominator;
    match remainder.checked_mul(2) {
        None => Err(RejectReason::ArithmeticOverflow),
        Some(doubled) => {
            if doubled < denominator || (doubled == denominator && quotient % 2 == 0) {
                Ok(quotient)
            } else {
                proof {
                    lemma_half_even_bounds(numerator as int, denominator as int);
                }
                Ok(quotient + 1)
            }
        },
    }
}

/// Whether `n` is an `i64`.
pub open spec fn fits_i64(n: int) -> bool {
    i64::MIN <= n <= i64::MAX
}

/// Whether `n` is an `i128`.
pub open spec fn fits_i128(n: int) -> bool {
    i128::MIN <= n <= i128::MAX
}

/// Narrows to an `i64` where that is possible.
pub fn narrow(value: i128) -> (result: Result<i64, RejectReason>)
    ensures
        match result {
            Ok(narrowed) => narrowed == value,
            Err(reason) => !fits_i64(value as int) && reason == RejectReason::ArithmeticOverflow,
        },
{
    if value < i64::MIN as i128 || value > i64::MAX as i128 {
        Err(RejectReason::ArithmeticOverflow)
    } else {
        Ok(value as i64)
    }
}

} // verus!
