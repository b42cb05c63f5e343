//! Prices as the prediction market puts them on the wire.

use vstd::arithmetic::power::{lemma_pow0, lemma_pow1, lemma_pow_adds, pow};
use vstd::arithmetic::power2::{
    lemma2_to64, lemma_pow2_adds, lemma_pow2_pos, lemma_pow2_strictly_increases, pow2,
};
use vstd::prelude::*;

use crate::binary64::{
    bits_of, encoded, is_positive, law_encoding_reads_back, law_nearest_is_nearest,
    lemma_nearest_digits, nearest, nearest_double, number, off_grid, over, times, to_whole,
    too_large, whole, Double, Scaled, Whole, LEAST_DIGITS,
};
use crate::boundary::{WirePrice, WirePriceView};
use crate::canonical::RejectReasonView;
use crate::convert::ticks_of;
use crate::decimal::{
    all_digits, digits_value, fixed_value, law_a_decimal_text_reads_as_its_number,
    law_a_number_is_written_in_decimal, Spelling,
};
use crate::rounding::rounds_half_even;
use crate::text::{chars_of, padded_decimal, push_padded_decimal, push_text, text_of};

verus! {

/// A text without the zeros at its end.
pub open spec fn without_zeros(s: Seq<char>) -> Seq<char>
    decreases s.len(),
{
    if s.len() > 0 && s.last() == '0' {
        without_zeros(s.drop_last())
    } else {
        s
    }
}

/// The price of a number of ten-thousandths of a dollar, less than one dollar, as a
/// double-precision number.
pub open spec fn probability(ticks: int) -> WirePriceView {
    WirePriceView {
        bits: encoded(nearest(ticks, 10_000)),
        text: "0."@ + without_zeros(padded_decimal(ticks as nat, 4)),
    }
}

/// The price of a number of ten-thousandths of a dollar.
pub fn make_probability(ticks: u64) -> (price: WirePrice)
    requires
        0 < ticks < 10_000,
    ensures
        price@ == probability(ticks as int),
{
    let double: Double = nearest_double(ticks as u128, 10_000);
    let bits: u64 = bits_of(double);
    let mut digits = String::new();
    push_padded_decimal(&mut digits, ticks as u128, 4);
    assert(digits@ =~= padded_decimal(ticks as nat, 4));
    let chars = chars_of(digits.as_str());
    let mut end: usize = chars.len();
    assert(chars@.take(end as int) =~= chars@);
    while end > 0 && chars[end - 1] == '0'
        invariant
            end <= chars.len(),
            without_zeros(chars@) == without_zeros(chars@.take(end as int)),
        decreases end,
    {
        assert(chars@.take(end as int).drop_last() =~= chars@.take(end - 1));
        end = end - 1;
    }
    let mut text = String::new();
    push_text(&mut text, "0.");
    let kept = text_of(&chars, 0, end);
    push_text(&mut text, kept.as_str());
    assert(chars@.subrange(0, end as int) =~= chars@.take(end as int));
    assert(text@ =~= "0."@ + without_zeros(padded_decimal(ticks as nat, 4)));
    WirePrice { bits, text }
}

/// Three roundings in a row, of 53 bits each, move a number of ticks by less than the tolerance.
proof fn lemma_three_roundings(
    ticks: int,
    price: int,
    price_unit: int,
    product: int,
    product_unit: int,
    quotient: int,
    quotient_unit: int,
    tick: int,
    unit: int,
)
    requires
        -5_000 <= ticks * price_unit - price * 10_000 <= 5_000,
        -product_unit <= 2 * (price * 1_000_000 - product * product_unit) <= product_unit,
        -tick <= 2 * (product * quotient_unit - quotient * tick) <= tick,
        product_unit >= 524_288,
        0 < quotient_unit,
        100 * quotient_unit <= 400 * tick,
        tick > 0,
        100 * price_unit * quotient_unit == unit * tick * product_unit,
    ensures
        -8 <= quotient - ticks * unit <= 8,
{
    let gap = quotient - ticks * unit;
    let scale = product_unit * tick;
    let first = 2 * quotient_unit * 100 * (price * 10_000 - ticks * price_unit);
    let second = 2 * quotient_unit * (product * product_unit - price * 1_000_000);
    let third = 2 * product_unit * (quotient * tick - product * quotient_unit);
    assert(-1_000_000 * quotient_unit <= first <= 1_000_000 * quotient_unit) by (nonlinear_arith)
        requires
            first == 2 * quotient_unit * 100 * (price * 10_000 - ticks * price_unit),
            -5_000 <= ticks * price_unit - price * 10_000 <= 5_000,
            quotient_unit > 0,
    ;
    assert(-(quotient_unit * product_unit) <= second <= quotient_unit * product_unit)
        by (nonlinear_arith)
        requires
            second == 2 * quotient_unit * (product * product_unit - price * 1_000_000),
            -product_unit <= 2 * (price * 1_000_000 - product * product_unit) <= product_unit,
            quotient_unit > 0,
    ;
    assert(-scale <= third <= scale) by (nonlinear_arith)
        requires
            third == 2 * product_unit * (quotient * tick - product * quotient_unit),
            -tick <= 2 * (product * quotient_unit - quotient * tick) <= tick,
            product_unit > 0,
            scale == product_unit * tick,
    ;
    let moved = scale * gap;
    let grown = quotient_unit * product_unit;
    let priced = quotient_unit * price;
    let middle = quotient_unit * (product * product_unit);
    let ratio = 100 * price_unit * quotient_unit;
    assert(first == 2_000_000 * priced - 2 * (ticks * ratio)) by (nonlinear_arith)
        requires
            first == 2 * quotient_unit * 100 * (price * 10_000 - ticks * price_unit),
            priced == quotient_unit * price,
            ratio == 100 * price_unit * quotient_unit,
    ;
    assert(second == 2 * middle - 2_000_000 * priced) by (nonlinear_arith)
        requires
            second == 2 * quotient_unit * (product * product_unit - price * 1_000_000),
            priced == quotient_unit * price,
            middle == quotient_unit * (product * product_unit),
    ;
    let traded = quotient * tick;
    let taken = product * quotient_unit;
    assert(third == 2 * (product_unit * traded) - 2 * (product_unit * taken)) by (nonlinear_arith)
        requires
            third == 2 * product_unit * (traded - taken),
    ;
    assert(product_unit * traded == scale * quotient) by (nonlinear_arith)
        requires
            traded == quotient * tick,
            scale == product_unit * tick,
    ;
    assert(product_unit * taken == middle) by (nonlinear_arith)
        requires
            taken == product * quotient_unit,
            middle == quotient_unit * (product * product_unit),
    ;
    assert(ticks * ratio == scale * (ticks * unit)) by (nonlinear_arith)
        requires
            ratio == unit * tick * product_unit,
            scale == product_unit * tick,
    ;
    assert(moved == scale * quotient - scale * (ticks * unit)) by (nonlinear_arith)
        requires
            moved == scale * gap,
            gap == quotient - ticks * unit,
    ;
    assert(first + second + third == 2 * moved);
    assert(100 * grown <= 400 * scale) by (nonlinear_arith)
        requires
            grown == quotient_unit * product_unit,
            100 * quotient_unit <= 400 * tick,
            product_unit > 0,
            scale == product_unit * tick,
    ;
    assert(1_000_000 * quotient_unit <= 2 * grown) by (nonlinear_arith)
        requires
            grown == quotient_unit * product_unit,
            product_unit >= 524_288,
            quotient_unit > 0,
    ;
    assert(scale > 0) by (nonlinear_arith)
        requires
            scale == product_unit * tick,
            product_unit > 0,
            tick > 0,
    ;
    assert(-8 * scale < moved < 8 * scale);
    assert(-8 <= gap <= 8) by (nonlinear_arith)
        requires
            -8 * scale < moved < 8 * scale,
            moved == scale * gap,
            scale > 0,
    ;
}

/// The powers of two that bound the roundings of a price.
proof fn lemma_bounds()
    ensures
        pow2(18) == 262_144,
        pow2(19) == 524_288,
        pow2(23) == 8_388_608,
        pow2(35) == 0x8_0000_0000,
        pow2(47) == 0x8000_0000_0000,
        pow2(50) == 0x4_0000_0000_0000,
        pow2(52) == LEAST_DIGITS,
        pow2(54) == 4 * LEAST_DIGITS,
        pow2(55) == 8 * LEAST_DIGITS,
        pow2(68) == 0x1_0000 * LEAST_DIGITS,
{
    lemma2_to64();
    lemma_pow2_adds(32, 3);
    lemma_pow2_adds(32, 15);
    lemma_pow2_adds(32, 18);
    lemma_pow2_adds(32, 20);
    lemma_pow2_adds(32, 22);
    lemma_pow2_adds(32, 23);
    lemma_pow2_adds(52, 16);
}

/// Powers of two grow.
proof fn lemma_grows(a: nat, b: nat)
    requires
        a <= b,
    ensures
        0 < pow2(a) <= pow2(b),
{
    lemma_pow2_pos(a);
    if a < b {
        lemma_pow2_strictly_increases(a, b);
    }
}

/// The price of some ten-thousandths of a dollar, as it is encoded, is right up to half a unit in
/// its last place.
proof fn lemma_price(ticks: int) -> (price: Scaled)
    requires
        0 < ticks < 10_000,
    ensures
        price == number(encoded(nearest(ticks, 10_000))),
        is_positive(encoded(nearest(ticks, 10_000))),
        LEAST_DIGITS <= price.digits <= 2 * LEAST_DIGITS,
        -68 <= price.exponent <= -52,
        -5_000 <= ticks * pow2((-price.exponent) as nat) - price.digits * 10_000 <= 5_000,
{
    let a = nearest(ticks, 10_000);
    let k = (-a.exponent) as nat;
    let price = number(encoded(a));
    law_nearest_is_nearest(ticks, 10_000);
    lemma_nearest_digits(ticks, 10_000);
    lemma_bounds();
    if k > 68 {
        lemma_grows(68, k);
        assert(ticks * pow2(k) >= pow2(68)) by (nonlinear_arith)
            requires
                ticks >= 1,
                pow2(k) >= pow2(68),
        ;
    }
    if k < 53 {
        lemma_grows(k, 52);
        assert(ticks * pow2(k) <= 9_999 * pow2(52)) by (nonlinear_arith)
            requires
                0 < ticks <= 9_999,
                pow2(k) <= pow2(52),
        ;
    }
    law_encoding_reads_back(a);
    if a.digits == 2 * LEAST_DIGITS {
        lemma2_to64();
        lemma_pow2_adds((k - 1) as nat, 1);
        assert(ticks * pow2(k) == 2 * (ticks * pow2((k - 1) as nat))) by (nonlinear_arith)
            requires
                pow2(k) == 2 * pow2((k - 1) as nat),
        ;
    }
    price
}

/// A product of a price and a million is right up to half a unit in its last place.
proof fn lemma_product(digits: int) -> (product: Scaled)
    requires
        LEAST_DIGITS <= digits <= 2 * LEAST_DIGITS,
    ensures
        product == nearest(digits * 1_000_000, 1),
        LEAST_DIGITS <= product.digits <= 2 * LEAST_DIGITS,
        19 <= product.exponent <= 22,
        rounds_half_even(
            digits * 1_000_000,
            pow2(product.exponent as nat) as int,
            product.digits,
        ),
{
    let product = nearest(digits * 1_000_000, 1);
    law_nearest_is_nearest(digits * 1_000_000, 1);
    lemma_nearest_digits(digits * 1_000_000, 1);
    lemma_bounds();
    let e = product.exponent as nat;
    let unit = pow2(e) as int;
    assert(1 * unit == unit);
    lemma_pow2_pos(e);
    let back = product.digits * unit;
    if e < 19 {
        lemma_grows(e, 18);
        assert(back <= 2 * LEAST_DIGITS * 262_144) by (nonlinear_arith)
            requires
                back == product.digits * unit,
                0 < product.digits <= 2 * LEAST_DIGITS,
                0 < unit <= 262_144,
        ;
    }
    if e > 22 {
        lemma_grows(23, e);
        assert(back >= LEAST_DIGITS * unit) by (nonlinear_arith)
            requires
                back == product.digits * unit,
                product.digits >= LEAST_DIGITS,
                unit > 0,
        ;
    }
    product
}

/// A tick of a hundred micro-dollars is a double.
proof fn lemma_tick() -> (tick: Scaled)
    ensures
        tick == nearest(100, 1),
        LEAST_DIGITS <= tick.digits <= 2 * LEAST_DIGITS,
        -46 <= tick.exponent <= 0,
        tick.digits == 100 * pow2((-tick.exponent) as nat),
{
    let tick = nearest(100, 1);
    law_nearest_is_nearest(100, 1);
    lemma_nearest_digits(100, 1);
    lemma_bounds();
    let k = (-tick.exponent) as nat;
    if k > 46 {
        lemma_grows(47, k);
    }
    tick
}

/// A quotient of two doubles of like size is right up to half a unit in its last place.
proof fn lemma_quotient(n: int, d: int) -> (quotient: Scaled)
    requires
        LEAST_DIGITS <= n <= 2 * LEAST_DIGITS,
        LEAST_DIGITS <= d <= 2 * LEAST_DIGITS,
    ensures
        quotient == nearest(n, d),
        LEAST_DIGITS <= quotient.digits <= 2 * LEAST_DIGITS,
        -54 <= quotient.exponent <= -51,
        rounds_half_even(n * pow2((-quotient.exponent) as nat), d, quotient.digits),
{
    let quotient = nearest(n, d);
    assert(n < 2 * d * LEAST_DIGITS) by (nonlinear_arith)
        requires
            n <= 2 * LEAST_DIGITS,
            d >= LEAST_DIGITS,
    ;
    law_nearest_is_nearest(n, d);
    lemma_nearest_digits(n, d);
    lemma_bounds();
    let k = (-quotient.exponent) as nat;
    let unit = pow2(k) as int;
    lemma_pow2_pos(k);
    let scaled = n * unit;
    let back = quotient.digits * d;
    if k > 54 {
        lemma_grows(55, k);
        assert(scaled >= 0x10_0000_0000_0000 * 0x80_0000_0000_0000) by (nonlinear_arith)
            requires
                scaled == n * unit,
                n >= LEAST_DIGITS,
                unit >= 8 * LEAST_DIGITS,
        ;
        assert(back <= 0x20_0000_0000_0000 * 0x20_0000_0000_0000) by (nonlinear_arith)
            requires
                back == quotient.digits * d,
                0 < quotient.digits <= 2 * LEAST_DIGITS,
                0 < d <= 2 * LEAST_DIGITS,
        ;
    }
    if k < 51 {
        lemma_grows(k, 50);
        assert(scaled <= 0x20_0000_0000_0000 * 0x4_0000_0000_0000) by (nonlinear_arith)
            requires
                scaled == n * unit,
                0 < n <= 2 * LEAST_DIGITS,
                0 < unit <= 0x4_0000_0000_0000,
        ;
        assert(back >= 0x10_0000_0000_0000 * 0x10_0000_0000_0000) by (nonlinear_arith)
            requires
                back == quotient.digits * d,
                quotient.digits >= LEAST_DIGITS,
                d >= LEAST_DIGITS,
        ;
    }
    quotient
}

/// A number within eight units of a whole one, of 53 bits, is that whole number.
proof fn lemma_near(a: Scaled, ticks: int)
    requires
        LEAST_DIGITS <= a.digits <= 2 * LEAST_DIGITS,
        a.exponent <= -35,
        0 < ticks < 10_000,
        -8 <= a.digits - ticks * pow2((-a.exponent) as nat) <= 8,
    ensures
        to_whole(a) == Whole::Near(ticks as i64),
{
    let k = (-a.exponent) as nat;
    let unit = pow2(k) as int;
    let half = pow2((k - 1) as nat) as int;
    let gap = a.digits - ticks * unit;
    lemma_bounds();
    lemma_grows(35, k);
    lemma2_to64();
    lemma_pow2_adds((k - 1) as nat, 1);
    assert(a.digits + half == ticks * unit + (gap + half));
    vstd::arithmetic::div_mod::lemma_fundamental_div_mod_converse(
        a.digits + half,
        unit,
        ticks,
        gap + half,
    );
    assert(whole(a) == ticks);
    assert(!off_grid(a));
}

/// A price of whole ten-thousandths of a dollar, sent as a double, comes back as the same number
/// of ticks on a grid of ten-thousandths: rounding on the way never moves a price off its tick.
pub proof fn law_probability_reads_back(ticks: int, symbol: Seq<char>)
    requires
        0 < ticks < 10_000,
    ensures
        ticks_of(probability(ticks), 100, symbol) == Ok::<i64, RejectReasonView>(ticks as i64),
{
    let price = lemma_price(ticks);
    let product = lemma_product(price.digits);
    let tick = lemma_tick();
    let quotient = lemma_quotient(product.digits, tick.digits);
    let micro = times(number(probability(ticks).bits), 1_000_000);
    let scaled = over(micro, tick);
    let kp = (-price.exponent) as nat;
    let e1 = product.exponent as nat;
    let kt = (-tick.exponent) as nat;
    let k2 = (-quotient.exponent) as nat;
    let k = (-scaled.exponent) as nat;
    assert(k == kp + k2 - kt - e1);
    lemma_bounds();
    lemma_grows(19, e1);
    lemma_grows(k2, 54);
    lemma_pow2_adds(kp, k2);
    lemma_pow2_adds(k, kt);
    lemma_pow2_adds(k + kt, e1);
    assert(100 * pow2(kp) * pow2(k2) == pow2(k) * tick.digits * pow2(e1)) by (nonlinear_arith)
        requires
            pow2(kp) * pow2(k2) == pow2(k) * pow2(kt) * pow2(e1),
            tick.digits == 100 * pow2(kt),
    ;
    lemma_three_roundings(
        ticks,
        price.digits,
        pow2(kp) as int,
        product.digits,
        pow2(e1) as int,
        quotient.digits,
        pow2(k2) as int,
        tick.digits,
        pow2(k) as int,
    );
    lemma_near(scaled, ticks);
}

/// Rounding to 53 bits moves a number by one part in two to the power of 53 at most. `k` is large
/// enough for every power of two that occurs.
proof fn lemma_nearest_is_close(n: int, d: int, k: nat)
    requires
        n > 0,
        d > 0,
        k + nearest(n, d).exponent >= 0,
    ensures
        ({
            let a = nearest(n, d);
            let rounded = a.digits * d * pow2((k + a.exponent) as nat);
            let gap = n * pow2(k) - rounded;
            &&& rounded > 0
            &&& -rounded <= gap * 0x20_0000_0000_0000 <= rounded
        }),
{
    let a = nearest(n, d);
    let e = a.exponent;
    let q = a.digits;
    lemma_nearest_digits(n, d);
    law_nearest_is_nearest(n, d);
    lemma_pow2_pos(k);
    lemma_pow2_pos((k + e) as nat);
    let outer = pow2((k + e) as nat) as int;
    let rounded = q * d * outer;
    let gap = n * pow2(k) - rounded;
    assert(q * d >= 0x10_0000_0000_0000 * d) by (nonlinear_arith)
        requires
            q >= 0x10_0000_0000_0000,
            d > 0,
    ;
    if e <= 0 {
        let unit = pow2((-e) as nat) as int;
        let near = n * unit - q * d;
        lemma_pow2_adds((k + e) as nat, (-e) as nat);
        assert(gap == near * outer) by (nonlinear_arith)
            requires
                gap == n * pow2(k) - rounded,
                pow2(k) == outer * unit,
                rounded == q * d * outer,
                near == n * unit - q * d,
        ;
        assert(-d <= 2 * near <= d);
        assert(-(q * d) <= near * 0x20_0000_0000_0000 <= q * d);
        assert(-rounded <= gap * 0x20_0000_0000_0000 <= rounded) by (nonlinear_arith)
            requires
                gap == near * outer,
                rounded == q * d * outer,
                -(q * d) <= near * 0x20_0000_0000_0000 <= q * d,
                outer > 0,
        ;
    } else {
        let unit = pow2(e as nat) as int;
        let inner = pow2(k) as int;
        let near = n - q * (d * unit);
        lemma_pow2_adds(k, e as nat);
        lemma_pow2_pos(e as nat);
        assert(gap == near * inner) by (nonlinear_arith)
            requires
                gap == n * inner - rounded,
                outer == inner * unit,
                rounded == q * d * outer,
                near == n - q * (d * unit),
        ;
        let width = d * unit;
        assert(width > 0) by (nonlinear_arith)
            requires
                width == d * unit,
                d > 0,
                unit > 0,
        ;
        assert(-width <= 2 * near <= width);
        assert(q * width >= 0x10_0000_0000_0000 * width) by (nonlinear_arith)
            requires
                q >= 0x10_0000_0000_0000,
                width > 0,
        ;
        assert(-(q * width) <= near * 0x20_0000_0000_0000 <= q * width);
        assert(rounded == q * width * inner) by (nonlinear_arith)
            requires
                rounded == q * d * outer,
                outer == inner * unit,
                width == d * unit,
        ;
        assert(-rounded <= gap * 0x20_0000_0000_0000 <= rounded) by (nonlinear_arith)
            requires
                gap == near * inner,
                rounded == q * width * inner,
                -(q * width) <= near * 0x20_0000_0000_0000 <= q * width,
                inner > 0,
        ;
    }
    assert(rounded > 0) by (nonlinear_arith)
        requires
            rounded == q * d * outer,
            q * d > 0,
            outer > 0,
    ;
}

/// Three numbers that are close in a row: the first and the last are close.
proof fn lemma_close_in_a_row(a: int, b: int, c: int, d: int)
    requires
        b > 0,
        c > 0,
        d > 0,
        -b <= (a - b) * 0x20_0000_0000_0000 <= b,
        -c <= (b - c) * 0x20_0000_0000_0000 <= c,
        -c <= (d - c) * 0x20_0000_0000_0000 <= c,
    ensures
        -d <= (a - d) * 0x8_0000_0000_0000 <= d,
{
}

proof fn lemma_scaled_bound(gap: int, bound: int, factor: int, m: int)
    requires
        -bound <= gap * m <= bound,
        factor > 0,
    ensures
        -(bound * factor) <= (gap * factor) * m <= bound * factor,
{
    assert((gap * factor) * m == (gap * m) * factor) by (nonlinear_arith);
    assert(-(bound * factor) <= (gap * m) * factor <= bound * factor) by (nonlinear_arith)
        requires
            -bound <= gap * m <= bound,
            factor > 0,
    ;
}

/// The quotient that is found by rounding a product, a divisor and their ratio to 53 bits each is
/// within one part in two to the power of 51 of the exact one. `i` and `j` put both on a scale on
/// which they are whole.
proof fn lemma_quotient_is_close(n: int, k: int, i: nat, j: nat)
    requires
        n > 0,
        k > 0,
        j - i == nearest(n, 1).exponent + nearest(
            nearest(n, 1).digits,
            nearest(k, 1).digits,
        ).exponent - nearest(k, 1).exponent,
    ensures
        ({
            let q = nearest(nearest(n, 1).digits, nearest(k, 1).digits).digits;
            let found = q * k * pow2(j);
            let gap = n * pow2(i) - found;
            &&& found > 0
            &&& -found <= gap * 0x8_0000_0000_0000 <= found
        }),
{
    let p = nearest(n, 1);
    let t = nearest(k, 1);
    lemma_nearest_digits(n, 1);
    lemma_nearest_digits(k, 1);
    let q = nearest(p.digits, t.digits);
    lemma_nearest_digits(p.digits, t.digits);
    let size = |x: int|
        if x < 0 {
            -x
        } else {
            x
        };
    let s = (size(p.exponent) + size(t.exponent) + size(q.exponent) + i) as nat;
    lemma_nearest_is_close(n, 1, s);
    lemma_nearest_is_close(k, 1, s);
    lemma_nearest_is_close(p.digits, t.digits, s);
    let z = pow2(s) as int;
    let zp = pow2((s + p.exponent) as nat) as int;
    let zt = pow2((s + t.exponent) as nat) as int;
    let zq = pow2((s + q.exponent) as nat) as int;
    lemma_pow2_pos(s);
    lemma_pow2_pos((s + p.exponent) as nat);
    lemma_pow2_pos((s + t.exponent) as nat);
    lemma_pow2_pos((s + q.exponent) as nat);
    let f1 = z * zt;
    let f2 = zp * zt;
    let f3 = q.digits * (zq * zp);
    assert(f1 > 0 && f2 > 0 && zq * zp > 0) by (nonlinear_arith)
        requires
            f1 == z * zt,
            f2 == zp * zt,
            z > 0,
            zp > 0,
            zt > 0,
            zq > 0,
    ;
    assert(f3 > 0) by (nonlinear_arith)
        requires
            f3 == q.digits * (zq * zp),
            q.digits > 0,
            zq * zp > 0,
    ;
    let b1 = p.digits * 1 * zp;
    let b2 = t.digits * 1 * zt;
    let b3 = q.digits * t.digits * zq;
    lemma_scaled_bound(n * z - b1, b1, f1, 0x20_0000_0000_0000);
    lemma_scaled_bound(k * z - b2, b2, f3, 0x20_0000_0000_0000);
    lemma_scaled_bound(p.digits * z - b3, b3, f2, 0x20_0000_0000_0000);
    let a = n * (z * f1);
    let b = b1 * f1;
    let c = b3 * f2;
    let d = q.digits * k * (z * (zq * zp));
    assert((n * z - b1) * f1 == a - b) by (nonlinear_arith)
        requires
            a == n * (z * f1),
            b == b1 * f1,
    ;
    assert((p.digits * z - b3) * f2 == b - c) by (nonlinear_arith)
        requires
            b == b1 * f1,
            b1 == p.digits * 1 * zp,
            f1 == z * zt,
            f2 == zp * zt,
            c == b3 * f2,
    ;
    assert(b2 * f3 == c) by (nonlinear_arith)
        requires
            b2 == t.digits * 1 * zt,
            f3 == q.digits * (zq * zp),
            c == b3 * f2,
            b3 == q.digits * t.digits * zq,
            f2 == zp * zt,
    ;
    assert((k * z - b2) * f3 == d - c) by (nonlinear_arith)
        requires
            b2 * f3 == c,
            f3 == q.digits * (zq * zp),
            d == q.digits * k * (z * (zq * zp)),
    ;
    assert(b > 0 && c > 0) by (nonlinear_arith)
        requires
            b == b1 * f1,
            c == b3 * f2,
            b1 > 0,
            b3 > 0,
            f1 > 0,
            f2 > 0,
    ;
    assert(q.digits * k > 0 && z * (zq * zp) > 0) by (nonlinear_arith)
        requires
            q.digits > 0,
            k > 0,
            z > 0,
            zq * zp > 0,
    ;
    assert(d > 0) by (nonlinear_arith)
        requires
            d == q.digits * k * (z * (zq * zp)),
            q.digits * k > 0,
            z * (zq * zp) > 0,
    ;
    lemma_close_in_a_row(a, b, c, d);
    let common = (3 * s + t.exponent - i) as nat;
    let g = pow2(common) as int;
    lemma_pow2_pos(common);
    lemma_pow2_adds(s, (s + t.exponent) as nat);
    lemma_pow2_adds(s, (2 * s + t.exponent) as nat);
    lemma_pow2_adds(i, common);
    assert(z * f1 == pow2(i) * g);
    lemma_pow2_adds((s + q.exponent) as nat, (s + p.exponent) as nat);
    lemma_pow2_adds(s, (2 * s + q.exponent + p.exponent) as nat);
    lemma_pow2_adds(j, common);
    assert(z * (zq * zp) == pow2(j) * g);
    let found = q.digits * k * pow2(j);
    let gap = n * pow2(i) - found;
    assert(d == found * g) by (nonlinear_arith)
        requires
            d == q.digits * k * (z * (zq * zp)),
            z * (zq * zp) == pow2(j) * g,
            found == q.digits * k * pow2(j),
    ;
    assert(a - d == gap * g) by (nonlinear_arith)
        requires
            a == n * (z * f1),
            z * f1 == pow2(i) * g,
            d == found * g,
            gap == n * pow2(i) - found,
    ;
    assert((gap * g) * 0x8_0000_0000_0000 == (gap * 0x8_0000_0000_0000) * g) by (nonlinear_arith);
    assert(found > 0 && -found <= gap * 0x8_0000_0000_0000 <= found) by (nonlinear_arith)
        requires
            -(found * g) <= (gap * 0x8_0000_0000_0000) * g <= found * g,
            found * g > 0,
            g > 0,
    ;
}

/// What a price times a million over a tick is, as a ratio of two whole numbers. The price is
/// `digits * 2^exponent`.
pub open spec fn exact_ratio(digits: int, exponent: int, tick_micro: int) -> (int, int) {
    if exponent >= 0 {
        (digits * 1_000_000 * pow2(exponent as nat), tick_micro)
    } else {
        (digits * 1_000_000, tick_micro * pow2((-exponent) as nat))
    }
}

/// The digits of a binary64 encoding: the fraction field, with the leading bit that all but the
/// smallest numbers leave out.
pub open spec fn wire_digits(bits: u64) -> int {
    bits as int % 0x10_0000_0000_0000 + if bits < 0x10_0000_0000_0000 {
        0int
    } else {
        0x10_0000_0000_0000int
    }
}

/// The exponent of a positive binary64 encoding.
pub open spec fn wire_exponent(bits: u64) -> int {
    if bits < 0x10_0000_0000_0000 {
        -1074int
    } else {
        bits as int / 0x10_0000_0000_0000 - 1075
    }
}

proof fn lemma_wire_number(bits: u64)
    requires
        0 < bits < 0x7FF0_0000_0000_0000,
    ensures
        is_positive(bits),
        number(bits).digits == wire_digits(bits),
        number(bits).exponent == wire_exponent(bits),
        0 < wire_digits(bits) < 0x20_0000_0000_0000,
{
}

/// The double that stands for a number of ticks is within one part in two to the power of 51 of the
/// exact ratio. Both are put on a scale on which they are whole.
proof fn lemma_ratio_is_close(bits: u64, tick_micro: int)
    requires
        0 < bits < 0x7FF0_0000_0000_0000,
        tick_micro > 0,
    ensures
        ({
            let a = over(times(number(bits), 1_000_000), nearest(tick_micro, 1));
            let (x, y) = exact_ratio(wire_digits(bits), wire_exponent(bits), tick_micro);
            let (up, down) = if a.exponent >= 0 {
                (pow2(a.exponent as nat) as int, 1int)
            } else {
                (1int, pow2((-a.exponent) as nat) as int)
            };
            let found = a.digits * up * y;
            let gap = x * down - found;
            &&& x > 0 && y > 0
            &&& LEAST_DIGITS <= a.digits <= 2 * LEAST_DIGITS
            &&& found > 0
            &&& -found <= gap * 0x8_0000_0000_0000 <= found
        }),
{
    lemma_wire_number(bits);
    let digits = wire_digits(bits);
    let e0 = wire_exponent(bits);
    let n = digits * 1_000_000;
    let p = nearest(n, 1);
    let t = nearest(tick_micro, 1);
    lemma_nearest_digits(n, 1);
    lemma_nearest_digits(tick_micro, 1);
    let q = nearest(p.digits, t.digits);
    lemma_nearest_digits(p.digits, t.digits);
    let a = over(times(number(bits), 1_000_000), t);
    assert(a.digits == q.digits);
    assert(a.exponent == q.exponent + p.exponent + e0 - t.exponent);
    let e = a.exponent;
    let i = ((if e0 >= 0 {
        e0
    } else {
        0
    }) + (if e < 0 {
        -e
    } else {
        0
    })) as nat;
    let j = ((if e0 < 0 {
        -e0
    } else {
        0
    }) + (if e >= 0 {
        e
    } else {
        0
    })) as nat;
    lemma_quotient_is_close(n, tick_micro, i, j);
    lemma2_to64();
    let (x, y) = exact_ratio(digits, e0, tick_micro);
    let (up, down) = if e >= 0 {
        (pow2(e as nat) as int, 1int)
    } else {
        (1int, pow2((-e) as nat) as int)
    };
    let over_x = if e0 >= 0 {
        pow2(e0 as nat) as int
    } else {
        1int
    };
    let over_y = if e0 < 0 {
        pow2((-e0) as nat) as int
    } else {
        1int
    };
    if e0 >= 0 {
        lemma_pow2_pos(e0 as nat);
        if e < 0 {
            lemma_pow2_adds(e0 as nat, (-e) as nat);
        }
    } else {
        lemma_pow2_pos((-e0) as nat);
        if e >= 0 {
            lemma_pow2_adds((-e0) as nat, e as nat);
        }
    }
    assert(pow2(i) == over_x * down);
    assert(pow2(j) == over_y * up);
    assert(x == n * over_x && y == tick_micro * over_y);
    assert(x * down == n * pow2(i)) by (nonlinear_arith)
        requires
            x == n * over_x,
            pow2(i) == over_x * down,
    ;
    assert(a.digits * up * y == q.digits * tick_micro * pow2(j)) by (nonlinear_arith)
        requires
            a.digits == q.digits,
            y == tick_micro * over_y,
            pow2(j) == over_y * up,
    ;
    assert(x > 0 && y > 0) by (nonlinear_arith)
        requires
            x == n * over_x,
            y == tick_micro * over_y,
            n > 0,
            tick_micro > 0,
            over_x > 0,
            over_y > 0,
    ;
}

/// A common factor does not matter to a bound.
proof fn lemma_cancel(gap: int, x: int, y: int, factor: int, m: int)
    requires
        factor > 0,
        ({
            let bound = if x > y {
                x * factor
            } else {
                y * factor
            };
            -bound <= (gap * factor) * m <= bound
        }),
    ensures
        ({
            let bound = if x > y {
                x
            } else {
                y
            };
            -bound <= gap * m <= bound
        }),
{
    let bound = if x > y {
        x
    } else {
        y
    };
    assert((gap * factor) * m == (gap * m) * factor) by (nonlinear_arith);
    assert(-bound <= gap * m <= bound) by (nonlinear_arith)
        requires
            -(bound * factor) <= (gap * m) * factor <= bound * factor,
            factor > 0,
    ;
}

/// The ticks of a price are what the price comes to on the grid, on any grid: the price times a
/// million differs from that many ticks by no more than one part in two to the power of 48, of
/// itself or of a tick where it is less than one.
pub proof fn law_ticks_are_what_the_price_comes_to(
    price: WirePriceView,
    tick_micro: int,
    symbol: Seq<char>,
)
    requires
        ticks_of(price, tick_micro, symbol) is Ok,
    ensures
        ({
            let ticks = ticks_of(price, tick_micro, symbol)->Ok_0 as int;
            let (x, y) = exact_ratio(
                wire_digits(price.bits),
                wire_exponent(price.bits),
                tick_micro,
            );
            let bound = if x > y {
                x
            } else {
                y
            };
            &&& 0 < price.bits < 0x7FF0_0000_0000_0000
            &&& tick_micro > 0
            &&& x > 0 && y > 0
            &&& -bound <= (x - ticks * y) * 0x1_0000_0000_0000 <= bound
            &&& ticks >= 0
        }),
{
    lemma_ratio_is_close(price.bits, tick_micro);
    let a = over(times(number(price.bits), 1_000_000), nearest(tick_micro, 1));
    let (x, y) = exact_ratio(wire_digits(price.bits), wire_exponent(price.bits), tick_micro);
    let ticks = whole(a);
    let q = a.digits;
    if a.exponent >= 0 {
        let up = pow2(a.exponent as nat) as int;
        lemma_pow2_pos(a.exponent as nat);
        assert(q * up >= 0) by (nonlinear_arith)
            requires
                q > 0,
                up > 0,
        ;
        assert(ticks == q * up);
        assert(x * 1 == x);
    } else {
        let unit = pow2((-a.exponent) as nat) as int;
        let half = pow2((-a.exponent - 1) as nat) as int;
        lemma_pow2_pos((-a.exponent) as nat);
        lemma_pow2_pos((-a.exponent - 1) as nat);
        assert(ticks >= 0) by (nonlinear_arith)
            requires
                ticks == (q + half) / unit,
                q + half >= 0,
                unit > 0,
        ;
        let near = q - ticks * unit;
        let xu = x * unit;
        let yu = y * unit;
        let qy = q * y;
        let wyu = ticks * y * unit;
        assert(q * 1 * y == qy);
        assert(near * y == qy - wyu) by (nonlinear_arith)
            requires
                near == q - ticks * unit,
                qy == q * y,
                wyu == ticks * y * unit,
        ;
        let limit = if q > unit {
            q
        } else {
            unit
        };
        lemma_scaled_bound(near, limit, y, 0x2_0000_0000_0000);
        assert(unit * y == yu) by (nonlinear_arith)
            requires
                yu == y * unit,
        ;
        assert(q > unit ==> qy >= yu) by (nonlinear_arith)
            requires
                qy == q * y,
                yu == y * unit,
                y > 0,
        ;
        assert(q <= unit ==> qy <= yu) by (nonlinear_arith)
            requires
                qy == q * y,
                yu == y * unit,
                y > 0,
        ;
        let bound = if xu > yu {
            xu
        } else {
            yu
        };
        assert(-bound <= (xu - wyu) * 0x1_0000_0000_0000 <= bound);
        assert((x - ticks * y) * unit == xu - wyu) by (nonlinear_arith)
            requires
                xu == x * unit,
                wyu == ticks * y * unit,
        ;
        assert(x > y ==> xu >= yu) by (nonlinear_arith)
            requires
                xu == x * unit,
                yu == y * unit,
                unit > 0,
        ;
        assert(x <= y ==> xu <= yu) by (nonlinear_arith)
            requires
                xu == x * unit,
                yu == y * unit,
                unit > 0,
        ;
        lemma_cancel(x - ticks * y, x, y, unit, 0x1_0000_0000_0000);
    }
}

/// The product of a price below two to the power of 53 and a million is in the range of doubles.
proof fn lemma_product_is_in_range(bits: u64)
    requires
        0 < bits < 0x7FF0_0000_0000_0000,
        wire_exponent(bits) <= 0,
    ensures
        !too_large(times(number(bits), 1_000_000)),
{
    lemma_wire_number(bits);
    let n = wire_digits(bits) * 1_000_000;
    let p = nearest(n, 1);
    lemma_nearest_digits(n, 1);
    law_nearest_is_nearest(n, 1);
    if p.exponent >= 971 {
        let unit = pow2(p.exponent as nat) as int;
        lemma2_to64();
        lemma_pow2_strictly_increases(64, p.exponent as nat);
        assert(1 * unit == unit);
        assert(p.digits * unit >= 0x10_0000_0000_0000 * unit) by (nonlinear_arith)
            requires
                p.digits >= 0x10_0000_0000_0000,
                unit > 0,
        ;
    }
}

/// A number that is within the tolerance of a whole one, below two to the power of 46, is rounded
/// to it.
proof fn lemma_near_a_whole(a: Scaled, ticks: int)
    requires
        LEAST_DIGITS <= a.digits <= 2 * LEAST_DIGITS,
        a.exponent < 0,
        0 <= ticks < 0x4000_0000_0000,
        ({
            let unit = pow2((-a.exponent) as nat) as int;
            let near = a.digits - ticks * unit;
            let bound = if a.digits > unit {
                a.digits
            } else {
                unit
            };
            -bound <= near * 0x2_0000_0000_0000 <= bound
        }),
    ensures
        to_whole(a) == Whole::Near(ticks as i64),
{
    let unit = pow2((-a.exponent) as nat) as int;
    let half = pow2((-a.exponent - 1) as nat) as int;
    let q = a.digits;
    let near = q - ticks * unit;
    lemma2_to64();
    lemma_pow2_adds((-a.exponent - 1) as nat, 1);
    lemma_pow2_pos((-a.exponent - 1) as nat);
    assert(unit == 2 * half);
    assert(-half <= near < half) by {
        if q > unit {
            assert(-16 <= near <= 16);
            assert(ticks * unit <= 0x3FFF_FFFF_FFFF * unit) by (nonlinear_arith)
                requires
                    ticks <= 0x3FFF_FFFF_FFFF,
                    unit > 0,
            ;
            assert(half > 16);
        }
    }
    assert(whole(a) == ticks) by (nonlinear_arith)
        requires
            whole(a) == (q + half) / unit,
            near == q - ticks * unit,
            -half <= near < half,
            unit == 2 * half,
            half > 0,
    ;
}

/// A price on a tick comes to that tick, on any grid, for prices below two to the power of 53
/// dollars and ticks below two to the power of 46: it is enough that the price times a million
/// differs from that many ticks by no more than one part in two to the power of 50, of itself or
/// of a tick where it is less than one.
pub proof fn law_a_price_on_a_tick_comes_to_it(
    price: WirePriceView,
    tick_micro: int,
    symbol: Seq<char>,
    ticks: int,
)
    requires
        0 < price.bits < 0x7FF0_0000_0000_0000,
        wire_exponent(price.bits) <= 0,
        tick_micro > 0,
        0 <= ticks < 0x4000_0000_0000,
        ({
            let (x, y) = exact_ratio(
                wire_digits(price.bits),
                wire_exponent(price.bits),
                tick_micro,
            );
            let bound = if x > y {
                x
            } else {
                y
            };
            -bound <= (x - ticks * y) * 0x4_0000_0000_0000 <= bound
        }),
    ensures
        ticks_of(price, tick_micro, symbol) == Ok::<i64, RejectReasonView>(ticks as i64),
{
    lemma_wire_number(price.bits);
    lemma_product_is_in_range(price.bits);
    lemma_ratio_is_close(price.bits, tick_micro);
    let a = over(times(number(price.bits), 1_000_000), nearest(tick_micro, 1));
    let (x, y) = exact_ratio(wire_digits(price.bits), wire_exponent(price.bits), tick_micro);
    let q = a.digits;
    let ty = ticks * y;
    assert(ty <= 0x3FFF_FFFF_FFFF * y) by (nonlinear_arith)
        requires
            ty == ticks * y,
            ticks <= 0x3FFF_FFFF_FFFF,
            y > 0,
    ;
    if a.exponent >= 0 {
        let up = pow2(a.exponent as nat) as int;
        lemma_pow2_pos(a.exponent as nat);
        let wy = q * up * y;
        assert(q * up >= 0x10_0000_0000_0000) by (nonlinear_arith)
            requires
                q >= 0x10_0000_0000_0000,
                up >= 1,
        ;
        assert(wy >= 0x10_0000_0000_0000 * y) by (nonlinear_arith)
            requires
                wy == q * up * y,
                q * up >= 0x10_0000_0000_0000,
                y > 0,
        ;
        assert(x * 1 == x);
        assert(false);
    } else {
        let unit = pow2((-a.exponent) as nat) as int;
        lemma_pow2_pos((-a.exponent) as nat);
        let near = q - ticks * unit;
        let xu = x * unit;
        let yu = y * unit;
        let qy = q * y;
        let tyu = ty * unit;
        assert(q * 1 * y == qy);
        let bound = if x > y {
            x
        } else {
            y
        };
        lemma_scaled_bound(x - ty, bound, unit, 0x4_0000_0000_0000);
        assert((x - ty) * unit == xu - tyu) by (nonlinear_arith)
            requires
                xu == x * unit,
                tyu == ty * unit,
        ;
        assert(x > y ==> xu >= yu) by (nonlinear_arith)
            requires
                xu == x * unit,
                yu == y * unit,
                unit > 0,
        ;
        assert(q > unit ==> qy >= yu) by (nonlinear_arith)
            requires
                qy == q * y,
                yu == y * unit,
                y > 0,
        ;
        assert(q <= unit ==> qy <= yu) by (nonlinear_arith)
            requires
                qy == q * y,
                yu == y * unit,
                y > 0,
        ;
        let limit = if qy > yu {
            qy
        } else {
            yu
        };
        assert(-limit <= (qy - tyu) * 0x2_0000_0000_0000 <= limit);
        assert(near * y == qy - tyu) by (nonlinear_arith)
            requires
                near == q - ticks * unit,
                qy == q * y,
                tyu == ty * unit,
                ty == ticks * y,
        ;
        assert(unit * y == yu) by (nonlinear_arith)
            requires
                yu == y * unit,
        ;
        lemma_cancel(near, q, unit, y, 0x2_0000_0000_0000);
        lemma_near_a_whole(a, ticks);
    }
}

/// What is no price at all is refused as malformed: zero, a negative number, one that is infinite
/// or none, and any price on no grid. A price below two to the power of 53 dollars is refused for
/// two reasons only: it lies between ticks, or comes to too many of them, half as many as fit at
/// least.
pub proof fn law_a_price_is_refused_for_what_it_is(
    price: WirePriceView,
    tick_micro: int,
    symbol: Seq<char>,
)
    ensures
        ({
            let outcome = ticks_of(price, tick_micro, symbol);
            let (x, y) = exact_ratio(
                wire_digits(price.bits),
                wire_exponent(price.bits),
                tick_micro,
            );
            let positive = 0 < price.bits < 0x7FF0_0000_0000_0000;
            &&& !positive || tick_micro <= 0 ==> outcome == Err::<i64, RejectReasonView>(
                RejectReasonView::MalformedDecimal(price.text),
            )
            &&& positive && tick_micro > 0 && wire_exponent(price.bits) <= 0 && outcome is Err ==> {
                ||| outcome == Err::<i64, RejectReasonView>(
                    RejectReasonView::OffTick { symbol, raw: price.text },
                )
                ||| outcome == Err::<i64, RejectReasonView>(RejectReasonView::ArithmeticOverflow)
                    && x >= 0x4000_0000_0000_0000 * y
            }
        }),
{
    if 0 < price.bits < 0x7FF0_0000_0000_0000 && tick_micro > 0 && wire_exponent(price.bits) <= 0 {
        lemma_wire_number(price.bits);
        lemma_product_is_in_range(price.bits);
        lemma_ratio_is_close(price.bits, tick_micro);
        let a = over(times(number(price.bits), 1_000_000), nearest(tick_micro, 1));
        let (x, y) = exact_ratio(wire_digits(price.bits), wire_exponent(price.bits), tick_micro);
        let q = a.digits;
        if whole(a) > i64::MAX {
            if a.exponent >= 0 {
                let wy = whole(a) * y;
                assert(wy >= 0x7FFF_FFFF_FFFF_FFFF * y) by (nonlinear_arith)
                    requires
                        wy == whole(a) * y,
                        whole(a) >= 0x7FFF_FFFF_FFFF_FFFF,
                        y > 0,
                ;
                assert(x * 1 == x);
            } else {
                let unit = pow2((-a.exponent) as nat) as int;
                let half = pow2((-a.exponent - 1) as nat) as int;
                lemma_pow2_pos((-a.exponent) as nat);
                lemma_pow2_pos((-a.exponent - 1) as nat);
                lemma2_to64();
                lemma_pow2_adds((-a.exponent - 1) as nat, 1);
                assert(q + half >= 0x7FFF_FFFF_FFFF_FFFF * unit) by (nonlinear_arith)
                    requires
                        whole(a) == (q + half) / unit,
                        whole(a) >= 0x7FFF_FFFF_FFFF_FFFF,
                        unit > 0,
                ;
                assert(false);
            }
        }
    }
}

/// Dropping zeros behind digits divides by ten for each.
proof fn lemma_without_zeros(s: Seq<char>)
    requires
        all_digits(s),
    ensures
        all_digits(without_zeros(s)),
        without_zeros(s).len() <= s.len(),
        digits_value(s) == digits_value(without_zeros(s)) * pow(
            10,
            (s.len() - without_zeros(s).len()) as nat,
        ),
        without_zeros(s).len() > 0 ==> without_zeros(s).last() != '0',
    decreases s.len(),
{
    lemma_pow0(10);
    if s.len() > 0 && s.last() == '0' {
        let rest = s.drop_last();
        assert forall|i: int| 0 <= i < rest.len() implies '0' <= #[trigger] rest[i] <= '9' by {
            assert(rest[i] == s[i]);
        }
        lemma_without_zeros(rest);
        let kept = without_zeros(s);
        let dropped = (rest.len() - kept.len()) as nat;
        lemma_pow_adds(10, dropped, 1);
        lemma_pow1(10);
        assert(digits_value(s) == digits_value(rest) * 10);
        assert(digits_value(kept) * pow(10, dropped) * 10 == digits_value(kept) * (pow(10, dropped)
            * 10)) by (nonlinear_arith);
    } else {
        assert(digits_value(s) * 1 == digits_value(s));
    }
}

/// The text of a price stands for the price: it reads back as the same number of ten-thousandths
/// of a dollar, and has no zero at its end.
pub proof fn law_probability_text_reads_back(ticks: int)
    requires
        0 < ticks < 10_000,
    ensures
        fixed_value(probability(ticks).text, 4) == Some(ticks),
        probability(ticks).text.last() != '0',
{
    let padded = padded_decimal(ticks as nat, 4);
    let frac = without_zeros(padded);
    let none = Seq::<char>::empty();
    let text = probability(ticks).text;
    reveal_strlit("0.");
    law_a_number_is_written_in_decimal(ticks as nat, 4);
    lemma_padded_to_four(ticks as nat);
    lemma_without_zeros(padded);
    if frac.len() == 0 {
        assert(frac =~= none);
        assert(digits_value(none) * pow(10, 4) == 0);
    }
    let parts = Spelling {
        lead: none,
        negative: false,
        ints: seq!['0'],
        pointed: true,
        frac,
        tail: none,
    };
    assert(parts.text() =~= text);
    assert(parts.is_number(4));
    law_a_decimal_text_reads_as_its_number(parts, 4);
    lemma_leading_zero(frac);
    assert(text.last() == frac.last());
}

/// A number below ten thousand has four digits when it is padded to four.
proof fn lemma_padded_to_four(n: nat)
    requires
        n < 10_000,
    ensures
        padded_decimal(n, 4).len() == 4,
{
    reveal_with_fuel(padded_decimal, 5);
}

/// A zero in front of digits does not change their number.
proof fn lemma_leading_zero(s: Seq<char>)
    ensures
        digits_value(seq!['0'] + s) == digits_value(s),
    decreases s.len(),
{
    let longer = seq!['0'] + s;
    if s.len() == 0 {
        assert(longer.drop_last() =~= s);
        assert(digits_value(s) == 0);
    } else {
        lemma_leading_zero(s.drop_last());
        assert(longer.drop_last() =~= seq!['0'] + s.drop_last());
        assert(longer.last() == s.last());
    }
}

} // verus!
