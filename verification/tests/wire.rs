//! Prices on the wire, held against the machine's own floating-point arithmetic.

use bitfrost::binary64::{bits_of, nearest_double, number_of, positive};
use bitfrost::wire::make_probability;
use bitfrost::{price_to_ticks, RejectReason, WirePrice};

fn wire(price: f64) -> WirePrice {
    WirePrice { bits: price.to_bits(), text: price.to_string() }
}

/// The same conversion in the machine's own arithmetic.
fn expected(price: f64, tick_micro: i128, symbol: &str) -> Result<i64, RejectReason> {
    if !price.is_finite() || price <= 0.0 || tick_micro <= 0 {
        return Err(RejectReason::MalformedDecimal(format!("{price}")));
    }
    let scaled = price * 1_000_000.0 / tick_micro as f64;
    let ticks = scaled.round();
    if !ticks.is_finite() {
        return Err(RejectReason::MalformedDecimal(format!("{price}")));
    }
    let tolerance = f64::EPSILON * scaled.abs().max(1.0) * 8.0;
    if (scaled - ticks).abs() > tolerance {
        return Err(RejectReason::OffTick { symbol: symbol.to_string(), raw: price.to_string() });
    }
    if ticks >= 9_223_372_036_854_775_808.0 {
        return Err(RejectReason::ArithmeticOverflow);
    }
    Ok(ticks as i64)
}

fn splitmix64(state: &mut u64) -> u64 {
    *state = state.wrapping_add(0x9E3779B97F4A7C15);
    let mut z = *state;
    z = (z ^ (z >> 30)).wrapping_mul(0xBF58476D1CE4E5B9);
    z = (z ^ (z >> 27)).wrapping_mul(0x94D049BB133111EB);
    z ^ (z >> 31)
}

const TICKS: [i128; 12] = [
    1,
    3,
    100,
    250,
    1_000_000,
    9_007_199_254_740_993,
    i128::MAX,
    (1 << 100) + 1,
    0,
    -100,
    700,
    12_345,
];

#[test]
fn agrees_with_the_machine_on_random_encodings() {
    let mut state = 42u64;
    for round in 0..40_000usize {
        let price = f64::from_bits(splitmix64(&mut state));
        let tick = TICKS[round % TICKS.len()];
        assert_eq!(
            price_to_ticks(&wire(price), tick, "S"),
            expected(price, tick, "S"),
            "{price:e} on {tick}"
        );
    }
}

#[test]
fn agrees_with_the_machine_around_ordinary_prices() {
    let mut state = 7u64;
    for round in 0..60_000usize {
        let tick = TICKS[round % TICKS.len()];
        let whole = (splitmix64(&mut state) % 20_000) as f64 / 10_000.0;
        let bits = whole.to_bits().wrapping_add(splitmix64(&mut state) % 64).wrapping_sub(32);
        let price = f64::from_bits(bits);
        assert_eq!(
            price_to_ticks(&wire(price), tick, "S"),
            expected(price, tick, "S"),
            "{price:e} on {tick}"
        );
    }
}

#[test]
fn agrees_with_the_machine_at_the_edges() {
    let edges = [
        f64::MIN_POSITIVE,
        f64::from_bits(1),
        f64::from_bits(0x000F_FFFF_FFFF_FFFF),
        f64::MAX,
        f64::MAX / 1e6,
        f64::MAX / 999_999.999_999,
        f64::INFINITY,
        f64::NEG_INFINITY,
        f64::NAN,
        0.0,
        -0.0,
        -1.0,
        0.5,
        0.0000005,
        0.00000149999,
        1e-12,
        1e-20,
        9_223_372_036_854.775,
        9_223_372_036_854.776,
        1e13,
        1e300,
        4.5e-16,
        3.5e-16,
    ];
    for price in edges {
        for tick in TICKS {
            assert_eq!(
                price_to_ticks(&wire(price), tick, "S"),
                expected(price, tick, "S"),
                "{price:e} on {tick}"
            );
        }
    }
}

#[test]
fn every_tick_of_a_dollar_reads_back() {
    for ticks in 1u64..10_000 {
        let price = make_probability(ticks);
        let machine = ticks as f64 / 10_000.0;
        assert_eq!(price.bits, machine.to_bits());
        assert_eq!(price.text, machine.to_string());
        assert_eq!(price_to_ticks(&price, 100, "S"), Ok(ticks as i64));
    }
}

#[test]
fn quotients_are_rounded_as_the_machine_rounds_them() {
    let mut state = 3u64;
    for _ in 0..20_000 {
        let n = splitmix64(&mut state) % (1 << 53) + 1;
        let d = splitmix64(&mut state) % (1 << 53) + 1;
        let double = nearest_double(n as u128, d as u128);
        assert_eq!(bits_of(double), (n as f64 / d as f64).to_bits());
    }
    let large = nearest_double(u64::MAX as u128, 1);
    assert_eq!(bits_of(large), (u64::MAX as f64).to_bits());
    assert_eq!(bits_of(nearest_double(i128::MAX as u128, 1)), (i128::MAX as f64).to_bits());
}

#[test]
fn encodings_are_read_as_the_machine_reads_them() {
    assert!(positive(1.5f64.to_bits()));
    assert!(positive(f64::from_bits(1).to_bits()));
    assert!(!positive(0.0f64.to_bits()));
    assert!(!positive((-1.5f64).to_bits()));
    assert!(!positive(f64::INFINITY.to_bits()));
    assert!(!positive(f64::NAN.to_bits()));
    let double = number_of(1.5f64.to_bits());
    assert_eq!((double.digits, double.exponent), (3 << 51, -52));
    let smallest = number_of(1);
    assert_eq!((smallest.digits, smallest.exponent), (1, -1074));
}
