//! From the venues' reports to canonical fills.

use bitfrost::decimal::parse_fixed;
use bitfrost::{
    Canonicalize, HlEvent, InstrumentSource, Lots, Micro, PmEvent, Registry,
    RejectReason, Side, Ticks, Venue, WirePrice,
};

fn wire(price: f64) -> WirePrice {
    WirePrice { bits: price.to_bits(), text: price.to_string() }
}

fn hl_event(px: &str, qty: &str) -> HlEvent {
    HlEvent {
        seq: 1,
        event_id: "hl-1".to_string(),
        ts: 2,
        account: "account-1".to_string(),
        symbol: "BTC-PERP".to_string(),
        side: "buy".to_string(),
        px: px.to_string(),
        qty: qty.to_string(),
        fee: "0.0202".to_string(),
    }
}

fn pm_event(outcome: &str, action: &str, size: i64, fee_bps: i64) -> PmEvent {
    PmEvent {
        sequence: 3,
        id: "pm-1".to_string(),
        timestamp_ms: 4,
        user: "account-2".to_string(),
        market: "FED-CUT-SEP".to_string(),
        outcome: outcome.to_string(),
        action: action.to_string(),
        price: wire(0.6350),
        size,
        fee_bps,
    }
}

#[test]
fn parses_fixed_decimals() {
    assert_eq!(parse_fixed("1", 6), Ok(1_000_000));
    assert_eq!(parse_fixed("0.5", 6), Ok(500_000));
    assert_eq!(parse_fixed("-0.02", 6), Ok(-20_000));
    assert_eq!(parse_fixed(".5", 6), Ok(500_000));
    assert_eq!(parse_fixed("5.", 6), Ok(5_000_000));
    assert_eq!(
        parse_fixed("abc", 6),
        Err(RejectReason::MalformedDecimal("abc".to_string()))
    );
    assert_eq!(
        parse_fixed("", 6),
        Err(RejectReason::MalformedDecimal("".to_string()))
    );
}

#[test]
fn flips_side_round_trip() {
    assert_eq!(Side::Buy.flip(), Side::Sell);
    assert_eq!(Side::Buy.flip().flip(), Side::Buy);
    assert_eq!(Side::Sell.flip().flip(), Side::Sell);
}

#[test]
fn standard_registry_has_expected_instruments_and_derived_values() {
    let registry = Registry::standard();
    assert_eq!(
        registry
            .lookup(Venue::Hl, "BTC-PERP")
            .unwrap()
            .micro_per_tick_lot,
        50
    );
    assert_eq!(
        registry
            .lookup(Venue::Hl, "ETH-PERP")
            .unwrap()
            .micro_per_tick_lot,
        50
    );
    assert_eq!(
        registry
            .lookup(Venue::Pm, "FED-CUT-SEP")
            .unwrap()
            .micro_per_tick_lot,
        100
    );
    assert_eq!(
        registry
            .lookup(Venue::Pm, "CPI-ABOVE-AUG")
            .unwrap()
            .micro_per_tick_lot,
        100
    );
    assert!(registry.lookup(Venue::Hl, "DOGE-PERP").is_none());
}

#[test]
fn canonicalizes_hl_fill() {
    let fill = hl_event("67412.50", "0.0030")
        .canonicalize(&Registry::standard())
        .unwrap();
    assert_eq!(fill.venue, Venue::Hl);
    assert_eq!(fill.price, Ticks(134_825));
    assert_eq!(fill.qty, Lots(30));
    assert_eq!(fill.fee, Micro(20_200));
    assert_eq!(fill.instrument.0, "BTC-PERP");
}

#[test]
fn rejects_hl_off_tick() {
    assert_eq!(
        hl_event("67412.30", "0.0030").canonicalize(&Registry::standard()),
        Err(RejectReason::OffTick {
            symbol: "BTC-PERP".to_string(),
            raw: "67412.30".to_string(),
        })
    );
}

#[test]
fn rejects_hl_off_lot() {
    assert_eq!(
        hl_event("67412.50", "0.00305").canonicalize(&Registry::standard()),
        Err(RejectReason::OffLot {
            symbol: "BTC-PERP".to_string(),
            raw: "0.00305".to_string(),
        })
    );
}

#[test]
fn canonicalizes_pm_yes_fill_and_fee() {
    let fill = pm_event("YES", "SELL", 400, 20)
        .canonicalize(&Registry::standard())
        .unwrap();
    assert_eq!(fill.price, Ticks(6_350));
    assert_eq!(fill.side, Side::Sell);
    assert_eq!(fill.qty, Lots(400));
    assert_eq!(fill.fee, Micro(508_000));
}

#[test]
fn canonicalizes_pm_no_as_negative_yes() {
    let mut event = pm_event("NO", "BUY", 100, 0);
    event.price = wire(0.30);
    let fill = event.canonicalize(&Registry::standard()).unwrap();
    assert_eq!(fill.price, Ticks(7_000));
    assert_eq!(fill.side, Side::Sell);
}

#[test]
fn rejects_pm_price_out_of_range() {
    let mut event = pm_event("YES", "BUY", 1, 0);
    event.price = wire(0.005);
    assert_eq!(
        event.canonicalize(&Registry::standard()),
        Err(RejectReason::PriceOutOfRange {
            symbol: "FED-CUT-SEP".to_string(),
            ticks: 50,
        })
    );
}

#[test]
fn rejects_pm_price_between_ticks() {
    let mut event = pm_event("YES", "BUY", 1, 0);
    event.price = wire(0.63505);
    assert_eq!(
        event.canonicalize(&Registry::standard()),
        Err(RejectReason::OffTick {
            symbol: "FED-CUT-SEP".to_string(),
            raw: "0.63505".to_string(),
        })
    );
}

#[test]
fn accepts_pm_tick_with_float_representation_noise() {
    let mut event = pm_event("YES", "BUY", 1, 0);
    event.price = wire(0.6350000000000001);
    let fill = event.canonicalize(&Registry::standard()).unwrap();
    assert_eq!(fill.price, Ticks(6_350));
}

#[test]
fn rejects_hl_price_that_exceeds_tick_storage() {
    assert_eq!(
        hl_event("9223372036854775808.000000", "0.0001").canonicalize(&Registry::standard()),
        Err(RejectReason::ArithmeticOverflow)
    );
}

#[test]
fn rejects_hl_quantity_that_exceeds_lot_storage() {
    assert_eq!(
        hl_event("1.0", "922337203685477.5808").canonicalize(&Registry::standard()),
        Err(RejectReason::ArithmeticOverflow)
    );
}

#[test]
fn rejects_negative_pm_fee_rate() {
    assert_eq!(
        pm_event("YES", "BUY", 1, -1).canonicalize(&Registry::standard()),
        Err(RejectReason::InvalidFee("-1".to_string()))
    );
}

#[test]
fn rejects_pm_fee_overflow() {
    assert_eq!(
        pm_event("YES", "BUY", i64::MAX, i64::MAX).canonicalize(&Registry::standard()),
        Err(RejectReason::ArithmeticOverflow)
    );
}

#[test]
fn rejects_unknown_symbol() {
    let mut event = hl_event("67412.50", "0.0030");
    event.symbol = "DOGE-PERP".to_string();
    assert_eq!(
        event.canonicalize(&Registry::standard()),
        Err(RejectReason::UnknownSymbol("DOGE-PERP".to_string()))
    );
}
