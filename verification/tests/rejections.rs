//! Every reason for which something is turned away.

use bitfrost::decimal::parse_fixed;
use bitfrost::{
    Canonicalize, Fill, HlEvent, InstrumentId, InstrumentSpec, Kind, Lots, Micro, PmEvent,
    PositionKeeper, Registry, RegistryError, RejectReason, Side, Ticks, Venue, WirePrice,
};

fn wire(price: f64) -> WirePrice {
    WirePrice { bits: price.to_bits(), text: price.to_string() }
}

fn hl_event() -> HlEvent {
    HlEvent {
        seq: 1,
        event_id: "hl-1".to_string(),
        ts: 2,
        account: "account-1".to_string(),
        symbol: "ETH-PERP".to_string(),
        side: "sell".to_string(),
        px: "3000.05".to_string(),
        qty: "1.5".to_string(),
        fee: "0".to_string(),
    }
}

fn pm_event() -> PmEvent {
    PmEvent {
        sequence: 3,
        id: "pm-1".to_string(),
        timestamp_ms: 4,
        user: "account-2".to_string(),
        market: "CPI-ABOVE-AUG".to_string(),
        outcome: "YES".to_string(),
        action: "BUY".to_string(),
        price: wire(0.25),
        size: 10,
        fee_bps: 15,
    }
}

fn hl(change: impl Fn(&mut HlEvent)) -> Result<Fill, RejectReason> {
    let mut event = hl_event();
    change(&mut event);
    event.canonicalize(&Registry::standard())
}

fn pm(change: impl Fn(&mut PmEvent)) -> Result<Fill, RejectReason> {
    let mut event = pm_event();
    change(&mut event);
    event.canonicalize(&Registry::standard())
}

fn malformed(text: &str) -> RejectReason {
    RejectReason::MalformedDecimal(text.to_string())
}

#[test]
fn a_perpetual_fill_takes_its_fields_over() {
    let fill = hl(|_| {}).unwrap();
    assert_eq!(
        fill,
        Fill {
            venue: Venue::Hl,
            event_id: "hl-1".to_string(),
            seq: 1,
            ts_ms: 2,
            account: "account-1".to_string(),
            instrument: InstrumentId("ETH-PERP".to_string()),
            symbol: "ETH-PERP".to_string(),
            kind: Kind::Perp,
            side: Side::Sell,
            price: Ticks(60_001),
            qty: Lots(1_500),
            fee: Micro(0),
        }
    );
}

#[test]
fn a_binary_fill_takes_its_fields_over() {
    let fill = pm(|_| {}).unwrap();
    assert_eq!(
        fill,
        Fill {
            venue: Venue::Pm,
            event_id: "pm-1".to_string(),
            seq: 3,
            ts_ms: 4,
            account: "account-2".to_string(),
            instrument: InstrumentId("CPI-ABOVE-AUG".to_string()),
            symbol: "CPI-ABOVE-AUG".to_string(),
            kind: Kind::Binary,
            side: Side::Buy,
            price: Ticks(2_500),
            qty: Lots(10),
            // 2500 ticks * 10 * 100 = 2_500_000, of which 15 basis points are 3_750.
            fee: Micro(3_750),
        }
    );
}

#[test]
fn perpetual_events_are_turned_away_for_the_first_fault() {
    assert_eq!(
        hl(|event| event.symbol = "X".to_string()),
        Err(RejectReason::UnknownSymbol("X".to_string()))
    );
    assert_eq!(
        hl(|event| event.side = "BUY".to_string()),
        Err(RejectReason::UnknownSide("BUY".to_string()))
    );
    assert_eq!(hl(|event| event.px = "0".to_string()), Err(malformed("0")));
    assert_eq!(hl(|event| event.px = "-1".to_string()), Err(malformed("-1")));
    assert_eq!(hl(|event| event.px = "1e3".to_string()), Err(malformed("1e3")));
    assert_eq!(
        hl(|event| event.px = "0.01".to_string()),
        Err(RejectReason::OffTick { symbol: "ETH-PERP".to_string(), raw: "0.01".to_string() })
    );
    assert_eq!(
        hl(|event| event.qty = "0".to_string()),
        Err(RejectReason::InvalidQuantity("0".to_string()))
    );
    assert_eq!(hl(|event| event.qty = "".to_string()), Err(malformed("")));
    assert_eq!(
        hl(|event| event.qty = "0.0005".to_string()),
        Err(RejectReason::OffLot { symbol: "ETH-PERP".to_string(), raw: "0.0005".to_string() })
    );
    assert_eq!(hl(|event| event.fee = "-0.1".to_string()), Err(malformed("-0.1")));
    assert_eq!(hl(|event| event.fee = "x".to_string()), Err(malformed("x")));
    // The side is looked at before the price, and the price before the quantity.
    assert_eq!(
        hl(|event| {
            event.side = "hold".to_string();
            event.px = "?".to_string();
            event.qty = "?".to_string();
        }),
        Err(RejectReason::UnknownSide("hold".to_string()))
    );
}

#[test]
fn market_events_are_turned_away_for_the_first_fault() {
    assert_eq!(
        pm(|event| event.market = "X".to_string()),
        Err(RejectReason::UnknownSymbol("X".to_string()))
    );
    assert_eq!(
        pm(|event| event.action = "buy".to_string()),
        Err(RejectReason::UnknownSide("buy".to_string()))
    );
    assert_eq!(
        pm(|event| event.size = 0),
        Err(RejectReason::InvalidQuantity("0".to_string()))
    );
    assert_eq!(
        pm(|event| event.size = i64::MIN),
        Err(RejectReason::InvalidQuantity("-9223372036854775808".to_string()))
    );
    assert_eq!(
        pm(|event| event.fee_bps = -12),
        Err(RejectReason::InvalidFee("-12".to_string()))
    );
    assert_eq!(pm(|event| event.price = wire(-0.5)), Err(malformed("-0.5")));
    assert_eq!(pm(|event| event.price = wire(f64::NAN)), Err(malformed("NaN")));
    assert_eq!(pm(|event| event.price = wire(f64::INFINITY)), Err(malformed("inf")));
    assert_eq!(pm(|event| event.price = wire(1e300)), Err(RejectReason::ArithmeticOverflow));
    assert_eq!(
        pm(|event| event.price = wire(0.995)),
        Err(RejectReason::PriceOutOfRange { symbol: "CPI-ABOVE-AUG".to_string(), ticks: 9_950 })
    );
    assert_eq!(
        pm(|event| event.outcome = "MAYBE".to_string()),
        Err(RejectReason::UnknownOutcome("MAYBE".to_string()))
    );
    // The outcome is looked at last.
    assert_eq!(
        pm(|event| {
            event.outcome = "MAYBE".to_string();
            event.price = wire(0.005);
        }),
        Err(RejectReason::PriceOutOfRange { symbol: "CPI-ABOVE-AUG".to_string(), ticks: 50 })
    );
}

#[test]
fn the_bounds_of_a_probability_can_trade() {
    assert_eq!(pm(|event| event.price = wire(0.01)).unwrap().price, Ticks(100));
    assert_eq!(pm(|event| event.price = wire(0.99)).unwrap().price, Ticks(9_900));
}

#[test]
fn fees_round_halves_up() {
    // 100 ticks * 1 * 100 = 10_000; one basis point is 1.
    let fee = |bps: i64, size: i64, price: f64| {
        pm(|event| {
            event.fee_bps = bps;
            event.size = size;
            event.price = wire(price);
        })
        .unwrap()
        .fee
    };
    assert_eq!(fee(1, 1, 0.01), Micro(1));
    assert_eq!(fee(1, 1, 0.015), Micro(2));
    assert_eq!(fee(1, 1, 0.0149), Micro(1));
    assert_eq!(fee(0, 1, 0.5), Micro(0));
}

#[test]
fn decimals_are_read_with_care() {
    assert_eq!(parse_fixed("  1.5\t", 2), Ok(150));
    assert_eq!(parse_fixed("1.5000", 2), Ok(150));
    assert_eq!(parse_fixed("1.505", 2), Err(malformed("1.505")));
    assert_eq!(parse_fixed("-", 2), Err(malformed("-")));
    assert_eq!(parse_fixed(".", 2), Err(malformed(".")));
    assert_eq!(parse_fixed("-.", 2), Err(malformed("-.")));
    assert_eq!(parse_fixed("+1", 2), Err(malformed("+1")));
    assert_eq!(parse_fixed("--1", 2), Err(malformed("--1")));
    assert_eq!(parse_fixed("1.2.3", 2), Err(malformed("1.2.3")));
    assert_eq!(parse_fixed("1 2", 2), Err(malformed("1 2")));
    assert_eq!(parse_fixed("\u{663}", 2), Err(malformed("\u{663}")));
    assert_eq!(parse_fixed("-0", 0), Ok(0));
    assert_eq!(parse_fixed("007", 0), Ok(7));
    let most = i128::MAX.to_string();
    assert_eq!(parse_fixed(&most, 0), Ok(i128::MAX));
    assert_eq!(parse_fixed(&format!("-{most}"), 0), Ok(-i128::MAX));
    assert_eq!(parse_fixed(&most, 1), Err(malformed(&most)));
    let more = "170141183460469231731687303715884105728";
    assert_eq!(parse_fixed(more, 0), Err(malformed(more)));
    assert_eq!(parse_fixed("0", 200), Ok(0));
}

fn fill(kind: Kind, price: i64, qty: i64, fee: i128) -> Fill {
    Fill {
        venue: Venue::Hl,
        event_id: "event".to_string(),
        seq: 1,
        ts_ms: 1,
        account: "acct".to_string(),
        instrument: InstrumentId("BTC-PERP".to_string()),
        symbol: "BTC-PERP".to_string(),
        kind,
        side: Side::Buy,
        price: Ticks(price),
        qty: Lots(qty),
        fee: Micro(fee),
    }
}

#[test]
fn the_keeper_turns_fills_away_that_do_not_fit_their_instrument() {
    let mut keeper = PositionKeeper::new(Registry::standard());
    let symbol = Err(RejectReason::InvalidFill("BTC-PERP".to_string()));
    let event = Err(RejectReason::InvalidFill("event".to_string()));
    assert_eq!(keeper.apply(&fill(Kind::Binary, 1, 1, 0)), symbol);
    let mut other = fill(Kind::Perp, 1, 1, 0);
    other.instrument = InstrumentId("ETH-PERP".to_string());
    assert_eq!(keeper.apply(&other), symbol);
    assert_eq!(keeper.apply(&fill(Kind::Perp, 0, 1, 0)), event);
    assert_eq!(keeper.apply(&fill(Kind::Perp, 1, 0, 0)), event);
    assert_eq!(keeper.apply(&fill(Kind::Perp, 1, 1, -1)), event);
    assert!(keeper.is_empty());
    assert_eq!(keeper.len(), 0);
    keeper.apply(&fill(Kind::Perp, 1, 1, 0)).unwrap();
    assert_eq!(keeper.len(), 1);
}

fn perp(instrument: &str, symbol: &str, tick_micro: i128, lot_qty_e9: i128) -> InstrumentSpec {
    InstrumentSpec {
        instrument: InstrumentId(instrument.to_string()),
        symbol: symbol.to_string(),
        venue: Venue::Hl,
        kind: Kind::Perp,
        tick_micro,
        lot_qty_e9,
        micro_per_tick_lot: 0,
    }
}

#[test]
fn an_instrument_trades_on_one_grid() {
    let grid = 1_000_000_000;
    assert!(Registry::try_from_specs(vec![
        perp("ONE", "A", 1, grid),
        perp("ONE", "B", 1, grid),
    ])
    .is_ok());
    assert!(matches!(
        Registry::try_from_specs(vec![perp("ONE", "A", 1, grid), perp("ONE", "B", 2, grid)]),
        Err(RegistryError::InconsistentInstrument(instrument)) if instrument == "ONE"
    ));
    assert!(matches!(
        Registry::try_from_specs(vec![perp("ONE", "A", 0, grid)]),
        Err(RegistryError::InvalidSpec(symbol)) if symbol == "A"
    ));
}
