//! Cost-basis accounting: opening, adding, closing, crossing zero, and what is rejected.

use bitfrost::fixtures::generate_at;
use bitfrost::rounding::div_round_half_even;
use bitfrost::{
    Canonicalize, Fill, InstrumentId, InstrumentSpec, Kind, Lots, Micro, PmEvent,
    PositionKeeper, PositionKey, PositionRounding, PositionStore, Registry, RejectReason, Side,
    Ticks, Venue, WirePrice, POSITION_ROUNDING,
};

fn wire(price: f64) -> WirePrice {
    WirePrice { bits: price.to_bits(), text: price.to_string() }
}

fn fill(
    account: &str,
    instrument: (&str, Venue, Kind),
    side: Side,
    price: i64,
    qty: i64,
    fee: i128,
) -> Fill {
    let (symbol, venue, kind) = instrument;
    Fill {
        venue,
        event_id: format!("{account}-{symbol}-{price}-{qty}"),
        seq: 1,
        ts_ms: 1,
        account: account.to_string(),
        instrument: InstrumentId(symbol.to_string()),
        symbol: symbol.to_string(),
        kind,
        side,
        price: Ticks(price),
        qty: Lots(qty),
        fee: Micro(fee),
    }
}

fn btc(account: &str, side: Side, price: i64, qty: i64, fee: i128) -> Fill {
    fill(
        account,
        ("BTC-PERP", Venue::Hl, Kind::Perp),
        side,
        price,
        qty,
        fee,
    )
}

fn key(account: &str, symbol: &str) -> PositionKey {
    PositionKey {
        account: account.to_string(),
        instrument: InstrumentId(symbol.to_string()),
    }
}

#[test]
fn opens_and_adds_with_weighted_average() {
    let mut keeper = PositionKeeper::new(Registry::standard());
    keeper.apply(&btc("acct", Side::Buy, 200, 2, 10)).unwrap();
    let delta = keeper.apply(&btc("acct", Side::Buy, 400, 2, 20)).unwrap();

    assert_eq!(delta.closed_qty, Lots(0));
    assert_eq!(delta.opened_qty, Lots(2));
    assert_eq!(delta.realized_pnl_delta, Micro::zero());
    assert_eq!(delta.after.net_qty, Lots(4));
    assert_eq!(delta.after.open_cost, Micro(60_000));
    assert_eq!(delta.after.avg_entry_price, Some(Ticks(300)));
    assert_eq!(delta.after.fees, Micro(30));
}

#[test]
fn partially_closes_a_long() {
    let mut keeper = PositionKeeper::new(Registry::standard());
    keeper.apply(&btc("acct", Side::Buy, 200, 10, 0)).unwrap();
    let delta = keeper.apply(&btc("acct", Side::Sell, 300, 4, 0)).unwrap();

    assert_eq!(delta.closed_qty, Lots(4));
    assert_eq!(delta.opened_qty, Lots(0));
    assert_eq!(delta.realized_pnl_delta, Micro(20_000));
    assert_eq!(delta.after.net_qty, Lots(6));
    assert_eq!(delta.after.open_cost, Micro(60_000));
    assert_eq!(delta.after.avg_entry_price, Some(Ticks(200)));
}

#[test]
fn partially_closes_a_short() {
    let mut keeper = PositionKeeper::new(Registry::standard());
    keeper.apply(&btc("acct", Side::Sell, 300, 10, 0)).unwrap();
    let delta = keeper.apply(&btc("acct", Side::Buy, 200, 4, 0)).unwrap();

    assert_eq!(delta.realized_pnl_delta, Micro(20_000));
    assert_eq!(delta.after.net_qty, Lots(-6));
    assert_eq!(delta.after.open_cost, Micro(90_000));
    assert_eq!(delta.after.avg_entry_price, Some(Ticks(300)));
}

#[test]
fn crosses_zero_close_then_open() {
    let mut keeper = PositionKeeper::new(Registry::standard());
    keeper.apply(&btc("acct", Side::Buy, 200, 5, 0)).unwrap();
    let delta = keeper.apply(&btc("acct", Side::Sell, 300, 8, 0)).unwrap();

    assert_eq!(delta.closed_qty, Lots(5));
    assert_eq!(delta.opened_qty, Lots(3));
    assert_eq!(delta.realized_pnl_delta, Micro(25_000));
    assert_eq!(delta.after.net_qty, Lots(-3));
    assert_eq!(delta.after.open_cost, Micro(45_000));
    assert_eq!(delta.after.avg_entry_price, Some(Ticks(300)));
}

#[test]
fn short_crosses_zero_close_then_open() {
    let mut keeper = PositionKeeper::new(Registry::standard());
    keeper.apply(&btc("acct", Side::Sell, 300, 5, 0)).unwrap();
    let delta = keeper.apply(&btc("acct", Side::Buy, 200, 8, 0)).unwrap();

    assert_eq!(delta.closed_qty, Lots(5));
    assert_eq!(delta.opened_qty, Lots(3));
    assert_eq!(delta.realized_pnl_delta, Micro(25_000));
    assert_eq!(delta.after.net_qty, Lots(3));
    assert_eq!(delta.after.open_cost, Micro(30_000));
    assert_eq!(delta.after.avg_entry_price, Some(Ticks(200)));
}

#[test]
fn full_close_clears_cost_and_average() {
    let mut keeper = PositionKeeper::new(Registry::standard());
    keeper.apply(&btc("acct", Side::Buy, 200, 5, 5)).unwrap();
    let delta = keeper.apply(&btc("acct", Side::Sell, 200, 5, 7)).unwrap();

    assert_eq!(delta.after.net_qty, Lots(0));
    assert_eq!(delta.after.open_cost, Micro::zero());
    assert_eq!(delta.after.avg_entry_price, None);
    assert_eq!(delta.after.realized_pnl, Micro::zero());
    assert_eq!(delta.after.fees, Micro(12));
}

#[test]
fn applies_binary_positions_with_the_same_integer_math() {
    let mut keeper = PositionKeeper::new(Registry::standard());
    let open = fill(
        "acct",
        ("FED-CUT-SEP", Venue::Pm, Kind::Binary),
        Side::Sell,
        6_350,
        400,
        508_000,
    );
    let delta = keeper.apply(&open).unwrap();

    assert_eq!(delta.after.net_qty, Lots(-400));
    assert_eq!(delta.after.open_cost, Micro(254_000_000));
    assert_eq!(delta.after.avg_entry_price, Some(Ticks(6_350)));
    assert_eq!(delta.after.fees, Micro(508_000));
}

#[test]
fn pm_no_lifecycle_realizes_negative_yes_pnl() {
    let registry = Registry::standard();
    let open = PmEvent {
        sequence: 1,
        id: "open-no".to_string(),
        timestamp_ms: 1,
        user: "acct".to_string(),
        market: "FED-CUT-SEP".to_string(),
        outcome: "NO".to_string(),
        action: "BUY".to_string(),
        price: wire(0.30),
        size: 100,
        fee_bps: 0,
    }
    .canonicalize(&registry)
    .unwrap();
    let close = PmEvent {
        sequence: 2,
        id: "close-no".to_string(),
        timestamp_ms: 2,
        user: "acct".to_string(),
        market: "FED-CUT-SEP".to_string(),
        outcome: "NO".to_string(),
        action: "SELL".to_string(),
        price: wire(0.40),
        size: 100,
        fee_bps: 0,
    }
    .canonicalize(&registry)
    .unwrap();
    let mut keeper = PositionKeeper::new(Registry::standard());

    keeper.apply(&open).unwrap();
    let delta = keeper.apply(&close).unwrap();

    assert_eq!(delta.after.net_qty, Lots(0));
    assert_eq!(delta.after.realized_pnl, Micro(10_000_000));
    assert_eq!(delta.after.open_cost, Micro::zero());
}

#[test]
fn rejects_binary_price_outside_payout_bounds_atomically() {
    let mut keeper = PositionKeeper::new(Registry::standard());
    let invalid = fill(
        "acct",
        ("FED-CUT-SEP", Venue::Pm, Kind::Binary),
        Side::Buy,
        10_000,
        1,
        0,
    );

    assert_eq!(
        keeper.apply(&invalid),
        Err(RejectReason::PriceOutOfRange {
            symbol: "FED-CUT-SEP".to_string(),
            ticks: 10_000,
        })
    );
    assert!(keeper.is_empty());
}

#[test]
fn applies_half_even_rounding_to_average_and_partial_basis() {
    let registry = Registry::from_specs(vec![InstrumentSpec {
        instrument: InstrumentId("ROUNDING".to_string()),
        symbol: "ROUNDING".to_string(),
        venue: Venue::Hl,
        kind: Kind::Perp,
        tick_micro: 1,
        lot_qty_e9: 1_000_000_000,
        micro_per_tick_lot: 0,
    }]);
    let mut keeper = PositionKeeper::new(registry);
    let first = fill(
        "acct",
        ("ROUNDING", Venue::Hl, Kind::Perp),
        Side::Buy,
        1,
        1,
        0,
    );
    let second = fill(
        "acct",
        ("ROUNDING", Venue::Hl, Kind::Perp),
        Side::Buy,
        2,
        1,
        0,
    );
    let close = fill(
        "acct",
        ("ROUNDING", Venue::Hl, Kind::Perp),
        Side::Sell,
        2,
        1,
        0,
    );

    keeper.apply(&first).unwrap();
    let added = keeper.apply(&second).unwrap();
    assert_eq!(POSITION_ROUNDING, PositionRounding::HalfEven);
    assert_eq!(added.after.open_cost, Micro(3));
    assert_eq!(added.after.avg_entry_price, Some(Ticks(2)));

    let reduced = keeper.apply(&close).unwrap();
    assert_eq!(reduced.realized_pnl_delta, Micro::zero());
    assert_eq!(reduced.after.open_cost, Micro(1));
    assert_eq!(reduced.after.avg_entry_price, Some(Ticks(1)));
}

#[test]
fn rejection_leaves_state_unchanged() {
    let mut keeper = PositionKeeper::new(Registry::standard());
    keeper.apply(&btc("acct", Side::Buy, 200, 5, 0)).unwrap();
    let before = keeper.positions().clone();
    let unknown = fill(
        "acct",
        ("DOGE-PERP", Venue::Hl, Kind::Perp),
        Side::Buy,
        1,
        1,
        0,
    );

    assert_eq!(
        keeper.apply(&unknown),
        Err(RejectReason::UnknownSymbol("DOGE-PERP".to_string()))
    );
    assert_eq!(keeper.positions(), &before);
}

#[test]
fn overflow_leaves_state_unchanged() {
    let mut keeper = PositionKeeper::new(Registry::standard());
    keeper.apply(&btc("acct", Side::Buy, 200, 5, 0)).unwrap();
    let before = keeper.positions().clone();
    let overflow = btc("acct", Side::Buy, i64::MAX, i64::MAX, 0);

    assert_eq!(
        keeper.apply(&overflow),
        Err(RejectReason::ArithmeticOverflow)
    );
    assert_eq!(keeper.positions(), &before);
}

#[test]
fn notional_overflow_leaves_empty_state_unchanged() {
    let mut keeper = PositionKeeper::new(Registry::standard());
    let overflow = btc("acct", Side::Buy, i64::MAX, i64::MAX, 0);

    assert_eq!(
        keeper.apply(&overflow),
        Err(RejectReason::ArithmeticOverflow)
    );
    assert!(keeper.is_empty());
}

#[test]
fn fee_overflow_leaves_state_unchanged() {
    let mut keeper = PositionKeeper::new(Registry::standard());
    keeper
        .apply(&btc("acct", Side::Buy, 200, 1, i128::MAX))
        .unwrap();
    let before = keeper.positions().clone();

    assert_eq!(
        keeper.apply(&btc("acct", Side::Buy, 200, 1, 1)),
        Err(RejectReason::ArithmeticOverflow)
    );
    assert_eq!(keeper.positions(), &before);
}

#[test]
fn lib_matched_fixture_conserves_realized_pnl_and_fees() {
    let fixtures = generate_at(1_700_000_000_000);
    let registry = Registry::standard();
    let mut keeper = PositionKeeper::new(Registry::standard());

    for event in fixtures.matched {
        let fill = event.canonicalize(&registry).unwrap();
        keeper.apply(&fill).unwrap();
    }

    let expected_fees = fixtures.sum_fees_micro;
    let realized = keeper
        .positions()
        .entries()
        .iter()
        .map(|(_, position)| position.realized_pnl.0)
        .sum::<i128>();
    let fees = keeper
        .positions()
        .entries()
        .iter()
        .map(|(_, position)| position.fees.0)
        .sum::<i128>();

    assert_eq!(realized, 0);
    assert_eq!(fees, expected_fees);
    assert!(keeper
        .positions()
        .entries()
        .iter()
        .all(|(_, position)| position.net_qty == Lots(0)));
}

#[test]
fn positions_iterate_in_canonical_key_order() {
    let mut keeper = PositionKeeper::new(Registry::standard());
    keeper
        .apply(&btc("z-account", Side::Buy, 200, 1, 0))
        .unwrap();
    keeper
        .apply(&btc("a-account", Side::Buy, 200, 1, 0))
        .unwrap();

    let keys = keeper
        .positions()
        .entries()
        .iter()
        .map(|(key, _)| key.clone())
        .collect::<Vec<_>>();
    assert_eq!(
        keys,
        vec![key("a-account", "BTC-PERP"), key("z-account", "BTC-PERP")]
    );
}

#[test]
fn keys_positions_by_canonical_instrument() {
    let registry = Registry::from_specs(vec![InstrumentSpec {
        instrument: InstrumentId("CANONICAL-PERP".to_string()),
        symbol: "VENUE-ALIAS".to_string(),
        venue: Venue::Hl,
        kind: Kind::Perp,
        tick_micro: 500_000,
        lot_qty_e9: 100_000,
        micro_per_tick_lot: 0,
    }]);
    let mut keeper = PositionKeeper::new(registry);
    let mut fill = fill(
        "acct",
        ("VENUE-ALIAS", Venue::Hl, Kind::Perp),
        Side::Buy,
        200,
        1,
        0,
    );
    fill.instrument = InstrumentId("CANONICAL-PERP".to_string());

    keeper.apply(&fill).unwrap();

    assert!(keeper
        .position(&PositionKey {
            account: "acct".to_string(),
            instrument: InstrumentId("CANONICAL-PERP".to_string()),
        })
        .is_some());
}

#[test]
fn half_even_rounding_is_deterministic() {
    assert_eq!(div_round_half_even(3, 2), Ok(2));
    assert_eq!(div_round_half_even(5, 2), Ok(2));
    assert_eq!(div_round_half_even(7, 2), Ok(4));
    assert_eq!(div_round_half_even(8, 3), Ok(3));
}

fn through_the_store<S: PositionStore>(store: &mut S, fill: &Fill) -> Option<Lots> {
    let delta = store.apply(fill).unwrap();
    store.position(&delta.key).map(|position| position.net_qty)
}

#[test]
fn a_keeper_is_a_position_store() {
    let mut keeper = PositionKeeper::new(Registry::standard());
    assert_eq!(through_the_store(&mut keeper, &btc("acct", Side::Buy, 200, 2, 0)), Some(Lots(2)));
    assert_eq!(through_the_store(&mut keeper, &btc("acct", Side::Sell, 200, 5, 0)), Some(Lots(-3)));
}
