//! The laws of the library on concrete values.

use bitfrost::keeper::transition;
use bitfrost::rounding::div_round_half_even;
use bitfrost::text::{decimal_text, text_order, trim_bounds, white_space, TextOrder};
use bitfrost::{
    Canonicalize, DeadLetterReason, Fill, HlEvent, IngestOutcome, Ingester, InstrumentId,
    InstrumentSource, Kind, Lots, Micro, PmEvent, Position, PositionKeeper, PositionKey, RawEvent,
    RawLine, Registry, RejectReason, Sequencer, SequencerError, Side, Ticks, Venue, WirePrice,
};

fn wire(price: f64) -> WirePrice {
    WirePrice { bits: price.to_bits(), text: price.to_string() }
}

fn fill(account: &str, side: Side, price: i64, qty: i64, fee: i128) -> Fill {
    Fill {
        venue: Venue::Hl,
        event_id: "event".to_string(),
        seq: 1,
        ts_ms: 1,
        account: account.to_string(),
        instrument: InstrumentId("BTC-PERP".to_string()),
        symbol: "BTC-PERP".to_string(),
        kind: Kind::Perp,
        side,
        price: Ticks(price),
        qty: Lots(qty),
        fee: Micro(fee),
    }
}

fn sequenced(venue: Venue, seq: u64) -> Fill {
    let mut fill = fill("acct", Side::Buy, 1, 1, 0);
    fill.venue = venue;
    fill.seq = seq;
    fill
}

#[test]
fn a_position_is_the_sum_of_its_fills() {
    let trades = [
        (Side::Buy, 1_001, 7, 3),
        (Side::Buy, 999, 4, 1),
        (Side::Sell, 1_010, 5, 2),
        (Side::Sell, 1_013, 11, 0),
        (Side::Buy, 1_007, 2, 9),
    ];
    let mut keeper = PositionKeeper::new(Registry::standard());
    let mut qty = 0;
    let mut fees = 0;
    let mut cash = 0;
    for (side, price, lots, fee) in trades {
        let delta = keeper.apply(&fill("acct", side, price, lots, fee)).unwrap();
        let signed = if side == Side::Buy { lots } else { -lots };
        qty += signed;
        fees += fee;
        cash -= (price * signed) as i128 * 50;
        assert_eq!(delta.closed_qty.0 + delta.opened_qty.0, lots);
        let position = delta.after;
        let cost = if position.net_qty.0 < 0 { -position.open_cost.0 } else { position.open_cost.0 };
        assert_eq!(position.net_qty, Lots(qty));
        assert_eq!(position.fees, Micro(fees));
        assert_eq!(position.realized_pnl.0, cash + cost);
    }
}

#[test]
fn matched_fills_realize_what_is_still_on_the_books() {
    let mut keeper = PositionKeeper::new(Registry::standard());
    for (buyer, seller, price) in [("a", "b", 100), ("c", "a", 130), ("b", "c", 120)] {
        keeper.apply(&fill(buyer, Side::Buy, price, 3, 1)).unwrap();
        keeper.apply(&fill(seller, Side::Sell, price, 3, 1)).unwrap();
        let mut realized = 0;
        let mut on_the_books = 0;
        for (_, position) in keeper.positions().entries() {
            realized += position.realized_pnl.0;
            on_the_books += position.open_cost.0 * position.net_qty.0.signum() as i128;
        }
        assert_eq!(realized, on_the_books);
    }
    assert!(keeper.positions().entries().iter().all(|(_, position)| position.net_qty == Lots(0)));
}

#[test]
fn positions_do_not_disturb_each_other() {
    let mut both = PositionKeeper::new(Registry::standard());
    let mut alone = PositionKeeper::new(Registry::standard());
    for price in [100, 105, 90] {
        both.apply(&fill("other", Side::Sell, price + 1, 2, 0)).unwrap();
        both.apply(&fill("acct", Side::Buy, price, 1, 0)).unwrap();
        alone.apply(&fill("acct", Side::Buy, price, 1, 0)).unwrap();
    }
    let key = PositionKey {
        account: "acct".to_string(),
        instrument: InstrumentId("BTC-PERP".to_string()),
    };
    assert_eq!(both.position(&key), alone.position(&key));
}

fn pm_event(outcome: &str, action: &str, price: f64) -> PmEvent {
    PmEvent {
        sequence: 1,
        id: "pm".to_string(),
        timestamp_ms: 1,
        user: "acct".to_string(),
        market: "FED-CUT-SEP".to_string(),
        outcome: outcome.to_string(),
        action: action.to_string(),
        price: wire(price),
        size: 5,
        fee_bps: 0,
    }
}

#[test]
fn no_is_the_other_side_of_yes() {
    let registry = Registry::standard();
    let no = pm_event("NO", "SELL", 0.37).canonicalize(&registry).unwrap();
    let yes = pm_event("YES", "BUY", 0.63).canonicalize(&registry).unwrap();
    assert_eq!(no, yes);
}

#[test]
fn a_second_flush_finds_nothing() {
    let mut sequencer = Sequencer::default();
    sequencer.push(Venue::Pm, 5, sequenced(Venue::Pm, 1)).unwrap();
    assert_eq!(sequencer.flush().len(), 1);
    assert!(sequencer.flush().is_empty());
    assert!(sequencer.drain_ready().is_empty());
    sequencer.tick(Venue::Pm, 100);
    assert_eq!(
        sequencer.push(Venue::Pm, 100, sequenced(Venue::Pm, 2)),
        Err(SequencerError::Sealed { venue: Venue::Pm })
    );
}

#[test]
fn ticks_past_every_stamp_empty_the_lanes() {
    let mut sequencer = Sequencer::new();
    for seq in 1..=20 {
        sequencer.push(Venue::Hl, seq * 3, sequenced(Venue::Hl, seq)).unwrap();
        sequencer.push(Venue::Pm, seq * 2, sequenced(Venue::Pm, seq)).unwrap();
    }
    sequencer.tick(Venue::Hl, 61);
    sequencer.tick(Venue::Pm, 60);
    let tape = sequencer.drain_ready();
    assert_eq!(tape.len(), 40);
    assert_eq!(sequencer.depth(), 0);
    for pair in tape.windows(2) {
        let key = |index: usize| (pair[index].recv_ts, pair[index].fill.venue, pair[index].fill.seq);
        assert!(key(0) < key(1));
    }
}

fn hl_line(event_id: &str, seq: u64, symbol: &str) -> RawLine {
    RawLine {
        venue: Venue::Hl,
        text: "raw".to_string(),
        parsed: Ok(RawEvent::Hl(HlEvent {
            seq,
            event_id: event_id.to_string(),
            ts: 1,
            account: "account".to_string(),
            symbol: symbol.to_string(),
            side: "buy".to_string(),
            px: "100.0".to_string(),
            qty: "0.002".to_string(),
            fee: "0.0".to_string(),
        })),
    }
}

fn pm_line(event: PmEvent) -> RawLine {
    RawLine { venue: Venue::Pm, text: "raw".to_string(), parsed: Ok(RawEvent::Pm(event)) }
}

#[test]
fn a_rejected_event_is_a_duplicate_when_it_comes_again() {
    let mut ingester = Ingester::new(Registry::standard());
    assert_eq!(
        ingester.fill_caught(1, hl_line("event", 1, "UNKNOWN")),
        IngestOutcome::DeadLettered(DeadLetterReason::Rejected(RejectReason::UnknownSymbol(
            "UNKNOWN".to_string()
        )))
    );
    assert_eq!(ingester.fill_caught(2, hl_line("event", 1, "UNKNOWN")), IngestOutcome::Duplicate);
    assert_eq!(ingester.dead_letters().len(), 1);
    assert!(ingester.alerts().is_empty());
}

#[test]
fn a_price_that_is_no_number_contradicts_itself() {
    let mut ingester = Ingester::new(Registry::standard());
    assert!(matches!(
        ingester.fill_caught(1, pm_line(pm_event("YES", "BUY", f64::NAN))),
        IngestOutcome::DeadLettered(DeadLetterReason::Rejected(_))
    ));
    assert_eq!(
        ingester.fill_caught(2, pm_line(pm_event("YES", "BUY", f64::NAN))),
        IngestOutcome::DeadLettered(DeadLetterReason::Byzantine)
    );
}

#[test]
fn the_same_name_on_two_venues_is_two_events() {
    let mut ingester = Ingester::new(Registry::standard());
    assert_eq!(ingester.fill_caught(1, hl_line("pm", 1, "BTC-PERP")), IngestOutcome::Accepted);
    assert_eq!(
        ingester.fill_caught(2, pm_line(pm_event("YES", "BUY", 0.5))),
        IngestOutcome::Accepted
    );
}

#[test]
fn two_texts_with_one_fill_are_one_event() {
    let mut ingester = Ingester::new(Registry::standard());
    assert_eq!(ingester.fill_caught(1, hl_line("event", 1, "BTC-PERP")), IngestOutcome::Accepted);
    let mut copy = hl_line("event", 1, "BTC-PERP");
    let Ok(RawEvent::Hl(raw)) = &mut copy.parsed else {
        unreachable!()
    };
    raw.px = " 100 ".to_string();
    raw.qty = "0.00200".to_string();
    assert_eq!(ingester.fill_caught(2, copy), IngestOutcome::Duplicate);
}

#[test]
fn a_stamp_behind_the_frontier_is_set_aside() {
    let mut ingester = Ingester::new(Registry::standard());
    ingester.tick(Venue::Hl, 10);
    assert_eq!(
        ingester.fill_caught(9, hl_line("event", 1, "BTC-PERP")),
        IngestOutcome::DeadLettered(DeadLetterReason::OutOfOrder(SequencerError::RecvTsWalkback {
            venue: Venue::Hl,
            frontier: 10,
            recv_ts: 9,
        }))
    );
    assert_eq!(ingester.dead_letters()[0].event_id, "event");
}

#[test]
fn the_tape_does_not_depend_on_the_interleave_of_stamped_arrivals() {
    let hl: Vec<(u64, RawLine)> =
        (1..=6).map(|seq| (seq * 2, hl_line(&format!("hl-{seq}"), seq, "BTC-PERP"))).collect();
    let pm: Vec<(u64, RawLine)> = (1..=6)
        .map(|seq| {
            let mut event = pm_event("YES", "BUY", 0.5);
            event.id = format!("pm-{seq}");
            event.sequence = seq;
            (seq * 3, pm_line(event))
        })
        .collect();
    let mut eager = Ingester::new(Registry::standard());
    let mut tape = Vec::new();
    for index in 0..6 {
        eager.fill_caught(pm[index].0, pm[index].1.clone());
        tape.extend(eager.drain_ready());
        eager.fill_caught(hl[index].0, hl[index].1.clone());
        tape.extend(eager.drain_ready());
    }
    tape.extend(eager.flush());
    let mut lazy = Ingester::new(Registry::standard());
    for (recv_ts, line) in hl.into_iter().chain(pm) {
        lazy.fill_caught(recv_ts, line);
    }
    assert_eq!(lazy.flush(), tape);
    assert_eq!(tape.len(), 12);
}

#[test]
fn halves_round_to_the_even_neighbour() {
    for (numerator, denominator, expected) in
        [(0, 5, 0), (1, 2, 0), (3, 2, 2), (5, 2, 2), (7, 4, 2), (9, 4, 2), (11, 4, 3), (15, 6, 2)]
    {
        assert_eq!(div_round_half_even(numerator, denominator), Ok(expected));
    }
    assert_eq!(div_round_half_even(-1, 2), Err(RejectReason::ArithmeticOverflow));
    assert_eq!(div_round_half_even(1, 0), Err(RejectReason::ArithmeticOverflow));
    assert_eq!(
        div_round_half_even(i128::MAX - 1, i128::MAX),
        Err(RejectReason::ArithmeticOverflow)
    );
}

#[test]
fn white_space_is_what_std_says_it_is() {
    for code in 0..=0x10FFFFu32 {
        if let Some(c) = char::from_u32(code) {
            assert_eq!(white_space(c), c.is_whitespace(), "{code:x}");
        }
    }
    let chars: Vec<char> = "\u{3000} a b\n".chars().collect();
    assert_eq!(trim_bounds(&chars), (2, 5));
}

#[test]
fn texts_are_ordered_as_std_orders_them() {
    let texts = ["", "a", "b", "ab", "A", "é", "z", "\u{10000}", "\u{ffff}", "a\u{0}"];
    for a in texts {
        for b in texts {
            let expected = if a < b {
                TextOrder::Before
            } else if a == b {
                TextOrder::Same
            } else {
                TextOrder::After
            };
            assert_eq!(text_order(a, b), expected, "{a:?} {b:?}");
        }
    }
}

#[test]
fn numbers_are_written_as_std_writes_them() {
    for n in [0, 7, 10, 99, -1, -100, i64::MAX as i128, i64::MIN as i128, i128::MAX, i128::MIN] {
        assert_eq!(decimal_text(n), n.to_string());
    }
}

#[test]
fn exchange_time_never_decides_the_order() {
    let run = |ts_of: fn(u64) -> u64| {
        let mut sequencer = Sequencer::new();
        for seq in 1..=8 {
            for venue in [Venue::Pm, Venue::Hl] {
                let mut fill = sequenced(venue, seq);
                fill.ts_ms = ts_of(seq);
                sequencer.push(venue, seq / 2, fill).unwrap();
            }
        }
        sequencer
            .flush()
            .into_iter()
            .map(|out| (out.global_seq, out.recv_ts, out.fill.venue, out.fill.seq))
            .collect::<Vec<_>>()
    };
    assert_eq!(run(|seq| seq), run(|seq| 1_000 - seq));
}

#[test]
fn a_closed_part_is_rounded_and_the_rest_stays_covered() {
    let mut keeper = PositionKeeper::new(Registry::standard());
    for price in [1, 2, 2, 1, 1] {
        keeper.apply(&fill("acct", Side::Buy, price, 1, 0)).unwrap();
    }
    for lots in [2, 1, 1] {
        let after = keeper.apply(&fill("acct", Side::Sell, 3, lots, 0)).unwrap().after;
        assert!(after.open_cost.0 >= after.net_qty.0 as i128 * 50);
        assert!(after.avg_entry_price.unwrap().0 >= 1);
    }
}

#[test]
fn cost_and_average_stay_between_the_traded_prices() {
    let mut keeper = PositionKeeper::new(Registry::standard());
    let trades = [(2, 10), (1, 13), (1, 11), (-1, 20), (-1, 9), (-7, 15), (2, 8), (1, 30)];
    let mut low = i64::MAX;
    let mut high = i64::MIN;
    for (lots, price) in trades {
        let (side, qty) = if lots > 0 { (Side::Buy, lots) } else { (Side::Sell, -lots) };
        let after = keeper.apply(&fill("acct", side, price, qty, 0)).unwrap().after;
        low = low.min(price);
        high = high.max(price);
        let lots = after.net_qty.0.unsigned_abs() as i128;
        assert!(low as i128 * lots * 50 <= after.open_cost.0);
        assert!(after.open_cost.0 <= high as i128 * lots * 50);
        let average = after.avg_entry_price.unwrap().0;
        assert!(low <= average && average <= high);
    }
    let position = keeper.apply(&fill("acct", Side::Sell, 16, 1, 0)).unwrap().after;
    assert_eq!(position.net_qty, Lots(-3));
    assert_eq!(position.open_cost, Micro(46 * 50));
    assert_eq!(position.avg_entry_price, Some(Ticks(15)));
}

#[test]
fn one_transition_mirrors_the_other() {
    let spec = Registry::standard().lookup(Venue::Hl, "BTC-PERP").cloned().unwrap();
    let key = || PositionKey {
        account: "acct".to_string(),
        instrument: InstrumentId("BTC-PERP".to_string()),
    };
    let before = Position {
        net_qty: Lots(7),
        avg_entry_price: Some(Ticks(1_001)),
        open_cost: Micro(7 * 1_001 * 50),
        realized_pnl: Micro(40),
        fees: Micro(3),
    };
    let mut mirrored = before;
    mirrored.net_qty = Lots(-7);
    mirrored.realized_pnl = Micro(-40);
    let sold = transition(key(), before, &fill("acct", Side::Sell, 1_010, 9, 2), &spec).unwrap();
    let bought = transition(key(), mirrored, &fill("acct", Side::Buy, 1_010, 9, 2), &spec).unwrap();
    assert_eq!(sold.after.net_qty, Lots(-2));
    assert_eq!(bought.after.net_qty, Lots(2));
    assert_eq!(sold.realized_pnl_delta, Micro(7 * 9 * 50));
    assert_eq!(bought.realized_pnl_delta, Micro(-7 * 9 * 50));
    assert_eq!(bought.after.open_cost, sold.after.open_cost);
    assert_eq!(bought.after.avg_entry_price, sold.after.avg_entry_price);
}

#[test]
fn a_short_position_mirrors_a_long_one() {
    let trades = [(7, 1_001), (4, 999), (-5, 1_010), (-11, 1_013), (2, 1_007), (3, 990)];
    let mut long = PositionKeeper::new(Registry::standard());
    let mut short = PositionKeeper::new(Registry::standard());
    for (lots, price) in trades {
        let (side, qty) = if lots > 0 { (Side::Buy, lots) } else { (Side::Sell, -lots) };
        let a = long.apply(&fill("acct", side, price, qty, 3)).unwrap();
        let b = short.apply(&fill("acct", side.flip(), price, qty, 3)).unwrap();
        assert_eq!(b.after.net_qty.0, -a.after.net_qty.0);
        assert_eq!(b.realized_pnl_delta.0, -a.realized_pnl_delta.0);
        assert_eq!(b.after.open_cost, a.after.open_cost);
        assert_eq!(b.after.avg_entry_price, a.after.avg_entry_price);
        assert_eq!(b.after.fees, a.after.fees);
        assert_eq!(b.closed_qty, a.closed_qty);
        assert_eq!(b.opened_qty, a.opened_qty);
    }
}

#[test]
fn partners_may_stand_anywhere_on_the_tape() {
    let tape = [
        ("a", Side::Buy, 100, 3),
        ("b", Side::Sell, 120, 2),
        ("c", Side::Sell, 100, 3),
        ("a", Side::Sell, 130, 3),
        ("d", Side::Buy, 120, 2),
        ("b", Side::Buy, 90, 2),
        ("c", Side::Buy, 130, 3),
        ("d", Side::Sell, 90, 2),
    ];
    let mut keeper = PositionKeeper::new(Registry::standard());
    for (account, side, price, qty) in tape {
        keeper.apply(&fill(account, side, price, qty, 1)).unwrap();
    }
    let entries = keeper.positions().entries();
    assert!(entries.iter().all(|(_, position)| position.net_qty == Lots(0)));
    assert!(entries.iter().any(|(_, position)| position.realized_pnl != Micro(0)));
    assert_eq!(entries.iter().map(|(_, position)| position.realized_pnl.0).sum::<i128>(), 0);
    assert_eq!(entries.iter().map(|(_, position)| position.fees.0).sum::<i128>(), 8);
}

#[test]
fn stamps_that_never_go_back_do_not_decide_what_is_accepted() {
    let lines = [
        hl_line("one", 1, "BTC-PERP"),
        hl_line("two", 5, "BTC-PERP"),
        hl_line("one", 1, "BTC-PERP"),
        hl_line("late", 3, "BTC-PERP"),
        hl_line("bad", 6, "UNKNOWN"),
        hl_line("three", 7, "BTC-PERP"),
    ];
    let run = |stamps: [u64; 6], idle: u64| {
        let mut ingester = Ingester::new(Registry::standard());
        let mut fills = Vec::new();
        for (stamp, line) in stamps.into_iter().zip(lines.clone()) {
            ingester.fill_caught(stamp, line);
            ingester.tick(Venue::Pm, idle);
            fills.extend(ingester.drain_ready());
        }
        fills.extend(ingester.flush());
        fills.into_iter().map(|out| out.fill).collect::<Vec<_>>()
    };
    let fills = run([1, 2, 3, 4, 5, 6], 0);
    assert_eq!(fills.len(), 3);
    assert_eq!(run([7, 7, 7, 7, 7, 7], 100), fills);
    assert_eq!(run([0, 10, 10, 1_000, 1_000, u64::MAX], 9), fills);
}

#[test]
fn a_flipped_outcome_is_the_opposite_trade() {
    let registry = Registry::standard();
    let yes = pm_event("YES", "BUY", 0.37).canonicalize(&registry).unwrap();
    let no = pm_event("NO", "BUY", 0.37).canonicalize(&registry).unwrap();
    assert_eq!(no.side, yes.side.flip());
    assert_eq!((yes.price, no.price), (Ticks(3_700), Ticks(6_300)));
    assert_eq!((no.qty, no.fee), (yes.qty, yes.fee));
}
