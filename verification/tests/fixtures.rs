//! The generated feeds.

use bitfrost::decimal::parse_fixed;
use bitfrost::fixtures::{format_scaled, generate_at, HL_LINES, PM_LINES, SEED};
use bitfrost::{
    Canonicalize, DeadLetterReason, IngestOutcome, Ingester, RawEvent, RawLine, Registry,
    RejectReason, Ticks, Venue,
};

const BASE_TS: u64 = 1_700_000_000_000;

struct Rng {
    state: u64,
}

impl Rng {
    fn below(&mut self, upper: u64) -> u64 {
        self.state = self.state.wrapping_add(0x9E3779B97F4A7C15);
        let mut z = self.state;
        z = (z ^ (z >> 30)).wrapping_mul(0xBF58476D1CE4E5B9);
        z = (z ^ (z >> 27)).wrapping_mul(0x94D049BB133111EB);
        (z ^ (z >> 31)) % upper
    }
}

fn scaled(value: u64, decimals: usize) -> String {
    let factor = 10u64.pow(decimals as u32);
    format!("{}.{:0width$}", value / factor, value % factor, width = decimals)
}

#[test]
fn generation_is_reproducible() {
    let a = generate_at(BASE_TS);
    let b = generate_at(BASE_TS);
    assert_eq!(a.hl, b.hl);
    assert_eq!(a.pm, b.pm);
    assert_eq!(a.matched, b.matched);
    assert_eq!(a.sum_fees_micro, b.sum_fees_micro);
}

#[test]
fn feeds_have_their_length_and_fees_their_sum() {
    let set = generate_at(BASE_TS);
    assert_eq!(set.hl.len(), HL_LINES);
    assert_eq!(set.pm.len(), PM_LINES);
    assert_eq!(set.matched.len(), 100);
    assert_eq!(set.sum_fees_micro, 14_950);
}

#[test]
fn the_first_events_come_from_the_first_draws() {
    let mut rng = Rng { state: SEED };
    let set = generate_at(BASE_TS);
    let mut seq = 999;
    for (index, event) in set.hl.iter().take(36).enumerate() {
        let ordinal = index as u64 + 1;
        seq += rng.below(2) + 1;
        let btc = rng.below(10) < 8;
        let ticks = if btc { 133_000 } else { 68_000 } + rng.below(4_001);
        let lots = rng.below(100) + 1;
        let account = rng.below(3) + 1;
        let buy = rng.below(2) == 0;
        let fee = 100 + rng.below(9_901);
        assert_eq!(event.seq, seq);
        assert_eq!(event.event_id, format!("hl-{ordinal:04}"));
        assert_eq!(event.ts, BASE_TS + ordinal * 11);
        assert_eq!(event.account, format!("acct-{account}"));
        assert_eq!(event.symbol, if btc { "BTC-PERP" } else { "ETH-PERP" });
        assert_eq!(event.side, if buy { "buy" } else { "sell" });
        assert_eq!(event.px, scaled(ticks * 5, if btc { 1 } else { 2 }));
        assert_eq!(event.qty, scaled(lots, if btc { 4 } else { 3 }));
        assert_eq!(event.fee, scaled(fee, 6));
    }
}

#[test]
fn the_market_feed_goes_on_where_the_other_stopped() {
    let mut rng = Rng { state: SEED };
    for _ in 0..483 * 7 {
        rng.below(1);
    }
    let set = generate_at(BASE_TS);
    let mut sequence = 87_999;
    for (index, event) in set.pm.iter().take(30).enumerate() {
        let ordinal = index as u64 + 1;
        sequence += rng.below(2) + 1;
        let market = if rng.below(10) < 8 { "FED-CUT-SEP" } else { "CPI-ABOVE-AUG" };
        let price = (100 + rng.below(9_801)) as f64 / 10_000.0;
        let user = rng.below(3) + 1;
        let outcome = if rng.below(10) < 8 { "YES" } else { "NO" };
        let action = if rng.below(2) == 0 { "BUY" } else { "SELL" };
        let size = rng.below(20) as i64 + 1;
        let fee_bps = (rng.below(3) as i64 + 1) * 10;
        assert_eq!(event.sequence, sequence);
        assert_eq!(event.id, format!("pm-{ordinal:04}"));
        assert_eq!(event.timestamp_ms, BASE_TS + ordinal * 13 + 3);
        assert_eq!(event.user, format!("acct-{user}"));
        assert_eq!(event.market, market);
        assert_eq!(event.outcome, outcome);
        assert_eq!(event.action, action);
        assert_eq!(event.price.bits, price.to_bits());
        assert_eq!(event.price.text, price.to_string());
        assert_eq!(event.size, size);
        assert_eq!(event.fee_bps, fee_bps);
    }
}

#[test]
fn defects_are_planted_where_they_belong() {
    let set = generate_at(BASE_TS);
    let ids: Vec<&str> = set.hl.iter().map(|event| event.event_id.as_str()).collect();
    // The thirty-seventh event is sent twice, and the forty-first changes places.
    assert_eq!(&ids[36..43], ["hl-0037", "hl-0037", "hl-0038", "hl-0039", "hl-0041", "hl-0040", "hl-0042"]);
    assert_eq!(set.hl[36], set.hl[37]);
    assert_eq!(&ids[496..], ["hl-poison-unknown", "hl-poison-offtick", "hl-dup-byz", "hl-dup-byz"]);
    assert_ne!(set.hl[498], set.hl[499]);

    let ids: Vec<&str> = set.pm.iter().map(|event| event.id.as_str()).collect();
    assert_eq!(&ids[30..33], ["pm-0031", "pm-0031", "pm-0032"]);
    assert_eq!(&ids[42..45], ["pm-0043", "pm-0042", "pm-0044"]);
    assert_eq!(&ids[496..], ["pm-poison-unknown", "pm-poison-range", "pm-dup-byz", "pm-dup-byz"]);
    assert_eq!(set.pm[496].price.bits, 0.50f64.to_bits());
    assert_eq!(set.pm[497].price.bits, 0.005f64.to_bits());
    assert_eq!(set.pm[498].price.bits, 0.30f64.to_bits());
}

#[test]
fn matched_fills_come_in_rounds_of_four() {
    let set = generate_at(BASE_TS);
    let first: Vec<(&str, &str, &str, &str)> = set.matched[..4]
        .iter()
        .map(|event| {
            (
                event.event_id.as_str(),
                event.account.as_str(),
                event.side.as_str(),
                event.px.as_str(),
            )
        })
        .collect();
    assert_eq!(
        first,
        [
            ("matched-00-0", "mm-A", "buy", "66500.0"),
            ("matched-00-1", "mm-B", "sell", "66500.0"),
            ("matched-00-2", "mm-A", "sell", "66501.0"),
            ("matched-00-3", "mm-B", "buy", "66501.0"),
        ]
    );
    let last = &set.matched[99];
    assert_eq!(last.seq, 200_099);
    assert_eq!(last.event_id, "matched-24-3");
    assert_eq!(last.ts, BASE_TS + 200_099);
    assert_eq!(last.qty, "0.0013");
    assert_eq!(last.fee, "0.000199");
}

#[test]
fn what_is_written_out_reads_back() {
    for value in [0i128, 1, 9, 10, 99, 100, 12_345, 674_125, 1_000_000] {
        for decimals in 1u32..=6 {
            let text = format_scaled(value, decimals);
            assert_eq!(parse_fixed(&text, decimals), Ok(value));
            assert_eq!(parse_fixed(&text, 9), Ok(value * 10i128.pow(9 - decimals)));
        }
    }
    assert_eq!(format_scaled(674_125, 1), "67412.5");
    assert_eq!(format_scaled(30, 4), "0.0030");
}

#[test]
fn every_drawn_event_has_a_canonical_fill() {
    let registry = Registry::standard();
    let set = generate_at(BASE_TS);
    for (i, event) in set.hl.iter().enumerate() {
        let fill = event.clone().canonicalize(&registry);
        assert_eq!(fill.is_ok(), i != 496 && i != 497, "{i}");
    }
    for (i, event) in set.pm.iter().enumerate() {
        let fill = event.clone().canonicalize(&registry);
        assert_eq!(fill.is_ok(), i != 496 && i != 497, "{i}");
    }

    let mut rng = Rng { state: SEED };
    let draws: Vec<u64> = [2, 10, 4_001, 100, 3, 2, 9_901].map(|upper| rng.below(upper)).to_vec();
    let opening = if draws[1] < 8 { 133_000 } else { 68_000 };
    let fill = set.hl[0].clone().canonicalize(&registry).unwrap();
    assert_eq!(fill.price, Ticks(opening + draws[2] as i64));
    assert_eq!(fill.qty.0, draws[3] as i64 + 1);
    assert_eq!(fill.fee.0, draws[6] as i128 + 100);
}

#[test]
fn poison_is_refused_for_its_defect() {
    let registry = Registry::standard();
    let set = generate_at(BASE_TS);
    assert_eq!(
        set.hl[496].clone().canonicalize(&registry),
        Err(RejectReason::UnknownSymbol("DOGE-PERP".to_string()))
    );
    assert_eq!(
        set.hl[497].clone().canonicalize(&registry),
        Err(RejectReason::OffTick { symbol: "BTC-PERP".to_string(), raw: "67412.30".to_string() })
    );
    assert_eq!(
        set.pm[496].clone().canonicalize(&registry),
        Err(RejectReason::UnknownSymbol("UNKNOWN-MKT".to_string()))
    );
    assert_eq!(
        set.pm[497].clone().canonicalize(&registry),
        Err(RejectReason::PriceOutOfRange { symbol: "FED-CUT-SEP".to_string(), ticks: 50 })
    );
}

#[test]
fn of_two_copies_that_contradict_the_second_raises_an_alert() {
    for order in [[498, 499], [499, 498]] {
        let set = generate_at(BASE_TS);
        let mut ingester = Ingester::new(Registry::standard());
        for (venue, name) in [(Venue::Hl, "hl-dup-byz"), (Venue::Pm, "pm-dup-byz")] {
            let outcomes = order.map(|i| {
                let event = match venue {
                    Venue::Hl => RawEvent::Hl(set.hl[i].clone()),
                    Venue::Pm => RawEvent::Pm(set.pm[i].clone()),
                };
                ingester.fill_caught(1, RawLine { venue, text: "raw".to_string(), parsed: Ok(event) })
            });
            assert_eq!(outcomes[0], IngestOutcome::Accepted);
            assert_eq!(outcomes[1], IngestOutcome::DeadLettered(DeadLetterReason::Byzantine));
            assert_eq!(ingester.alerts().last().unwrap().event_id, name);
        }
        assert_eq!(ingester.alerts().len(), 2);
    }
}
