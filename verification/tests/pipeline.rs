//! The generated feeds through the whole pipeline: every planted defect is caught, and the tape
//! and the positions come out as they should.

use bitfrost::fixtures::generate_at;
use bitfrost::{
    AlertKind, Canonicalize, DeadLetterReason, HlEvent, Ingester, Lots, PmEvent, PositionBook,
    PositionKeeper, RawEvent, RawLine, Registry, RejectReason, SequencedFill, Sequencer, Venue,
};
use std::collections::{BTreeMap, BTreeSet};

const BASE_TS: u64 = 1_700_000_000_000;

fn hl_line(event: HlEvent) -> RawLine {
    RawLine {
        venue: Venue::Hl,
        text: format!("{event:?}"),
        parsed: Ok(RawEvent::Hl(event)),
    }
}

fn pm_line(event: PmEvent) -> RawLine {
    RawLine {
        venue: Venue::Pm,
        text: format!("{event:?}"),
        parsed: Ok(RawEvent::Pm(event)),
    }
}

fn raw_hl() -> Vec<RawLine> {
    generate_at(BASE_TS).hl.into_iter().map(hl_line).collect()
}

fn hl_lines() -> Vec<RawLine> {
    sorted_by_seq(raw_hl())
}

fn pm_lines() -> Vec<RawLine> {
    sorted_by_seq(generate_at(BASE_TS).pm.into_iter().map(pm_line).collect())
}

/// Producers deliver in the order of their sequence numbers.
fn sorted_by_seq(mut lines: Vec<RawLine>) -> Vec<RawLine> {
    lines.sort_by_key(|line| line.parsed.as_ref().map(RawEvent::seq).unwrap_or(u64::MAX));
    lines
}

/// Interleaves two feeds at random and keeps each in its own order.
fn riffle(hl: Vec<RawLine>, pm: Vec<RawLine>, seed: u64) -> Vec<RawLine> {
    let mut state = seed;
    let mut hl = hl.into_iter().peekable();
    let mut pm = pm.into_iter().peekable();
    let mut out = Vec::new();
    loop {
        let take_hl = match (hl.peek(), pm.peek()) {
            (None, None) => break,
            (Some(_), None) => true,
            (None, Some(_)) => false,
            (Some(_), Some(_)) => splitmix64(&mut state) & 1 == 0,
        };
        out.push(if take_hl { hl.next() } else { pm.next() }.unwrap());
    }
    out
}

fn splitmix64(state: &mut u64) -> u64 {
    *state = state.wrapping_add(0x9E3779B97F4A7C15);
    let mut z = *state;
    z = (z ^ (z >> 30)).wrapping_mul(0xBF58476D1CE4E5B9);
    z = (z ^ (z >> 27)).wrapping_mul(0x94D049BB133111EB);
    z ^ (z >> 31)
}

/// Stamps arrivals with a logical clock, drains as it goes, and flushes at the end.
fn run_pipeline(lines: Vec<RawLine>) -> (Ingester<Registry>, Vec<SequencedFill>) {
    let mut ingester = Ingester::new(Registry::standard());
    let mut tape = Vec::new();
    for (index, line) in lines.into_iter().enumerate() {
        ingester.fill_caught(index as u64 + 1, line);
        tape.extend(ingester.drain_ready());
    }
    tape.extend(ingester.flush());
    (ingester, tape)
}

fn apply(tape: &[SequencedFill]) -> PositionBook {
    let mut keeper = PositionKeeper::new(Registry::standard());
    for sequenced in tape {
        keeper
            .apply(&sequenced.fill)
            .unwrap_or_else(|reason| panic!("{}: {reason:?}", sequenced.fill.event_id));
    }
    keeper.into_positions()
}

fn rejected(
    ingester: &Ingester<Registry>,
    event_id: &str,
    matches: impl Fn(&RejectReason) -> bool,
) -> bool {
    ingester.dead_letters().iter().any(|letter| {
        letter.event_id == event_id
            && match &letter.reason {
                DeadLetterReason::Rejected(reason) => matches(reason),
                _ => false,
            }
    })
}

#[test]
fn routes_poison_byzantine_and_duplicates_with_raw_text_preserved() {
    let (ingester, tape) = run_pipeline(riffle(hl_lines(), pm_lines(), 7));

    assert_eq!(tape.len(), ingester.stats().accepted);
    assert!(
        ingester.stats().accepted > 900,
        "accepted = {}",
        ingester.stats().accepted
    );
    assert_eq!(ingester.stats().out_of_order, 0);
    assert!(ingester.stats().duplicates > 0);
    assert!(ingester.stats().gaps > 0);

    assert!(rejected(&ingester, "hl-poison-unknown", |reason| {
        matches!(reason, RejectReason::UnknownSymbol(_))
    }));
    assert!(rejected(&ingester, "hl-poison-offtick", |reason| {
        matches!(reason, RejectReason::OffTick { .. })
    }));
    assert!(rejected(&ingester, "pm-poison-unknown", |reason| {
        matches!(reason, RejectReason::UnknownSymbol(_))
    }));
    assert!(rejected(&ingester, "pm-poison-range", |reason| {
        matches!(reason, RejectReason::PriceOutOfRange { .. })
    }));

    assert_eq!(ingester.stats().byzantine, 2);
    assert_eq!(ingester.alerts().len(), 2);
    for id in ["hl-dup-byz", "pm-dup-byz"] {
        assert!(ingester
            .alerts()
            .iter()
            .any(|alert| alert.event_id == id && alert.kind == AlertKind::ByzantineDuplicate));
        assert!(ingester.dead_letters().iter().any(|letter| {
            letter.event_id == id && letter.reason == DeadLetterReason::Byzantine
        }));
    }

    assert_eq!(ingester.dead_letters().len(), 6);
    assert_eq!(ingester.stats().dead_lettered, 6);
    assert!(ingester
        .dead_letters()
        .iter()
        .all(|letter| letter.text.as_ref().is_some_and(|text| !text.is_empty())));
}

#[test]
fn replays_identical_arrivals_to_an_identical_tape() {
    let arrivals = riffle(hl_lines(), pm_lines(), 7);
    let (_, tape) = run_pipeline(arrivals.clone());
    let (_, replayed) = run_pipeline(arrivals);
    assert_eq!(replayed, tape);
}

#[test]
fn positions_are_independent_of_cross_venue_interleave() {
    let (_, tape) = run_pipeline(riffle(hl_lines(), pm_lines(), 7));
    let expected = apply(&tape);
    for seed in [99u64, 2024] {
        let (_, other) = run_pipeline(riffle(hl_lines(), pm_lines(), seed));
        assert_eq!(other.len(), tape.len());
        assert_eq!(apply(&other), expected);
    }
}

#[test]
fn raw_fixture_order_quarantines_planted_disorder() {
    let (ingester, tape) = run_pipeline(raw_hl());
    assert!(ingester.stats().out_of_order > 0);
    assert!(ingester
        .dead_letters()
        .iter()
        .any(|letter| matches!(letter.reason, DeadLetterReason::OutOfOrder(_))));
    assert_eq!(tape.len(), ingester.stats().accepted);
}

#[test]
fn matched_stream_conserves_realized_pnl_and_fees() {
    let fixtures = generate_at(BASE_TS);
    let lines = sorted_by_seq(fixtures.matched.into_iter().map(hl_line).collect());
    let (_, tape) = run_pipeline(lines);
    let positions = apply(&tape);

    assert_eq!(tape.len(), 100);
    assert_eq!(
        positions
            .entries()
            .iter()
            .map(|(_, position)| position.realized_pnl.0)
            .sum::<i128>(),
        0
    );
    assert_eq!(
        positions
            .entries()
            .iter()
            .map(|(_, position)| position.fees.0)
            .sum::<i128>(),
        fixtures.sum_fees_micro
    );
    assert!(positions
        .entries()
        .iter()
        .all(|(_, position)| position.net_qty == Lots(0)));
}

#[test]
fn the_books_balance_over_both_feeds() {
    let arrivals = riffle(hl_lines(), pm_lines(), 5);
    let count = arrivals.len();
    let (ingester, tape) = run_pipeline(arrivals);
    let stats = ingester.stats();
    assert_eq!(stats.accepted + stats.duplicates + stats.dead_lettered, count);
    assert_eq!(stats.accepted, tape.len());
    assert_eq!(stats.dead_lettered, ingester.dead_letters().len());
    assert_eq!(stats.byzantine, ingester.alerts().len());
}

#[test]
fn a_lone_venue_is_accepted_as_it_is_beside_the_other() {
    let (_, both) = run_pipeline(riffle(hl_lines(), pm_lines(), 11));
    let (_, alone) = run_pipeline(hl_lines());
    let of_hl: Vec<_> = both
        .into_iter()
        .map(|out| out.fill)
        .filter(|fill| fill.venue == Venue::Hl)
        .collect();
    let lone: Vec<_> = alone.into_iter().map(|out| out.fill).collect();
    assert_eq!(of_hl, lone);
}

#[test]
fn fixtures_route_poison_and_byzantine_events() {
    let mut lines = hl_lines();
    lines.extend(pm_lines());
    let (ingester, _) = run_pipeline(lines);

    assert_eq!(ingester.alerts().len(), 2);
    assert!(ingester
        .alerts()
        .iter()
        .all(|alert| alert.kind == AlertKind::ByzantineDuplicate));
    assert!(ingester
        .alerts()
        .iter()
        .any(|alert| alert.event_id == "hl-dup-byz"));
    assert!(ingester
        .alerts()
        .iter()
        .any(|alert| alert.event_id == "pm-dup-byz"));

    assert_eq!(ingester.dead_letters().len(), 6);
    assert!(ingester
        .dead_letters()
        .iter()
        .all(|letter| letter.text.as_ref().is_some_and(|text| !text.is_empty())));
    assert!(rejected(&ingester, "hl-poison-unknown", |reason| {
        matches!(reason, RejectReason::UnknownSymbol(_))
    }));
    assert!(rejected(&ingester, "hl-poison-offtick", |reason| {
        matches!(reason, RejectReason::OffTick { .. })
    }));
    assert!(rejected(&ingester, "pm-poison-unknown", |reason| {
        matches!(reason, RejectReason::UnknownSymbol(_))
    }));
    assert!(rejected(&ingester, "pm-poison-range", |reason| {
        matches!(reason, RejectReason::PriceOutOfRange { .. })
    }));
    assert_eq!(ingester.stats().byzantine, 2);
    assert_eq!(ingester.stats().dead_lettered, 6);
    assert!(ingester.stats().duplicates > 0);
}

#[test]
fn final_positions_are_independent_of_arrival_order() {
    let mut lines = hl_lines();
    lines.extend(pm_lines());
    let expected = apply(&run_pipeline(lines).1);
    for seed in [7, 99] {
        assert_eq!(apply(&run_pipeline(riffle(hl_lines(), pm_lines(), seed)).1), expected);
    }
}

#[test]
fn drives_full_fixtures_and_is_arrival_order_independent() {
    let mut lines = hl_lines();
    lines.extend(pm_lines());
    let (ingester, tape) = run_pipeline(lines);

    assert_eq!(tape.len(), ingester.stats().accepted);
    assert!(
        ingester.stats().accepted > 900,
        "accepted = {}",
        ingester.stats().accepted
    );
    for id in ["hl-poison-unknown", "hl-poison-offtick", "pm-poison-unknown", "pm-poison-range"] {
        assert!(rejected(&ingester, id, |_| true));
    }
    for id in ["hl-dup-byz", "pm-dup-byz"] {
        assert!(ingester.dead_letters().iter().any(|letter| {
            letter.event_id == id && letter.reason == DeadLetterReason::Byzantine
        }));
    }
    assert_eq!(ingester.alerts().len(), 2);

    let baseline = apply(&tape);
    for seed in [7u64, 99, 2024] {
        let (_, replayed) = run_pipeline(riffle(hl_lines(), pm_lines(), seed));
        assert_eq!(apply(&replayed), baseline);
    }
}

#[test]
fn conservation_matched_fixture_conserves_realized_pnl_and_fees() {
    let fixtures = generate_at(BASE_TS);
    let lines: Vec<RawLine> = fixtures.matched.into_iter().map(hl_line).collect();
    let count = lines.len();
    let (_, tape) = run_pipeline(lines);
    let positions = apply(&tape);
    let realized_pnl = positions
        .entries()
        .iter()
        .map(|(_, position)| position.realized_pnl.0)
        .sum::<i128>();
    let fees = positions.entries().iter().map(|(_, position)| position.fees.0).sum::<i128>();

    assert_eq!(tape.len(), count);
    assert_eq!(realized_pnl, 0);
    assert_eq!(fees, fixtures.sum_fees_micro);
}

fn assert_sequence_pathologies(lines: &[RawLine], byzantine_id: &str) {
    let events = lines
        .iter()
        .map(|line| line.parsed.clone().unwrap())
        .collect::<Vec<_>>();
    let mut seq_owners = BTreeMap::new();
    let mut by_id = BTreeMap::<String, Vec<RawEvent>>::new();

    for event in &events {
        if let Some(owner) = seq_owners.insert(event.seq(), event.event_id().to_string()) {
            assert_eq!(owner, event.event_id());
        }
        by_id
            .entry(event.event_id().to_string())
            .or_default()
            .push(event.clone());
    }

    assert!(events.windows(2).any(|pair| pair[0].seq() > pair[1].seq()));
    let unique_sequences = seq_owners.keys().copied().collect::<Vec<_>>();
    assert!(unique_sequences
        .windows(2)
        .any(|pair| pair[1] > pair[0] + 1));
    assert!(by_id
        .values()
        .any(|duplicates| duplicates.len() > 1
            && duplicates.iter().all(|event| event == &duplicates[0])));

    let byzantine = by_id.get(byzantine_id).unwrap();
    assert_eq!(byzantine.len(), 2);
    assert_ne!(byzantine[0], byzantine[1]);
}

#[test]
fn feeds_hold_their_pathologies_and_everything_else_is_canonical() {
    let hl = raw_hl();
    let pm: Vec<RawLine> = generate_at(BASE_TS).pm.into_iter().map(pm_line).collect();
    assert_sequence_pathologies(&hl, "hl-dup-byz");
    assert_sequence_pathologies(&pm, "pm-dup-byz");

    let registry = Registry::standard();
    let poison: BTreeSet<&str> =
        ["hl-poison-unknown", "hl-poison-offtick", "pm-poison-unknown", "pm-poison-range"].into();
    for line in hl.into_iter().chain(pm) {
        let event = line.parsed.unwrap();
        let poisoned = poison.contains(event.event_id());
        assert_eq!(event.canonicalize(&registry).is_err(), poisoned);
    }
}

/// Stamps a feed with a clock that moves on by less than a millisecond at a time.
fn stamped(lines: Vec<RawLine>, base_ms: u64, seed: u64) -> Vec<(u64, RawLine)> {
    let mut state = seed;
    let mut micros = 0;
    lines
        .into_iter()
        .map(|line| {
            micros += splitmix64(&mut state) % 150;
            (base_ms + micros / 1_000, line)
        })
        .collect()
}

#[test]
fn realtime_recv_ts_stamping_upholds_algo_invariants() {
    let epoch_base_ms = BASE_TS;
    let hl_arrivals = stamped(hl_lines(), epoch_base_ms, 7);
    let pm_arrivals = stamped(pm_lines(), epoch_base_ms, 99);

    let mut ingester = Ingester::new(Registry::standard());
    let mut tape = Vec::new();
    let mut last_stamp = 0u64;
    let mut hl_iter = hl_arrivals.into_iter().peekable();
    let mut pm_iter = pm_arrivals.into_iter().peekable();
    loop {
        let take_hl = match (hl_iter.peek(), pm_iter.peek()) {
            (None, None) => break,
            (Some(_), None) => true,
            (None, Some(_)) => false,
            (Some((hl_ts, _)), Some((pm_ts, _))) => hl_ts <= pm_ts,
        };
        let (recv_ts, line) = if take_hl { hl_iter.next() } else { pm_iter.next() }.unwrap();
        ingester.fill_caught(recv_ts, line);
        tape.extend(ingester.drain_ready());
        last_stamp = last_stamp.max(recv_ts);
    }

    // With both feeds idle, ticks alone finish the tape.
    ingester.tick(Venue::Hl, last_stamp + 1);
    ingester.tick(Venue::Pm, last_stamp + 1);
    tape.extend(ingester.drain_ready());
    assert_eq!(ingester.sequencer().depth(), 0);
    assert!(ingester.flush().is_empty());

    assert_eq!(tape.len(), ingester.stats().accepted);
    assert_eq!(ingester.stats().out_of_order, 0);
    assert!(tape
        .iter()
        .zip(1u64..)
        .all(|(out, expected)| out.global_seq == expected));
    assert!(tape
        .windows(2)
        .all(|pair| pair[0].recv_ts <= pair[1].recv_ts));
    for venue in [Venue::Hl, Venue::Pm] {
        let seqs: Vec<u64> = tape
            .iter()
            .filter(|out| out.fill.venue == venue)
            .map(|out| out.fill.seq)
            .collect();
        assert!(seqs.windows(2).all(|pair| pair[0] < pair[1]));
    }

    let cross_venue_ties = tape
        .windows(2)
        .filter(|pair| {
            pair[0].recv_ts == pair[1].recv_ts && pair[0].fill.venue != pair[1].fill.venue
        })
        .inspect(|pair| {
            assert_eq!(pair[0].fill.venue, Venue::Hl);
            assert_eq!(pair[1].fill.venue, Venue::Pm);
        })
        .count();
    assert!(cross_venue_ties > 0);

    // A bare sequencer that is given the same stamps venue by venue writes the same tape.
    let mut replay = Sequencer::new();
    for wanted in [Venue::Hl, Venue::Pm] {
        for out in tape.iter().filter(|out| out.fill.venue == wanted) {
            replay
                .push(out.fill.venue, out.recv_ts, out.fill.clone())
                .unwrap();
        }
    }
    assert_eq!(replay.flush(), tape);

    let first_pm_index = tape
        .iter()
        .position(|out| out.fill.venue == Venue::Pm)
        .unwrap();
    assert!(tape[first_pm_index..]
        .iter()
        .any(|out| out.fill.venue == Venue::Hl));
}
