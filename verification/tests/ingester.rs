//! The ingest task: duplicates, contradictions, walk-backs and bad arrivals.

use bitfrost::{
    DeadLetterReason, HlEvent, IngestOutcome, Ingester, Lots, PmEvent, RawEvent, RawLine, Registry,
    RejectReason, SequencedFill, SequencerError, Venue, WirePrice,
};

fn wire(price: f64) -> WirePrice {
    WirePrice { bits: price.to_bits(), text: price.to_string() }
}

fn line(event: RawEvent) -> RawLine {
    RawLine {
        venue: event.venue(),
        text: "raw".to_string(),
        parsed: Ok(event),
    }
}

fn event(event_id: &str, seq: u64, qty: &str) -> RawLine {
    line(RawEvent::Hl(HlEvent {
        seq,
        event_id: event_id.to_string(),
        ts: 1,
        account: "account".to_string(),
        symbol: "BTC-PERP".to_string(),
        side: "buy".to_string(),
        px: "100.0".to_string(),
        qty: qty.to_string(),
        fee: "0.0".to_string(),
    }))
}

fn pm_event(event_id: &str, seq: u64) -> RawLine {
    line(RawEvent::Pm(PmEvent {
        sequence: seq,
        id: event_id.to_string(),
        timestamp_ms: 1,
        user: "account".to_string(),
        market: "FED-CUT-SEP".to_string(),
        outcome: "YES".to_string(),
        action: "BUY".to_string(),
        price: wire(0.5),
        size: 1,
        fee_bps: 0,
    }))
}

#[test]
fn applies_exactly_once_by_venue_and_event_id() {
    let mut ingester = Ingester::new(Registry::standard());
    assert_eq!(
        ingester.fill_caught(1, event("event", 1, "0.002")),
        IngestOutcome::Accepted
    );
    assert_eq!(
        ingester.fill_caught(2, event("event", 1, "0.002")),
        IngestOutcome::Duplicate
    );
    assert_eq!(ingester.stats().accepted, 1);
    assert_eq!(ingester.stats().duplicates, 1);
    assert_eq!(ingester.flush().len(), 1);
}

#[test]
fn quarantines_byzantine_duplicates_and_keeps_the_first_accepted_copy() {
    fn run(first: &str, second: &str) -> (Vec<SequencedFill>, Lots) {
        let mut ingester = Ingester::new(Registry::standard());
        assert_eq!(
            ingester.fill_caught(1, event("event", 1, first)),
            IngestOutcome::Accepted
        );
        assert_eq!(
            ingester.fill_caught(2, event("event", 1, second)),
            IngestOutcome::DeadLettered(DeadLetterReason::Byzantine)
        );
        assert_eq!(ingester.alerts().len(), 1);
        assert_eq!(ingester.dead_letters().len(), 1);
        let tape = ingester.flush();
        let qty = tape[0].fill.qty;
        (tape, qty)
    }

    // The tape is immutable (I5): whichever payload was accepted first stays on it, and
    // the conflicting copy is dead-lettered — deterministic per stamped arrival tape.
    assert_eq!(run("0.002", "0.004").1, Lots(20));
    assert_eq!(run("0.004", "0.002").1, Lots(40));
}

#[test]
fn repeated_byzantine_conflicts_raise_repeated_alerts() {
    let mut ingester = Ingester::new(Registry::standard());
    assert_eq!(
        ingester.fill_caught(1, event("event", 1, "0.002")),
        IngestOutcome::Accepted
    );
    for recv_ts in [2, 3] {
        assert_eq!(
            ingester.fill_caught(recv_ts, event("event", 1, "0.004")),
            IngestOutcome::DeadLettered(DeadLetterReason::Byzantine)
        );
    }

    assert_eq!(ingester.alerts().len(), 2);
    assert_eq!(ingester.dead_letters().len(), 2);
    assert_eq!(ingester.stats().byzantine, 2);
    let tape = ingester.flush();
    assert_eq!(tape.len(), 1);
    assert_eq!(tape[0].fill.qty, Lots(20));
}

#[test]
fn rejects_unknown_instrument_into_dead_letters() {
    let mut unknown = event("unknown", 1, "0.002");
    let Ok(RawEvent::Hl(raw)) = &mut unknown.parsed else {
        unreachable!()
    };
    raw.symbol = "UNKNOWN".to_string();
    let mut ingester = Ingester::new(Registry::standard());
    assert!(matches!(
        ingester.fill_caught(1, unknown),
        IngestOutcome::DeadLettered(DeadLetterReason::Rejected(
            RejectReason::UnknownSymbol(symbol)
        )) if symbol == "UNKNOWN"
    ));
    assert!(ingester.flush().is_empty());
    assert_eq!(ingester.dead_letters().len(), 1);
    assert_eq!(ingester.dead_letters()[0].text.as_deref(), Some("raw"));
}

#[test]
fn preserves_malformed_line_text() {
    let mut ingester = Ingester::new(Registry::standard());
    let outcome = ingester.fill_caught(
        1,
        RawLine {
            venue: Venue::Hl,
            text: "not-json".to_string(),
            parsed: Err("expected value".to_string()),
        },
    );
    assert_eq!(
        outcome,
        IngestOutcome::DeadLettered(DeadLetterReason::Malformed("expected value".to_string()))
    );
    assert_eq!(ingester.dead_letters()[0].text.as_deref(), Some("not-json"));
}

#[test]
fn quarantines_out_of_order_producers_and_counts_gaps() {
    let mut ingester = Ingester::new(Registry::standard());
    assert_eq!(
        ingester.fill_caught(1, event("first", 1, "0.002")),
        IngestOutcome::Accepted
    );
    assert_eq!(
        ingester.fill_caught(2, event("third", 3, "0.002")),
        IngestOutcome::Accepted
    );
    assert_eq!(
        ingester.fill_caught(3, event("seventh", 7, "0.002")),
        IngestOutcome::Accepted
    );
    // A walk-back violates the in-order producer assumption → quarantined, not applied.
    assert!(matches!(
        ingester.fill_caught(4, event("stale", 2, "0.002")),
        IngestOutcome::DeadLettered(DeadLetterReason::OutOfOrder(
            SequencerError::SeqWalkback {
                last_seq: 7,
                seq: 2,
                ..
            }
        ))
    ));
    assert_eq!(ingester.stats().out_of_order, 1);
    assert_eq!(ingester.stats().gaps, 4); // (1→3) skips one, (3→7) skips three
    assert_eq!(ingester.stats().accepted, 3);
    assert_eq!(ingester.flush().len(), 3);
}

#[test]
fn tape_orders_by_stamp_then_venue_priority() {
    let mut ingester = Ingester::new(Registry::standard());
    ingester.fill_caught(1, pm_event("pm-first", 10));
    ingester.fill_caught(1, event("hl-first", 1, "0.002"));
    ingester.fill_caught(2, event("hl-later", 3, "0.002"));
    ingester.fill_caught(3, pm_event("pm-second", 11));

    let tape = ingester.flush();
    assert_eq!(
        tape.iter()
            .map(|out| out.fill.event_id.as_str())
            .collect::<Vec<_>>(),
        // Equal stamps resolve by venue priority (Hl < Pm); the rest by recv_ts.
        ["hl-first", "pm-first", "hl-later", "pm-second"]
    );
    assert_eq!(
        tape.iter().map(|out| out.global_seq).collect::<Vec<_>>(),
        [1, 2, 3, 4]
    );
}

#[test]
fn drains_incrementally_as_frontiers_advance() {
    let mut ingester = Ingester::new(Registry::standard());
    ingester.fill_caught(10, event("hl-1", 1, "0.002"));
    assert!(ingester.drain_ready().is_empty());
    // Pm reaching the stamp frees the higher-priority Hl head.
    ingester.tick(Venue::Pm, 10);
    assert_eq!(ingester.drain_ready().len(), 1);
    assert_eq!(ingester.sequencer().depth(), 0);
}

#[test]
fn flags_byzantine_when_the_conflicting_copy_is_invalid() {
    let mut ingester = Ingester::new(Registry::standard());
    assert_eq!(
        ingester.fill_caught(1, event("event", 1, "0.002")),
        IngestOutcome::Accepted
    );
    // Same id comes back with an off-tick price: the conflict must be flagged as
    // byzantine, not laundered into a plain rejection.
    let mut off_tick = event("event", 1, "0.002");
    let Ok(RawEvent::Hl(raw)) = &mut off_tick.parsed else {
        unreachable!()
    };
    raw.px = "100.3".to_string();
    assert_eq!(
        ingester.fill_caught(2, off_tick),
        IngestOutcome::DeadLettered(DeadLetterReason::Byzantine)
    );
    assert_eq!(ingester.alerts().len(), 1);
    assert_eq!(ingester.stats().byzantine, 1);
    // The valid first copy is still the one on the tape.
    assert_eq!(ingester.flush().len(), 1);
}

#[test]
fn flags_byzantine_when_the_first_copy_was_rejected() {
    let mut ingester = Ingester::new(Registry::standard());
    let mut poison = event("event", 1, "0.002");
    let Ok(RawEvent::Hl(raw)) = &mut poison.parsed else {
        unreachable!()
    };
    raw.symbol = "UNKNOWN".to_string();
    assert!(matches!(
        ingester.fill_caught(1, poison),
        IngestOutcome::DeadLettered(DeadLetterReason::Rejected(_))
    ));
    // A venue re-issuing the id with valid-but-different data must not slip in silently.
    assert_eq!(
        ingester.fill_caught(2, event("event", 1, "0.002")),
        IngestOutcome::DeadLettered(DeadLetterReason::Byzantine)
    );
    assert_eq!(ingester.alerts().len(), 1);
    assert!(ingester.flush().is_empty());
}

#[test]
fn dedups_retransmits_of_rejected_and_quarantined_events() {
    let mut ingester = Ingester::new(Registry::standard());
    ingester.fill_caught(1, event("first", 5, "0.002"));
    // Quarantined for walking the sequence back…
    assert!(matches!(
        ingester.fill_caught(2, event("stale", 3, "0.002")),
        IngestOutcome::DeadLettered(DeadLetterReason::OutOfOrder(_))
    ));
    // …so an identical retransmit is a duplicate, not a second dead letter.
    assert_eq!(
        ingester.fill_caught(3, event("stale", 3, "0.002")),
        IngestOutcome::Duplicate
    );
    assert_eq!(ingester.dead_letters().len(), 1);
    assert_eq!(ingester.stats().out_of_order, 1);
    assert_eq!(ingester.stats().duplicates, 1);
}

#[test]
fn derives_venue_from_the_parsed_event_not_the_wrapper() {
    let mut ingester = Ingester::new(Registry::standard());
    let mut mislabeled = pm_event("pm-event", 10);
    mislabeled.venue = Venue::Hl; // the transport wrapper lies
    assert_eq!(ingester.fill_caught(1, mislabeled), IngestOutcome::Accepted);
    let tape = ingester.flush();
    assert_eq!(tape[0].fill.venue, Venue::Pm);
}

#[test]
fn bad_arrivals_still_advance_the_frontier() {
    let mut ingester = Ingester::new(Registry::standard());
    ingester.fill_caught(10, event("hl-1", 1, "0.002"));
    assert!(ingester.drain_ready().is_empty()); // Pm frontier is still 0
                                                // A poison Pm arrival is still proof that Pm has reached ts 10 — it must free the
                                                // buffered Hl head rather than stall it until flush.
    let mut poison = pm_event("pm-poison", 7);
    let Ok(RawEvent::Pm(raw)) = &mut poison.parsed else {
        unreachable!()
    };
    raw.market = "UNKNOWN".to_string();
    assert!(matches!(
        ingester.fill_caught(10, poison),
        IngestOutcome::DeadLettered(DeadLetterReason::Rejected(_))
    ));
    assert_eq!(ingester.drain_ready().len(), 1);
}
