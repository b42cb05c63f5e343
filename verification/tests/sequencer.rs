//! The merger: walk-backs, gates, ties and the end of the stream.

use bitfrost::{
    Fill, InstrumentId, Kind, Lots, Micro, SequencedFill, Sequencer, SequencerError, Side, Ticks,
    Venue,
};

fn fill(venue: Venue, seq: u64) -> Fill {
    let (symbol, kind) = match venue {
        Venue::Hl => ("BTC-PERP", Kind::Perp),
        Venue::Pm => ("FED-CUT-SEP", Kind::Binary),
    };
    Fill {
        venue,
        event_id: format!("{venue:?}-{seq}"),
        seq,
        ts_ms: 1,
        account: "acct".to_string(),
        instrument: InstrumentId(symbol.to_string()),
        symbol: symbol.to_string(),
        kind,
        side: Side::Buy,
        price: Ticks(100),
        qty: Lots(1),
        fee: Micro(0),
    }
}

fn ids(tape: &[SequencedFill]) -> Vec<&str> {
    tape.iter().map(|out| out.fill.event_id.as_str()).collect()
}

#[test]
fn rejects_recv_ts_behind_the_frontier() {
    let mut sequencer = Sequencer::new();
    sequencer.push(Venue::Hl, 10, fill(Venue::Hl, 1)).unwrap();
    assert_eq!(
        sequencer.push(Venue::Hl, 5, fill(Venue::Hl, 2)),
        Err(SequencerError::RecvTsWalkback {
            venue: Venue::Hl,
            frontier: 10,
            recv_ts: 5,
        })
    );
    // Equal stamps are expected (clock granularity); only walk-backs are refused.
    sequencer.push(Venue::Hl, 10, fill(Venue::Hl, 2)).unwrap();
    // A tick also commits the frontier.
    sequencer.tick(Venue::Hl, 20);
    assert!(matches!(
        sequencer.push(Venue::Hl, 15, fill(Venue::Hl, 3)),
        Err(SequencerError::RecvTsWalkback { frontier: 20, .. })
    ));
}

#[test]
fn rejects_venue_seq_walkback_but_tolerates_gaps() {
    let mut sequencer = Sequencer::new();
    sequencer.push(Venue::Hl, 10, fill(Venue::Hl, 5)).unwrap();
    assert_eq!(
        sequencer.push(Venue::Hl, 11, fill(Venue::Hl, 5)),
        Err(SequencerError::SeqWalkback {
            venue: Venue::Hl,
            last_seq: 5,
            seq: 5,
        })
    );
    assert!(matches!(
        sequencer.push(Venue::Hl, 12, fill(Venue::Hl, 4)),
        Err(SequencerError::SeqWalkback { .. })
    ));
    sequencer.push(Venue::Hl, 12, fill(Venue::Hl, 9)).unwrap();
}

#[test]
fn rejects_fill_pushed_to_the_wrong_venue_lane() {
    let mut sequencer = Sequencer::new();
    assert_eq!(
        sequencer.push(Venue::Hl, 10, fill(Venue::Pm, 1)),
        Err(SequencerError::VenueMismatch {
            lane: Venue::Hl,
            fill: Venue::Pm,
        })
    );
    assert_eq!(sequencer.depth(), 0);
}

#[test]
fn gates_a_head_until_no_earlier_arrival_can_form_elsewhere() {
    let mut sequencer = Sequencer::new();
    sequencer.push(Venue::Hl, 10, fill(Venue::Hl, 1)).unwrap();
    // Pm's frontier is still 0: it could yet deliver a stamp below 10.
    assert!(sequencer.drain_ready().is_empty());
    // Pm reaching 10 exactly frees the Hl head: a Pm tie at 10 sorts after Hl anyway.
    sequencer.tick(Venue::Pm, 10);
    assert_eq!(ids(&sequencer.drain_ready()), ["Hl-1"]);

    // The mirror direction is strict: an Hl tie at 10 would sort BEFORE a Pm head at 10,
    // so the Pm head waits until Hl's frontier strictly passes its stamp.
    sequencer.push(Venue::Pm, 10, fill(Venue::Pm, 1)).unwrap();
    assert!(sequencer.drain_ready().is_empty());
    sequencer.tick(Venue::Hl, 10); // stale tick — frontier already there
    assert!(sequencer.drain_ready().is_empty());
    sequencer.tick(Venue::Hl, 11);
    assert_eq!(ids(&sequencer.drain_ready()), ["Pm-1"]);
    assert_eq!(sequencer.depth(), 0);
}

#[test]
fn cross_venue_ties_resolve_by_venue_priority_then_seq() {
    let mut sequencer = Sequencer::new();
    sequencer.push(Venue::Pm, 10, fill(Venue::Pm, 1)).unwrap();
    sequencer.push(Venue::Hl, 10, fill(Venue::Hl, 7)).unwrap();
    sequencer.tick(Venue::Hl, 11);
    sequencer.tick(Venue::Pm, 11);
    let tape = sequencer.drain_ready();
    assert_eq!(ids(&tape), ["Hl-7", "Pm-1"]);
    assert_eq!(tape[0].recv_ts, tape[1].recv_ts);
}

#[test]
fn global_seq_is_contiguous_across_drains_and_recv_ts_never_walks_back() {
    let mut sequencer = Sequencer::new();
    let mut tape = Vec::new();
    sequencer.push(Venue::Hl, 1, fill(Venue::Hl, 1)).unwrap();
    sequencer.push(Venue::Pm, 2, fill(Venue::Pm, 10)).unwrap();
    tape.extend(sequencer.drain_ready());
    sequencer.push(Venue::Hl, 4, fill(Venue::Hl, 3)).unwrap();
    sequencer.push(Venue::Pm, 5, fill(Venue::Pm, 12)).unwrap();
    tape.extend(sequencer.drain_ready());
    tape.extend(sequencer.flush());

    assert_eq!(tape.len(), 4);
    // I3: global_seq is exactly 1..=n and recv_ts is non-decreasing.
    assert!(tape
        .iter()
        .zip(1u64..)
        .all(|(out, expected)| out.global_seq == expected));
    assert!(tape
        .windows(2)
        .all(|pair| pair[0].recv_ts <= pair[1].recv_ts));
    // I1: each venue's fills appear in venue_seq order.
    for venue in [Venue::Hl, Venue::Pm] {
        let seqs: Vec<u64> = tape
            .iter()
            .filter(|out| out.fill.venue == venue)
            .map(|out| out.fill.seq)
            .collect();
        assert!(seqs.windows(2).all(|pair| pair[0] < pair[1]));
    }
}

#[test]
fn output_is_a_pure_function_of_the_stamped_pushes() {
    let stamped = [
        (Venue::Hl, 1, 1),
        (Venue::Pm, 1, 10),
        (Venue::Hl, 3, 2),
        (Venue::Pm, 4, 11),
        (Venue::Hl, 4, 5),
    ];

    // Interleaved pushes with eager drains…
    let mut eager = Sequencer::new();
    let mut eager_tape = Vec::new();
    for (venue, recv_ts, seq) in stamped {
        eager.push(venue, recv_ts, fill(venue, seq)).unwrap();
        eager_tape.extend(eager.drain_ready());
    }
    eager_tape.extend(eager.flush());

    // …versus venue-major pushes and a single flush: the tape depends only on the stamps.
    let mut lazy = Sequencer::new();
    for wanted in [Venue::Hl, Venue::Pm] {
        for (venue, recv_ts, seq) in stamped {
            if venue == wanted {
                lazy.push(venue, recv_ts, fill(venue, seq)).unwrap();
            }
        }
    }
    assert_eq!(lazy.flush(), eager_tape);
    assert_eq!(eager_tape.len(), stamped.len());
}

#[test]
fn rejects_pushes_after_flush_seals_the_stream() {
    let mut sequencer = Sequencer::new();
    sequencer.push(Venue::Pm, 10, fill(Venue::Pm, 1)).unwrap();
    assert_eq!(sequencer.flush().len(), 1);
    // A post-flush push at an earlier stamp would put a walked-back recv_ts on the
    // published tape (I3/I5) — the sealed sequencer refuses it outright.
    assert_eq!(
        sequencer.push(Venue::Hl, 3, fill(Venue::Hl, 1)),
        Err(SequencerError::Sealed { venue: Venue::Hl })
    );
    assert!(sequencer.drain_ready().is_empty());
}

#[test]
fn flush_drains_everything_in_sort_key_order() {
    let mut sequencer = Sequencer::new();
    sequencer.push(Venue::Hl, 5, fill(Venue::Hl, 1)).unwrap();
    sequencer.push(Venue::Hl, 6, fill(Venue::Hl, 2)).unwrap();
    sequencer.push(Venue::Pm, 5, fill(Venue::Pm, 1)).unwrap();
    assert_eq!(sequencer.depth(), 3);
    // No ticks, so nothing is watermark-safe — flush ends the stream instead.
    let tape = sequencer.flush();
    assert_eq!(ids(&tape), ["Hl-1", "Pm-1", "Hl-2"]);
    assert_eq!(sequencer.depth(), 0);
}
