//! The ingest task: an arrival is stamped, made canonical, checked against what was seen before,
//! and pushed onto its venue's lane.

use vstd::hash_map::StringHashMap;
use vstd::prelude::*;

use crate::canonical::{Fill, FillView, RejectReason, RejectReasonView};
use crate::convert::{event_symbol, raw_fill, Canonicalize};
use crate::ingest::{
    Alert, AlertKind, AlertView, DeadLetter, DeadLetterReason, DeadLetterReasonView,
    DeadLetterView, IngestOutcome, IngestOutcomeView, IngestStats, IngestStatsView,
};
use crate::instrument::{InstrumentSource, InstrumentSpecView, Venue};
use crate::sequencer::{lemma_drained_len, tape_view, SequencedFill, Sequencer, SequencerView};
use crate::stream::{same_event, RawEvent, RawEventView, RawLine, RawLineView};

verus! {

/// The first copy of an event that was observed under its name.
struct Seen {
    event: RawEvent,
    /// The canonical fill, where the copy has one.
    fill: Option<Fill>,
}

/// The contents of a first copy.
#[verifier::ext_equal]
pub struct SeenView {
    pub event: RawEventView,
    pub fill: Option<FillView>,
}

impl View for Seen {
    type V = SeenView;

    closed spec fn view(&self) -> SeenView {
        SeenView {
            event: self.event@,
            fill: match self.fill {
                Some(fill) => Some(fill@),
                None => None,
            },
        }
    }
}

/// How an event stands to the first copy under its name.
#[derive(Clone, Copy, PartialEq, Eq, Debug, Structural)]
pub enum Identity {
    /// There is no earlier copy.
    New,
    /// It says the same.
    Retransmit,
    /// It says something else.
    Conflict,
}

/// Where instruments are looked up.
pub type Lookup = spec_fn(Venue, Seq<char>) -> Option<InstrumentSpecView>;

/// The canonical fill of an event, or why there is none.
pub open spec fn canonical_of(lookup: Lookup, event: RawEventView) -> Result<
    FillView,
    RejectReasonView,
> {
    raw_fill(event, lookup(event_symbol(event).0, event_symbol(event).1))
}

/// The contents of an [`Ingester`].
#[verifier::ext_equal]
pub struct IngesterView {
    pub sequencer: SequencerView,
    /// The first copies by venue and event name.
    pub seen: Map<(Venue, Seq<char>), SeenView>,
    pub dead_letters: Seq<DeadLetterView>,
    pub alerts: Seq<AlertView>,
    pub stats: IngestStatsView,
}

impl IngesterView {
    /// The ingester before the first arrival.
    pub open spec fn fresh() -> IngesterView {
        IngesterView {
            sequencer: SequencerView::fresh(),
            seen: Map::empty(),
            dead_letters: Seq::empty(),
            alerts: Seq::empty(),
            stats: IngestStatsView::zero(),
        }
    }

    /// The ingester after a venue is known to have reached `now_ts`.
    pub open spec fn ticked(self, venue: Venue, now_ts: u64) -> IngesterView {
        IngesterView { sequencer: self.sequencer.ticked(venue, now_ts), ..self }
    }

    /// How an event stands to the first copy under its name. Two copies that both have a fill
    /// are compared by their fills; otherwise the events themselves are compared.
    pub open spec fn identity(
        self,
        event: RawEventView,
        fill: Result<FillView, RejectReasonView>,
    ) -> Identity {
        let key = (event.venue(), event.event_id());
        if !self.seen.contains_key(key) {
            Identity::New
        } else {
            let first = self.seen[key];
            let same = match (first.fill, fill) {
                (Some(first_fill), Ok(fill)) => first_fill == fill,
                _ => same_event(first.event, event),
            };
            if same {
                Identity::Retransmit
            } else {
                Identity::Conflict
            }
        }
    }

    /// The ingester after an arrival was set aside.
    pub open spec fn set_aside(self, letter: DeadLetterView) -> IngesterView {
        IngesterView {
            dead_letters: self.dead_letters.push(letter),
            stats: IngestStatsView { dead_lettered: self.stats.dead_lettered + 1, ..self.stats },
            ..self
        }
    }

    /// The ingester after the first copy under a name was remembered.
    pub open spec fn remembering(
        self,
        event: RawEventView,
        fill: Option<FillView>,
    ) -> IngesterView {
        IngesterView {
            seen: self.seen.insert((event.venue(), event.event_id()), SeenView { event, fill }),
            ..self
        }
    }

    /// How many sequence numbers a fill skips.
    pub open spec fn skipped(self, fill: FillView) -> int {
        match self.sequencer.lane(fill.venue).last_seq {
            Some(last) => fill.seq - last - 1,
            None => 0,
        }
    }

    /// What becomes of an event whose venue has just ticked, and the ingester after it.
    pub open spec fn received(
        self,
        recv_ts: u64,
        event: RawEventView,
        fill: Result<FillView, RejectReasonView>,
        text: Seq<char>,
    ) -> (IngesterView, IngestOutcomeView) {
        let venue = event.venue();
        let event_id = event.event_id();
        match self.identity(event, fill) {
            Identity::Retransmit => (
                IngesterView {
                    stats: IngestStatsView { duplicates: self.stats.duplicates + 1, ..self.stats },
                    ..self
                },
                IngestOutcomeView::Duplicate,
            ),
            Identity::Conflict => {
                let reason = DeadLetterReasonView::Byzantine;
                let alert = AlertView { venue, event_id, kind: AlertKind::ByzantineDuplicate };
                let alerted = IngesterView {
                    alerts: self.alerts.push(alert),
                    stats: IngestStatsView { byzantine: self.stats.byzantine + 1, ..self.stats },
                    ..self
                };
                (
                    alerted.set_aside(DeadLetterView { venue, event_id, reason, text: Some(text) }),
                    IngestOutcomeView::DeadLettered(reason),
                )
            },
            Identity::New => match fill {
                Err(reject) => {
                    let reason = DeadLetterReasonView::Rejected(reject);
                    (
                        self.remembering(event, None).set_aside(
                            DeadLetterView { venue, event_id, reason, text: Some(text) },
                        ),
                        IngestOutcomeView::DeadLettered(reason),
                    )
                },
                Ok(fill) => match self.sequencer.refusal(venue, recv_ts, fill) {
                    None => (
                        IngesterView {
                            sequencer: self.sequencer.pushed(venue, recv_ts, fill),
                            stats: IngestStatsView {
                                accepted: self.stats.accepted + 1,
                                gaps: self.stats.gaps + self.skipped(fill),
                                ..self.stats
                            },
                            ..self.remembering(event, Some(fill))
                        },
                        IngestOutcomeView::Accepted,
                    ),
                    Some(error) => {
                        let reason = DeadLetterReasonView::OutOfOrder(error);
                        let counted = IngesterView {
                            stats: IngestStatsView {
                                out_of_order: self.stats.out_of_order + 1,
                                ..self.stats
                            },
                            ..self.remembering(event, Some(fill))
                        };
                        (
                            counted.set_aside(
                                DeadLetterView { venue, event_id, reason, text: Some(text) },
                            ),
                            IngestOutcomeView::DeadLettered(reason),
                        )
                    },
                },
            },
        }
    }

    /// What becomes of a line that arrives at `recv_ts`, and the ingester after it. An arrival
    /// that holds no event still shows that its venue has moved on. The event on a line, not the
    /// label of the line, says which venue it is of.
    pub open spec fn caught(self, lookup: Lookup, recv_ts: u64, line: RawLineView) -> (
        IngesterView,
        IngestOutcomeView,
    ) {
        match line.parsed {
            Err(error) => {
                let reason = DeadLetterReasonView::Malformed(error);
                (
                    self.ticked(line.venue, recv_ts).set_aside(
                        DeadLetterView {
                            venue: line.venue,
                            event_id: Seq::empty(),
                            reason,
                            text: Some(line.text),
                        },
                    ),
                    IngestOutcomeView::DeadLettered(reason),
                )
            },
            Ok(event) => self.ticked(event.venue(), recv_ts).received(
                recv_ts,
                event,
                canonical_of(lookup, event),
                line.text,
            ),
        }
    }
}

/// The contents of dead letters.
pub open spec fn letter_views(letters: Seq<DeadLetter>) -> Seq<DeadLetterView> {
    letters.map_values(|letter: DeadLetter| letter@)
}

/// The contents of alerts.
pub open spec fn alert_views(alerts: Seq<Alert>) -> Seq<AlertView> {
    alerts.map_values(|alert: Alert| alert@)
}

/// Turns the arrivals of all venues into one tape.
pub struct Ingester<S> {
    instruments: S,
    sequencer: Sequencer,
    hl_seen: StringHashMap<Seen>,
    pm_seen: StringHashMap<Seen>,
    hl_max_seq: Option<u64>,
    pm_max_seq: Option<u64>,
    dead_letters: Vec<DeadLetter>,
    alerts: Vec<Alert>,
    stats: IngestStats,
}

impl<S> View for Ingester<S> {
    type V = IngesterView;

    closed spec fn view(&self) -> IngesterView {
        IngesterView {
            sequencer: self.sequencer@,
            seen: seen_map(self.hl_seen@, self.pm_seen@),
            dead_letters: letter_views(self.dead_letters@),
            alerts: alert_views(self.alerts@),
            stats: self.stats@,
        }
    }
}

spec fn seen_map(hl: Map<Seq<char>, Seen>, pm: Map<Seq<char>, Seen>) -> Map<
    (Venue, Seq<char>),
    SeenView,
> {
    Map::new(
        |key: (Venue, Seq<char>)|
            match key.0 {
                Venue::Hl => hl.contains_key(key.1),
                Venue::Pm => pm.contains_key(key.1),
            },
        |key: (Venue, Seq<char>)|
            match key.0 {
                Venue::Hl => hl[key.1]@,
                Venue::Pm => pm[key.1]@,
            },
    )
}

impl<S: InstrumentSource> Ingester<S> {
    /// Whether the highest sequence numbers are those of the lanes.
    pub closed spec fn wf(&self) -> bool {
        &&& self.hl_max_seq == self.sequencer@.hl.last_seq
        &&& self.pm_max_seq == self.sequencer@.pm.last_seq
    }

    /// The instruments this ingester knows.
    pub closed spec fn source(&self) -> S {
        self.instruments
    }

    /// Where this ingester looks instruments up.
    pub open spec fn lookup(&self) -> Lookup {
        |venue: Venue, symbol: Seq<char>| self.source().listed(venue, symbol)
    }

    /// An ingester without arrivals.
    pub fn new(instruments: S) -> (ingester: Self)
        ensures
            ingester.wf(),
            ingester.source() == instruments,
            ingester@ == IngesterView::fresh(),
    {
        let ingester = Ingester {
            instruments,
            sequencer: Sequencer::new(),
            hl_seen: StringHashMap::new(),
            pm_seen: StringHashMap::new(),
            hl_max_seq: None,
            pm_max_seq: None,
            dead_letters: Vec::new(),
            alerts: Vec::new(),
            stats: IngestStats::default(),
        };
        assert(ingester@ =~= IngesterView::fresh());
        ingester
    }

    /// Takes a line that arrived at `recv_ts`. The caller stamps it; everything after the stamp
    /// is a function of the stamped arrivals.
    pub fn fill_caught(&mut self, recv_ts: u64, line: RawLine) -> (outcome: IngestOutcome)
        requires
            old(self).wf(),
            old(self)@.caught(old(self).lookup(), recv_ts, line@).0.stats.fits(),
        ensures
            final(self).wf(),
            final(self).source() == old(self).source(),
            (final(self)@, outcome@) == old(self)@.caught(old(self).lookup(), recv_ts, line@),
    {
        let RawLine { venue: line_venue, text, parsed } = line;
        let event = match parsed {
            Ok(event) => event,
            Err(error) => {
                self.sequencer.tick(line_venue, recv_ts);
                let reason = DeadLetterReason::Malformed(error);
                return self.dead_letter(line_venue, String::new(), reason, text);
            },
        };
        let venue = event.venue();
        self.sequencer.tick(venue, recv_ts);
        let event_id = event.event_id().to_string();
        let fill = event.clone().canonicalize(&self.instruments);
        match self.identify(&event, &fill) {
            Identity::Retransmit => {
                self.stats.duplicates = self.stats.duplicates + 1;
                IngestOutcome::Duplicate
            },
            Identity::Conflict => {
                self.alerts.push(
                    Alert {
                        venue,
                        event_id: event_id.clone(),
                        kind: AlertKind::ByzantineDuplicate,
                    },
                );
                self.stats.byzantine = self.stats.byzantine + 1;
                self.dead_letter(venue, event_id, DeadLetterReason::Byzantine, text)
            },
            Identity::New => match fill {
                Err(reason) => {
                    self.remember(event, None);
                    self.dead_letter(venue, event_id, DeadLetterReason::Rejected(reason), text)
                },
                Ok(fill) => match self.sequencer.push(venue, recv_ts, fill.clone()) {
                    Ok(()) => {
                        self.count_gap(venue, fill.seq);
                        self.remember(event, Some(fill));
                        self.stats.accepted = self.stats.accepted + 1;
                        IngestOutcome::Accepted
                    },
                    Err(error) => {
                        self.remember(event, Some(fill));
                        self.stats.out_of_order = self.stats.out_of_order + 1;
                        self.dead_letter(venue, event_id, DeadLetterReason::OutOfOrder(error), text)
                    },
                },
            },
        }
    }

    /// How an event stands to the first copy under its name.
    fn identify(&self, event: &RawEvent, fill: &Result<Fill, RejectReason>) -> (identity: Identity)
        ensures
            identity == self@.identity(
                event@,
                match fill {
                    Ok(fill) => Ok(fill@),
                    Err(reason) => Err(reason@),
                },
            ),
    {
        let first = match event.venue() {
            Venue::Hl => self.hl_seen.get(event.event_id()),
            Venue::Pm => self.pm_seen.get(event.event_id()),
        };
        match first {
            None => Identity::New,
            Some(first) => {
                let same = match (&first.fill, fill) {
                    (Some(first_fill), Ok(fill)) => *first_fill == *fill,
                    _ => first.event == *event,
                };
                if same {
                    Identity::Retransmit
                } else {
                    Identity::Conflict
                }
            },
        }
    }

    /// Remembers the first copy under a name.
    fn remember(&mut self, event: RawEvent, fill: Option<Fill>)
        ensures
            final(self)@ == old(self)@.remembering(
                event@,
                match fill {
                    Some(fill) => Some(fill@),
                    None => None,
                },
            ),
            final(self).wf() == old(self).wf(),
            final(self).source() == old(self).source(),
    {
        let event_id = event.event_id().to_string();
        let seen = Seen { event, fill };
        match seen.event.venue() {
            Venue::Hl => self.hl_seen.insert(event_id, seen),
            Venue::Pm => self.pm_seen.insert(event_id, seen),
        }
        assert(self@.seen =~= old(self)@.seen.insert((event@.venue(), event@.event_id()), seen@));
    }

    /// Counts the sequence numbers that a venue skipped up to `seq`, the last one it pushed.
    fn count_gap(&mut self, venue: Venue, seq: u64)
        requires
            old(self)@.sequencer.lane(venue).last_seq == Some(seq),
            match venue {
                Venue::Hl => old(self).pm_max_seq == old(self).sequencer@.pm.last_seq,
                Venue::Pm => old(self).hl_max_seq == old(self).sequencer@.hl.last_seq,
            },
            match old(self).max_seq(venue) {
                Some(last) => last < seq && old(self)@.stats.gaps + seq - last - 1 <= usize::MAX,
                None => true,
            },
        ensures
            final(self).wf(),
            final(self).source() == old(self).source(),
            final(self)@ == (IngesterView {
                stats: IngestStatsView {
                    gaps: old(self)@.stats.gaps + match old(self).max_seq(venue) {
                        Some(last) => seq - last - 1,
                        None => 0,
                    },
                    ..old(self)@.stats
                },
                ..old(self)@
            }),
    {
        let last = match venue {
            Venue::Hl => self.hl_max_seq,
            Venue::Pm => self.pm_max_seq,
        };
        if let Some(last) = last {
            self.stats.gaps = self.stats.gaps + (seq - last - 1) as usize;
        }
        match venue {
            Venue::Hl => {
                self.hl_max_seq = Some(seq);
            },
            Venue::Pm => {
                self.pm_max_seq = Some(seq);
            },
        }
    }

    spec fn max_seq(&self, venue: Venue) -> Option<u64> {
        match venue {
            Venue::Hl => self.hl_max_seq,
            Venue::Pm => self.pm_max_seq,
        }
    }

    /// Sets an arrival aside.
    fn dead_letter(
        &mut self,
        venue: Venue,
        event_id: String,
        reason: DeadLetterReason,
        text: String,
    ) -> (outcome: IngestOutcome)
        requires
            old(self)@.stats.dead_lettered < usize::MAX,
        ensures
            final(self)@ == old(self)@.set_aside(
                DeadLetterView {
                    venue,
                    event_id: event_id@,
                    reason: reason@,
                    text: Some(text@),
                },
            ),
            final(self).wf() == old(self).wf(),
            final(self).source() == old(self).source(),
            outcome@ == IngestOutcomeView::DeadLettered(reason@),
    {
        self.stats.dead_lettered = self.stats.dead_lettered + 1;
        let outcome = IngestOutcome::DeadLettered(reason.clone());
        let letter = DeadLetter { venue, event_id, reason, text: Some(text) };
        self.dead_letters.push(letter);
        assert(self@.dead_letters =~= old(self)@.dead_letters.push(letter@));
        outcome
    }

    /// Lets an idle venue reach `now_ts`, so that it never stalls the other lanes.
    pub fn tick(&mut self, venue: Venue, now_ts: u64)
        requires
            old(self).wf(),
        ensures
            final(self).wf(),
            final(self).source() == old(self).source(),
            final(self)@ == old(self)@.ticked(venue, now_ts),
    {
        self.sequencer.tick(venue, now_ts);
    }

    /// What the frontiers prove safe, in global order.
    pub fn drain_ready(&mut self) -> (tape: Vec<SequencedFill>)
        requires
            old(self).wf(),
            old(self)@.sequencer.can_drain(),
        ensures
            final(self).wf(),
            final(self).source() == old(self).source(),
            tape_view(tape@) == old(self)@.sequencer.drained(true),
            final(self)@ == (IngesterView {
                sequencer: old(self)@.sequencer.after_drain(true),
                ..old(self)@
            }),
    {
        proof {
            lemma_drained_len(self.sequencer@, true);
        }
        self.sequencer.drain_ready()
    }

    /// Ends the stream: gives everything that is waiting, in global order.
    pub fn flush(&mut self) -> (tape: Vec<SequencedFill>)
        requires
            old(self).wf(),
            old(self)@.sequencer.can_flush(),
        ensures
            final(self).wf(),
            final(self).source() == old(self).source(),
            tape_view(tape@) == old(self)@.sequencer.ended().drained(false),
            final(self)@ == (IngesterView {
                sequencer: old(self)@.sequencer.ended().after_drain(false),
                ..old(self)@
            }),
    {
        proof {
            lemma_drained_len(self.sequencer@.ended(), false);
        }
        self.sequencer.flush()
    }

    /// The sequencer behind this ingester.
    pub fn sequencer(&self) -> (sequencer: &Sequencer)
        ensures
            sequencer@ == self@.sequencer,
    {
        &self.sequencer
    }

    /// The arrivals that were set aside, in order.
    pub fn dead_letters(&self) -> (letters: &[DeadLetter])
        ensures
            letter_views(letters@) == self@.dead_letters,
    {
        self.dead_letters.as_slice()
    }

    /// The alerts that were raised, in order.
    pub fn alerts(&self) -> (alerts: &[Alert])
        ensures
            alert_views(alerts@) == self@.alerts,
    {
        self.alerts.as_slice()
    }

    /// How many arrivals went which way.
    pub fn stats(&self) -> (stats: IngestStats)
        ensures
            stats@ == self@.stats,
    {
        self.stats
    }
}

} // verus!
