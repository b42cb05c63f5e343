//! What holds of every run of the ingester, whatever arrives.

use vstd::prelude::*;

use crate::boundary::{same_number, HlEventView, PmEventView};
use crate::canonical::{FillView, RejectReasonView};
use crate::convert::{event_symbol, hl_fill, law_fill_repeats_its_event, pm_fill};
use crate::ingest::{
    AlertKind, AlertView, DeadLetterReasonView, DeadLetterView, IngestOutcomeView,
};
use crate::ingester::{canonical_of, Identity, Ingester, IngesterView, Lookup, SeenView};
use crate::instrument::{InstrumentSource, Venue};
use crate::sequencer::{lemma_drained_len, Entry, SequencedFillView, SequencerError};
use crate::stream::{same_event, RawEventView, RawLineView};
use crate::tape::{law_pushes_are_in_lane_order, law_tape_is_deterministic, Call, Run};

verus! {

/// The venue that an arrival is of: that of its event or, where it holds none, that of its label.
pub open spec fn arrival_venue(line: RawLineView) -> Venue {
    match line.parsed {
        Ok(event) => event.venue(),
        Err(_) => line.venue,
    }
}

/// Every arrival is accepted, a duplicate or set aside, and is counted as just that. What is set
/// aside is kept with its text.
pub proof fn law_every_arrival_is_accounted_for(
    state: IngesterView,
    lookup: Lookup,
    recv_ts: u64,
    line: RawLineView,
)
    ensures
        ({
            let (next, outcome) = state.caught(lookup, recv_ts, line);
            match outcome {
                IngestOutcomeView::Accepted => {
                    &&& next.stats.accepted == state.stats.accepted + 1
                    &&& next.stats.duplicates == state.stats.duplicates
                    &&& next.stats.dead_lettered == state.stats.dead_lettered
                    &&& next.sequencer.depth() == state.sequencer.depth() + 1
                    &&& next.dead_letters == state.dead_letters
                },
                IngestOutcomeView::Duplicate => {
                    &&& next.stats.accepted == state.stats.accepted
                    &&& next.stats.duplicates == state.stats.duplicates + 1
                    &&& next.stats.dead_lettered == state.stats.dead_lettered
                    &&& next.sequencer.depth() == state.sequencer.depth()
                    &&& next.dead_letters == state.dead_letters
                },
                IngestOutcomeView::DeadLettered(reason) => {
                    &&& next.stats.accepted == state.stats.accepted
                    &&& next.stats.duplicates == state.stats.duplicates
                    &&& next.stats.dead_lettered == state.stats.dead_lettered + 1
                    &&& next.sequencer.depth() == state.sequencer.depth()
                    &&& next.dead_letters.len() == state.dead_letters.len() + 1
                    &&& next.dead_letters.drop_last() == state.dead_letters
                    &&& next.dead_letters.last().venue == arrival_venue(line)
                    &&& next.dead_letters.last().reason == reason
                    &&& next.dead_letters.last().text == Some(line.text)
                },
            }
        }),
{
    let next = state.caught(lookup, recv_ts, line).0;
    if next.dead_letters.len() > state.dead_letters.len() {
        assert(next.dead_letters.drop_last() =~= state.dead_letters);
    }
}

/// An arrival moves its venue's frontier up to its stamp, whatever becomes of it, and leaves the
/// other venue's lane alone.
pub proof fn law_every_arrival_moves_its_venue(
    state: IngesterView,
    lookup: Lookup,
    recv_ts: u64,
    line: RawLineView,
    other: Venue,
)
    requires
        other != arrival_venue(line),
    ensures
        state.caught(lookup, recv_ts, line).0.sequencer.lane(arrival_venue(line)).frontier
            >= recv_ts,
        state.caught(lookup, recv_ts, line).0.sequencer.lane(arrival_venue(line)).frontier
            >= state.sequencer.lane(arrival_venue(line)).frontier,
        state.caught(lookup, recv_ts, line).0.sequencer.lane(other) == state.sequencer.lane(other),
{
}

/// The first copy under a name stays the one that later copies are held against.
pub proof fn law_first_copy_is_canonical(
    state: IngesterView,
    lookup: Lookup,
    recv_ts: u64,
    line: RawLineView,
    key: (Venue, Seq<char>),
)
    requires
        state.seen.contains_key(key),
    ensures
        state.caught(lookup, recv_ts, line).0.seen.contains_key(key),
        state.caught(lookup, recv_ts, line).0.seen[key] == state.seen[key],
{
}

/// An event that contradicts the first copy under its name raises an alert and is set aside,
/// each time it arrives, whether or not it has a canonical fill; nothing reaches a lane.
pub proof fn law_conflict_is_byzantine(
    state: IngesterView,
    lookup: Lookup,
    recv_ts: u64,
    line: RawLineView,
    event: RawEventView,
)
    requires
        line.parsed == Ok::<RawEventView, Seq<char>>(event),
        state.identity(event, canonical_of(lookup, event)) == Identity::Conflict,
    ensures
        ({
            let (next, outcome) = state.caught(lookup, recv_ts, line);
            &&& outcome == IngestOutcomeView::DeadLettered(DeadLetterReasonView::Byzantine)
            &&& next.alerts.len() == state.alerts.len() + 1
            &&& next.alerts.last().venue == event.venue()
            &&& next.alerts.last().event_id == event.event_id()
            &&& next.sequencer == state.sequencer.ticked(event.venue(), recv_ts)
            &&& next.seen == state.seen
        }),
{
}

/// A second copy of an event that was accepted, rejected or out of order is a duplicate: it is
/// counted as one and changes nothing else but its venue's frontier. An event without a fill has
/// to say the same as itself, which one with a price that is not a number does not.
pub proof fn law_retransmit_is_a_duplicate(
    state: IngesterView,
    lookup: Lookup,
    recv_ts: u64,
    line: RawLineView,
    later: u64,
    copy: RawLineView,
    event: RawEventView,
)
    requires
        line.parsed == Ok::<RawEventView, Seq<char>>(event),
        copy.parsed == Ok::<RawEventView, Seq<char>>(event),
        canonical_of(lookup, event) is Ok || same_event(event, event),
        state.caught(lookup, recv_ts, line).1 != IngestOutcomeView::DeadLettered(
            DeadLetterReasonView::Byzantine,
        ),
    ensures
        ({
            let first = state.caught(lookup, recv_ts, line).0;
            let (second, outcome) = first.caught(lookup, later, copy);
            &&& outcome == IngestOutcomeView::Duplicate
            &&& second.stats.duplicates == first.stats.duplicates + 1
            &&& second == (IngesterView {
                sequencer: first.sequencer.ticked(event.venue(), later),
                stats: second.stats,
                ..first
            })
        }),
{
}

/// A call of one of the ingester's methods.
pub enum Action {
    Catch { recv_ts: u64, line: RawLineView },
    Tick { venue: Venue, now_ts: u64 },
    Drain,
    Flush,
}

/// An ingester with its history: the tape that it wrote and, by venue, the fills it accepted.
pub struct IngestRun {
    pub state: IngesterView,
    pub tape: Seq<SequencedFillView>,
    pub hl: Seq<Entry>,
    pub pm: Seq<Entry>,
}

/// The fill that an arrival is accepted with, if it is.
pub open spec fn accepted_fill(
    state: IngesterView,
    lookup: Lookup,
    recv_ts: u64,
    line: RawLineView,
) -> Option<Entry> {
    match line.parsed {
        Ok(event) => if state.caught(lookup, recv_ts, line).1 == IngestOutcomeView::Accepted {
            Some((recv_ts, canonical_of(lookup, event)->Ok_0))
        } else {
            None
        },
        Err(_) => None,
    }
}

impl IngestRun {
    /// Before the first call.
    pub open spec fn fresh() -> IngestRun {
        IngestRun {
            state: IngesterView::fresh(),
            tape: Seq::empty(),
            hl: Seq::empty(),
            pm: Seq::empty(),
        }
    }

    /// After one more call.
    pub open spec fn step(self, lookup: Lookup, action: Action) -> IngestRun {
        match action {
            Action::Catch { recv_ts, line } => {
                let entry = accepted_fill(self.state, lookup, recv_ts, line);
                IngestRun {
                    state: self.state.caught(lookup, recv_ts, line).0,
                    hl: if entry is Some && arrival_venue(line) == Venue::Hl {
                        self.hl.push(entry->0)
                    } else {
                        self.hl
                    },
                    pm: if entry is Some && arrival_venue(line) == Venue::Pm {
                        self.pm.push(entry->0)
                    } else {
                        self.pm
                    },
                    ..self
                }
            },
            Action::Tick { venue, now_ts } => IngestRun {
                state: self.state.ticked(venue, now_ts),
                ..self
            },
            Action::Drain => IngestRun {
                state: IngesterView {
                    sequencer: self.state.sequencer.after_drain(true),
                    ..self.state
                },
                tape: self.tape + self.state.sequencer.drained(true),
                ..self
            },
            Action::Flush => IngestRun {
                state: IngesterView {
                    sequencer: self.state.sequencer.ended().after_drain(false),
                    ..self.state
                },
                tape: self.tape + self.state.sequencer.ended().drained(false),
                ..self
            },
        }
    }

    /// A fresh ingester after any calls at all.
    pub open spec fn of(lookup: Lookup, actions: Seq<Action>) -> IngestRun
        decreases actions.len(),
    {
        if actions.len() == 0 {
            IngestRun::fresh()
        } else {
            IngestRun::of(lookup, actions.drop_last()).step(lookup, actions.last())
        }
    }
}

/// What the ingester asks of its sequencer when it is called.
pub open spec fn calls_for(state: IngesterView, lookup: Lookup, action: Action) -> Seq<Call> {
    match action {
        Action::Catch { recv_ts, line } => {
            let venue = arrival_venue(line);
            let tick = Call::Tick { venue, now_ts: recv_ts };
            match line.parsed {
                Ok(event) => match canonical_of(lookup, event) {
                    Ok(fill) => if state.identity(event, Ok(fill)) == Identity::New {
                        seq![tick, Call::Push { venue, recv_ts, fill }]
                    } else {
                        seq![tick]
                    },
                    Err(_) => seq![tick],
                },
                Err(_) => seq![tick],
            }
        },
        Action::Tick { venue, now_ts } => seq![Call::Tick { venue, now_ts }],
        Action::Drain => seq![Call::Drain],
        Action::Flush => seq![Call::Flush],
    }
}

/// What the ingester asks of its sequencer over all its calls.
pub open spec fn sequencer_calls(lookup: Lookup, actions: Seq<Action>) -> Seq<Call>
    decreases actions.len(),
{
    if actions.len() == 0 {
        Seq::empty()
    } else {
        sequencer_calls(lookup, actions.drop_last()) + calls_for(
            IngestRun::of(lookup, actions.drop_last()).state,
            lookup,
            actions.last(),
        )
    }
}

/// The ingester's tape is the tape of its sequencer: what holds of every tape that a sequencer
/// writes holds of this one.
pub proof fn law_ingester_drives_a_sequencer(lookup: Lookup, actions: Seq<Action>)
    ensures
        Run::of(sequencer_calls(lookup, actions)) == (Run {
            state: IngestRun::of(lookup, actions).state.sequencer,
            tape: IngestRun::of(lookup, actions).tape,
            hl: IngestRun::of(lookup, actions).hl,
            pm: IngestRun::of(lookup, actions).pm,
        }),
    decreases actions.len(),
{
    if actions.len() > 0 {
        let before = IngestRun::of(lookup, actions.drop_last());
        let earlier = sequencer_calls(lookup, actions.drop_last());
        let new = calls_for(before.state, lookup, actions.last());
        law_ingester_drives_a_sequencer(lookup, actions.drop_last());
        let one = earlier.push(new[0]);
        assert(one.drop_last() =~= earlier);
        assert(Run::of(one) == Run::of(earlier).step(new[0]));
        if new.len() == 1 {
            assert(earlier + new =~= one);
        } else {
            assert((earlier + new).drop_last() =~= one);
            assert(Run::of(earlier + new) == Run::of(one).step(new[1]));
            match actions.last() {
                Action::Catch { line, .. } => {
                    let event = line.parsed->Ok_0;
                    let symbol = event_symbol(event);
                    law_fill_repeats_its_event(event, lookup(symbol.0, symbol.1));
                },
                _ => {},
            }
        }
    }
}

/// How many arrivals there are among calls.
pub open spec fn catches(actions: Seq<Action>) -> int
    decreases actions.len(),
{
    if actions.len() == 0 {
        0
    } else {
        catches(actions.drop_last()) + if actions.last() is Catch {
            1int
        } else {
            0
        }
    }
}

/// The books balance at any time: every arrival is in exactly one of three counters; what was
/// accepted is on the tape or waiting; and there is a letter and an alert for each that is
/// counted.
pub proof fn law_books_balance(lookup: Lookup, actions: Seq<Action>)
    ensures
        ({
            let run = IngestRun::of(lookup, actions);
            let stats = run.state.stats;
            &&& stats.accepted + stats.duplicates + stats.dead_lettered == catches(actions)
            &&& stats.accepted == run.tape.len() + run.state.sequencer.depth()
            &&& stats.accepted == run.hl.len() + run.pm.len()
            &&& stats.dead_lettered == run.state.dead_letters.len()
            &&& stats.byzantine == run.state.alerts.len()
            &&& stats.byzantine + stats.out_of_order <= stats.dead_lettered
        }),
    decreases actions.len(),
{
    if actions.len() > 0 {
        let before = IngestRun::of(lookup, actions.drop_last());
        law_books_balance(lookup, actions.drop_last());
        lemma_drained_len(before.state.sequencer, true);
        lemma_drained_len(before.state.sequencer.ended(), false);
        match actions.last() {
            Action::Catch { recv_ts, line } => {
                law_every_arrival_is_accounted_for(before.state, lookup, recv_ts, line);
            },
            _ => {},
        }
    }
}

/// How many sequence numbers lie between the first and the last entry and belong to none.
pub open spec fn numbers_skipped(entries: Seq<Entry>) -> int {
    if entries.len() == 0 {
        0
    } else {
        entries.last().1.seq - entries.first().1.seq + 1 - entries.len()
    }
}

/// The last sequence number of a lane is that of the last entry.
spec fn ends_with(entries: Seq<Entry>, last_seq: Option<u64>) -> bool {
    if entries.len() == 0 {
        last_seq is None
    } else {
        last_seq == Some(entries.last().1.seq)
    }
}

proof fn lemma_gaps(lookup: Lookup, actions: Seq<Action>)
    ensures
        ({
            let run = IngestRun::of(lookup, actions);
            &&& run.state.stats.gaps == numbers_skipped(run.hl) + numbers_skipped(run.pm)
            &&& ends_with(run.hl, run.state.sequencer.hl.last_seq)
            &&& ends_with(run.pm, run.state.sequencer.pm.last_seq)
        }),
    decreases actions.len(),
{
    if actions.len() > 0 {
        let before = IngestRun::of(lookup, actions.drop_last());
        lemma_gaps(lookup, actions.drop_last());
        lemma_drained_len(before.state.sequencer, true);
        lemma_drained_len(before.state.sequencer.ended(), false);
        match actions.last() {
            Action::Catch { recv_ts, line } => {
                if accepted_fill(before.state, lookup, recv_ts, line) is Some {
                    let event = line.parsed->Ok_0;
                    let symbol = event_symbol(event);
                    law_fill_repeats_its_event(event, lookup(symbol.0, symbol.1));
                }
            },
            _ => {},
        }
    }
}

/// Gaps are tolerated and counted: the counter is the number of sequence numbers that each venue
/// skipped between its first accepted fill and its last.
pub proof fn law_gaps_are_counted(lookup: Lookup, actions: Seq<Action>)
    ensures
        IngestRun::of(lookup, actions).state.stats.gaps == numbers_skipped(
            IngestRun::of(lookup, actions).hl,
        ) + numbers_skipped(IngestRun::of(lookup, actions).pm),
{
    lemma_gaps(lookup, actions);
}

/// Whether a call is an arrival or a tick of a venue.
pub open spec fn concerns(venue: Venue) -> spec_fn(Action) -> bool {
    |action: Action|
        match action {
            Action::Catch { line, .. } => arrival_venue(line) == venue,
            Action::Tick { venue: ticked, .. } => ticked == venue,
            _ => false,
        }
}

/// The fills of a venue that were accepted.
pub open spec fn accepted_of(run: IngestRun, venue: Venue) -> Seq<Entry> {
    match venue {
        Venue::Hl => run.hl,
        Venue::Pm => run.pm,
    }
}

/// Whether two runs agree on all that concerns a venue but for what is still waiting.
spec fn agree_on(venue: Venue, a: IngestRun, b: IngestRun) -> bool {
    &&& !a.state.sequencer.sealed && !b.state.sequencer.sealed
    &&& a.state.sequencer.lane(venue).frontier == b.state.sequencer.lane(venue).frontier
    &&& a.state.sequencer.lane(venue).last_seq == b.state.sequencer.lane(venue).last_seq
    &&& accepted_of(a, venue) == accepted_of(b, venue)
    &&& forall|name: Seq<char>|
        #![trigger a.state.seen.contains_key((venue, name))]
        #![trigger b.state.seen.contains_key((venue, name))]
        a.state.seen.contains_key((venue, name)) == b.state.seen.contains_key((venue, name))
    &&& forall|name: Seq<char>|
        #![trigger a.state.seen[(venue, name)]]
        #![trigger b.state.seen[(venue, name)]]
        a.state.seen.contains_key((venue, name)) ==> a.state.seen[(venue, name)]
            == b.state.seen[(venue, name)]
}

/// A call that concerns a venue keeps two runs in agreement on it.
proof fn lemma_agreement_lasts(
    venue: Venue,
    lookup: Lookup,
    a: IngestRun,
    b: IngestRun,
    action: Action,
)
    requires
        agree_on(venue, a, b),
        concerns(venue)(action),
    ensures
        agree_on(venue, a.step(lookup, action), b.step(lookup, action)),
{
    match action {
        Action::Catch { recv_ts, line } => {
            if line.parsed is Ok {
                let event = line.parsed->Ok_0;
                let name = event.event_id();
                let fill = canonical_of(lookup, event);
                assert(a.state.seen.contains_key((venue, name)) == b.state.seen.contains_key(
                    (venue, name),
                ));
                assert(a.state.identity(event, fill) == b.state.identity(event, fill));
            }
        },
        _ => {},
    }
}

/// A call that does not concern a venue, and does not end the stream, leaves a run in agreement
/// with what it was before.
proof fn lemma_agreement_is_local(
    venue: Venue,
    lookup: Lookup,
    a: IngestRun,
    b: IngestRun,
    action: Action,
)
    requires
        agree_on(venue, a, b),
        !concerns(venue)(action),
        !(action is Flush),
    ensures
        agree_on(venue, a.step(lookup, action), b),
{
    lemma_drained_len(a.state.sequencer, true);
}

proof fn lemma_only_own_calls_matter(venue: Venue, lookup: Lookup, actions: Seq<Action>)
    requires
        forall|i: int| 0 <= i < actions.len() ==> !(#[trigger] actions[i] is Flush),
    ensures
        agree_on(
            venue,
            IngestRun::of(lookup, actions),
            IngestRun::of(lookup, actions.filter(concerns(venue))),
        ),
    decreases actions.len(),
{
    reveal(Seq::filter);
    if actions.len() > 0 {
        let shorter = actions.drop_last();
        let action = actions.last();
        lemma_only_own_calls_matter(venue, lookup, shorter);
        let a = IngestRun::of(lookup, shorter);
        let own = shorter.filter(concerns(venue));
        let b = IngestRun::of(lookup, own);
        assert(!(actions[actions.len() - 1] is Flush));
        if concerns(venue)(action) {
            lemma_agreement_lasts(venue, lookup, a, b, action);
            assert(own.push(action).drop_last() =~= own);
        } else {
            lemma_agreement_is_local(venue, lookup, a, b, action);
        }
    }
}

/// The venues do not disturb each other: what is accepted of a venue is what would be accepted
/// of it if it were alone.
pub proof fn law_venues_are_independent(venue: Venue, lookup: Lookup, actions: Seq<Action>)
    requires
        forall|i: int| 0 <= i < actions.len() ==> !(#[trigger] actions[i] is Flush),
    ensures
        accepted_of(IngestRun::of(lookup, actions), venue) == accepted_of(
            IngestRun::of(lookup, actions.filter(concerns(venue))),
            venue,
        ),
{
    lemma_only_own_calls_matter(venue, lookup, actions);
}

/// The tape is a function of what each venue sent and when it was stamped: however the arrivals
/// and ticks of the venues interleave, and however often the tape is drained, the same stamped
/// arrivals and ticks of each venue give the same tape.
pub proof fn law_tape_is_a_function_of_arrivals(
    lookup: Lookup,
    actions: Seq<Action>,
    others: Seq<Action>,
)
    requires
        forall|i: int| 0 <= i < actions.len() ==> !(#[trigger] actions[i] is Flush),
        forall|i: int| 0 <= i < others.len() ==> !(#[trigger] others[i] is Flush),
        actions.filter(concerns(Venue::Hl)) == others.filter(concerns(Venue::Hl)),
        actions.filter(concerns(Venue::Pm)) == others.filter(concerns(Venue::Pm)),
    ensures
        IngestRun::of(lookup, actions).step(lookup, Action::Flush).tape == IngestRun::of(
            lookup,
            others,
        ).step(lookup, Action::Flush).tape,
{
    lemma_only_own_calls_matter(Venue::Hl, lookup, actions);
    lemma_only_own_calls_matter(Venue::Pm, lookup, actions);
    lemma_only_own_calls_matter(Venue::Hl, lookup, others);
    lemma_only_own_calls_matter(Venue::Pm, lookup, others);
    law_ingester_drives_a_sequencer(lookup, actions);
    law_ingester_drives_a_sequencer(lookup, others);
    law_tape_is_deterministic(
        sequencer_calls(lookup, actions),
        sequencer_calls(lookup, others),
    );
}

/// The stamp of an arrival or a tick.
pub open spec fn stamp_of(action: Action) -> u64 {
    match action {
        Action::Catch { recv_ts, .. } => recv_ts,
        Action::Tick { now_ts, .. } => now_ts,
        _ => 0,
    }
}

/// Whether no arrival of a venue is stamped before an earlier arrival or tick of it.
pub open spec fn never_goes_back(venue: Venue, actions: Seq<Action>) -> bool {
    forall|i: int, j: int|
        0 <= i < j < actions.len() && concerns(venue)(#[trigger] actions[i]) && concerns(venue)(
            #[trigger] actions[j],
        ) && actions[j] is Catch ==> stamp_of(actions[i]) <= stamp_of(actions[j])
}

/// The lines of a venue among calls, in order and without their stamps.
pub open spec fn lines_of(venue: Venue, actions: Seq<Action>) -> Seq<RawLineView>
    decreases actions.len(),
{
    if actions.len() == 0 {
        Seq::empty()
    } else {
        let earlier = lines_of(venue, actions.drop_last());
        match actions.last() {
            Action::Catch { line, .. } => if arrival_venue(line) == venue {
                earlier.push(line)
            } else {
                earlier
            },
            _ => earlier,
        }
    }
}

/// The fills of stamped entries.
pub open spec fn entry_fills(entries: Seq<Entry>) -> Seq<FillView> {
    entries.map_values(|entry: Entry| entry.1)
}

/// Whether no call ends the stream.
pub open spec fn no_flush(actions: Seq<Action>) -> bool {
    forall|i: int| 0 <= i < actions.len() ==> !(#[trigger] actions[i] is Flush)
}

/// A venue's frontier is no further than its latest arrival or tick.
proof fn lemma_frontier_is_a_stamp(
    venue: Venue,
    lookup: Lookup,
    actions: Seq<Action>,
    limit: u64,
)
    requires
        forall|i: int|
            0 <= i < actions.len() && concerns(venue)(#[trigger] actions[i]) ==> stamp_of(
                actions[i],
            ) <= limit,
    ensures
        IngestRun::of(lookup, actions).state.sequencer.lane(venue).frontier <= limit,
    decreases actions.len(),
{
    if actions.len() > 0 {
        let shorter = actions.drop_last();
        let before = IngestRun::of(lookup, shorter);
        let action = actions[actions.len() - 1];
        assert forall|i: int| 0 <= i < shorter.len() && concerns(venue)(
            #[trigger] shorter[i],
        ) implies stamp_of(shorter[i]) <= limit by {
            assert(shorter[i] == actions[i]);
        }
        lemma_frontier_is_a_stamp(venue, lookup, shorter, limit);
        lemma_drained_len(before.state.sequencer, true);
        lemma_drained_len(before.state.sequencer.ended(), false);
        match action {
            Action::Catch { recv_ts, line } => {
                if arrival_venue(line) == venue {
                    assert(concerns(venue)(action));
                    assert(recv_ts <= limit);
                }
            },
            Action::Tick { venue: ticked, now_ts } => {
                if ticked == venue {
                    assert(concerns(venue)(action));
                    assert(now_ts <= limit);
                }
            },
            _ => {},
        }
    }
}

/// Whether a run agrees with what a venue's lines alone have come to: the first copies, the last
/// sequence number and the fills accepted are the same.
spec fn comes_to(venue: Venue, run: IngestRun, lines_run: IngestRun) -> bool {
    &&& !run.state.sequencer.sealed && !lines_run.state.sequencer.sealed
    &&& run.state.sequencer.lane(venue).last_seq == lines_run.state.sequencer.lane(venue).last_seq
    &&& entry_fills(accepted_of(run, venue)) == entry_fills(accepted_of(lines_run, venue))
    &&& forall|name: Seq<char>|
        #![trigger run.state.seen.contains_key((venue, name))]
        #![trigger lines_run.state.seen.contains_key((venue, name))]
        run.state.seen.contains_key((venue, name)) == lines_run.state.seen.contains_key(
            (venue, name),
        )
    &&& forall|name: Seq<char>|
        #![trigger run.state.seen[(venue, name)]]
        #![trigger lines_run.state.seen[(venue, name)]]
        run.state.seen.contains_key((venue, name)) ==> run.state.seen[(venue, name)]
            == lines_run.state.seen[(venue, name)]
}

/// A line that is stamped at or past the frontier, on both sides, is treated alike.
proof fn lemma_line_is_treated_alike(
    venue: Venue,
    lookup: Lookup,
    a: IngestRun,
    b: IngestRun,
    line: RawLineView,
    stamp: u64,
    other: u64,
)
    requires
        comes_to(venue, a, b),
        arrival_venue(line) == venue,
        a.state.sequencer.lane(venue).frontier <= stamp,
        b.state.sequencer.lane(venue).frontier <= other,
    ensures
        comes_to(
            venue,
            a.step(lookup, Action::Catch { recv_ts: stamp, line }),
            b.step(lookup, Action::Catch { recv_ts: other, line }),
        ),
{
    if line.parsed is Ok {
        let event = line.parsed->Ok_0;
        let name = event.event_id();
        let fill = canonical_of(lookup, event);
        assert(a.state.seen.contains_key((venue, name)) == b.state.seen.contains_key(
            (venue, name),
        ));
        assert(a.state.identity(event, fill) == b.state.identity(event, fill));
        if fill is Ok {
            let symbol = event_symbol(event);
            law_fill_repeats_its_event(event, lookup(symbol.0, symbol.1));
            let mine = accepted_of(a, venue);
            let theirs = accepted_of(b, venue);
            assert(entry_fills(mine.push((stamp, fill->Ok_0))) =~= entry_fills(mine).push(
                fill->Ok_0,
            ));
            assert(entry_fills(theirs.push((other, fill->Ok_0))) =~= entry_fills(theirs).push(
                fill->Ok_0,
            ));
        }
    }
}

/// A call that is no arrival of a venue, and does not end the stream, leaves the agreement alone.
proof fn lemma_other_calls_leave_the_lines_alone(
    venue: Venue,
    lookup: Lookup,
    a: IngestRun,
    b: IngestRun,
    action: Action,
)
    requires
        comes_to(venue, a, b),
        !(action is Flush),
        action matches Action::Catch { line, .. } ==> arrival_venue(line) != venue,
    ensures
        comes_to(venue, a.step(lookup, action), b),
{
    lemma_drained_len(a.state.sequencer, true);
}

/// Lines as arrivals that all bear the same stamp.
spec fn at_once(lines: Seq<RawLineView>) -> Seq<Action> {
    lines.map_values(|line: RawLineView| Action::Catch { recv_ts: 0, line })
}

proof fn lemma_lines_alone_decide(venue: Venue, lookup: Lookup, actions: Seq<Action>)
    requires
        no_flush(actions),
        never_goes_back(venue, actions),
    ensures
        comes_to(
            venue,
            IngestRun::of(lookup, actions),
            IngestRun::of(lookup, at_once(lines_of(venue, actions))),
        ),
    decreases actions.len(),
{
    let lines = lines_of(venue, actions);
    if actions.len() == 0 {
        assert(at_once(lines) =~= Seq::empty());
    } else {
        let shorter = actions.drop_last();
        let action = actions[actions.len() - 1];
        let before = IngestRun::of(lookup, shorter);
        let earlier = lines_of(venue, shorter);
        let plain = IngestRun::of(lookup, at_once(earlier));
        assert forall|i: int| 0 <= i < shorter.len() implies !(#[trigger] shorter[i] is Flush) by {
            assert(shorter[i] == actions[i]);
        }
        assert forall|i: int, j: int|
            0 <= i < j < shorter.len() && concerns(venue)(#[trigger] shorter[i]) && concerns(venue)(
                #[trigger] shorter[j],
            ) && shorter[j] is Catch implies stamp_of(shorter[i]) <= stamp_of(shorter[j]) by {
            assert(shorter[i] == actions[i]);
            assert(shorter[j] == actions[j]);
        }
        lemma_lines_alone_decide(venue, lookup, shorter);
        if concerns(venue)(action) && action is Catch {
            let stamp = action->recv_ts;
            let line = action->line;
            assert forall|i: int| 0 <= i < shorter.len() && concerns(venue)(
                #[trigger] shorter[i],
            ) implies stamp_of(shorter[i]) <= stamp by {
                assert(shorter[i] == actions[i]);
            }
            lemma_frontier_is_a_stamp(venue, lookup, shorter, stamp);
            lemma_frontier_is_a_stamp(venue, lookup, at_once(earlier), 0);
            lemma_line_is_treated_alike(venue, lookup, before, plain, line, stamp, 0);
            assert(at_once(lines).drop_last() =~= at_once(earlier));
            assert(at_once(lines).last() == Action::Catch { recv_ts: 0, line });
        } else {
            lemma_other_calls_leave_the_lines_alone(venue, lookup, before, plain, action);
        }
    }
}

/// What is accepted of a venue depends on the lines it sent alone, as long as its stamps never go
/// back: not on the stamps, nor on its ticks, nor on the other venue, nor on how often the tape
/// is drained.
pub proof fn law_stamps_do_not_decide_what_is_accepted(
    venue: Venue,
    lookup: Lookup,
    actions: Seq<Action>,
    others: Seq<Action>,
)
    requires
        no_flush(actions),
        no_flush(others),
        never_goes_back(venue, actions),
        never_goes_back(venue, others),
        lines_of(venue, actions) == lines_of(venue, others),
    ensures
        entry_fills(accepted_of(IngestRun::of(lookup, actions), venue)) == entry_fills(
            accepted_of(IngestRun::of(lookup, others), venue),
        ),
{
    lemma_lines_alone_decide(venue, lookup, actions);
    lemma_lines_alone_decide(venue, lookup, others);
}

/// Whether a call is an arrival of an event of a venue under a name.
pub open spec fn is_named(action: Action, venue: Venue, name: Seq<char>) -> bool {
    action is Catch && {
        let parsed = action->line.parsed;
        parsed is Ok && parsed->Ok_0.venue() == venue && parsed->Ok_0.event_id() == name
    }
}

/// An arrival is remembered where it is the first under its name; nothing else is.
proof fn lemma_seen_after(state: IngesterView, lookup: Lookup, recv_ts: u64, line: RawLineView)
    ensures
        ({
            let event = line.parsed->Ok_0;
            let key = (event.venue(), event.event_id());
            let fill = match canonical_of(lookup, event) {
                Ok(fill) => Some(fill),
                Err(_) => None,
            };
            state.caught(lookup, recv_ts, line).0.seen == if line.parsed is Ok
                && !state.seen.contains_key(key) {
                state.seen.insert(key, SeenView { event, fill })
            } else {
                state.seen
            }
        }),
{
}

/// The event of a call that is an arrival under a name, as it is remembered.
pub open spec fn remembered_as(lookup: Lookup, action: Action) -> SeenView {
    let event = action->line.parsed->Ok_0;
    SeenView {
        event,
        fill: match canonical_of(lookup, event) {
            Ok(fill) => Some(fill),
            Err(_) => None,
        },
    }
}

/// What one call does to what is remembered under a name.
proof fn lemma_seen_step(
    run: IngestRun,
    lookup: Lookup,
    action: Action,
    venue: Venue,
    name: Seq<char>,
)
    ensures
        ({
            let before = run.state.seen;
            let after = run.step(lookup, action).state.seen;
            let key = (venue, name);
            &&& before.contains_key(key) ==> after.contains_key(key) && after[key] == before[key]
            &&& !before.contains_key(key) && is_named(action, venue, name) ==> after.contains_key(
                key,
            ) && after[key] == remembered_as(lookup, action)
            &&& !before.contains_key(key) && !is_named(action, venue, name)
                ==> !after.contains_key(key)
        }),
{
    match action {
        Action::Catch { recv_ts, line } => lemma_seen_after(run.state, lookup, recv_ts, line),
        _ => {},
    }
}

/// The first copy that arrives under a name of a venue is remembered with its canonical fill,
/// whatever becomes of it and whatever arrives later.
pub proof fn law_the_first_copy_is_remembered(
    lookup: Lookup,
    actions: Seq<Action>,
    venue: Venue,
    name: Seq<char>,
    first: int,
)
    requires
        0 <= first < actions.len(),
        is_named(actions[first], venue, name),
        forall|j: int| 0 <= j < first ==> !is_named(#[trigger] actions[j], venue, name),
    ensures
        ({
            let seen = IngestRun::of(lookup, actions).state.seen;
            &&& seen.contains_key((venue, name))
            &&& seen[(venue, name)] == remembered_as(lookup, actions[first])
        }),
    decreases actions.len(),
{
    let shorter = actions.drop_last();
    let before = IngestRun::of(lookup, shorter);
    lemma_seen_step(before, lookup, actions.last(), venue, name);
    if first < shorter.len() {
        assert(shorter[first] == actions[first]);
        assert forall|j: int| 0 <= j < first implies !is_named(
            #[trigger] shorter[j],
            venue,
            name,
        ) by {
            assert(shorter[j] == actions[j]);
        }
        law_the_first_copy_is_remembered(lookup, shorter, venue, name, first);
    } else {
        assert forall|j: int| 0 <= j < shorter.len() implies !is_named(
            #[trigger] shorter[j],
            venue,
            name,
        ) by {
            assert(shorter[j] == actions[j]);
        }
        law_only_arrivals_are_remembered(lookup, shorter, venue, name);
    }
}

/// No name is remembered that did not arrive.
pub proof fn law_only_arrivals_are_remembered(
    lookup: Lookup,
    actions: Seq<Action>,
    venue: Venue,
    name: Seq<char>,
)
    requires
        forall|i: int| 0 <= i < actions.len() ==> !is_named(#[trigger] actions[i], venue, name),
    ensures
        !IngestRun::of(lookup, actions).state.seen.contains_key((venue, name)),
    decreases actions.len(),
{
    if actions.len() > 0 {
        let shorter = actions.drop_last();
        let before = IngestRun::of(lookup, shorter);
        lemma_seen_step(before, lookup, actions.last(), venue, name);
        assert forall|j: int| 0 <= j < shorter.len() implies !is_named(
            #[trigger] shorter[j],
            venue,
            name,
        ) by {
            assert(shorter[j] == actions[j]);
        }
        law_only_arrivals_are_remembered(lookup, shorter, venue, name);
        assert(!is_named(actions[actions.len() - 1], venue, name));
    }
}

/// Two copies under one name that both have a canonical fill are the same event where the fills
/// agree in every field; the second is then a duplicate. Where they differ in any field, the
/// second is set aside as Byzantine and raises an alert.
pub proof fn law_copies_are_held_against_each_other_by_their_fills(
    state: IngesterView,
    lookup: Lookup,
    recv_ts: u64,
    line: RawLineView,
    first: FillView,
    second: FillView,
)
    requires
        line.parsed is Ok,
        canonical_of(lookup, line.parsed->Ok_0) == Ok::<FillView, RejectReasonView>(second),
        state.seen.contains_key((line.parsed->Ok_0.venue(), line.parsed->Ok_0.event_id())),
        state.seen[(line.parsed->Ok_0.venue(), line.parsed->Ok_0.event_id())].fill == Some(first),
    ensures
        ({
            let event = line.parsed->Ok_0;
            let (next, outcome) = state.caught(lookup, recv_ts, line);
            let same = first.venue == second.venue && first.event_id == second.event_id
                && first.seq == second.seq && first.ts_ms == second.ts_ms && first.account
                == second.account && first.instrument == second.instrument && first.symbol
                == second.symbol && first.kind == second.kind && first.side == second.side
                && first.price.0 == second.price.0 && first.qty.0 == second.qty.0 && first.fee.0
                == second.fee.0;
            &&& same ==> outcome == IngestOutcomeView::Duplicate && next.alerts == state.alerts
            &&& !same ==> outcome == IngestOutcomeView::DeadLettered(
                DeadLetterReasonView::Byzantine,
            ) && next.alerts == state.alerts.push(
                AlertView {
                    venue: event.venue(),
                    event_id: event.event_id(),
                    kind: AlertKind::ByzantineDuplicate,
                },
            )
        }),
{
    let same = first.venue == second.venue && first.event_id == second.event_id && first.seq
        == second.seq && first.ts_ms == second.ts_ms && first.account == second.account
        && first.instrument == second.instrument && first.symbol == second.symbol && first.kind
        == second.kind && first.side == second.side && first.price.0 == second.price.0
        && first.qty.0 == second.qty.0 && first.fee.0 == second.fee.0;
    assert(same <==> first == second);
}

/// Two perpetual reports under one name, of which one at least has no canonical fill, are the same
/// event where they agree in every field; the second is then a duplicate. Where they differ in any
/// field, the second is set aside as Byzantine and raises an alert.
pub proof fn law_perpetual_copies_are_held_against_each_other_field_by_field(
    state: IngesterView,
    lookup: Lookup,
    recv_ts: u64,
    line: RawLineView,
    first: HlEventView,
    second: HlEventView,
)
    requires
        line.parsed == Ok::<RawEventView, Seq<char>>(RawEventView::Hl(second)),
        state.seen.contains_key((Venue::Hl, second.event_id)),
        state.seen[(Venue::Hl, second.event_id)].event == RawEventView::Hl(first),
        state.seen[(Venue::Hl, second.event_id)].fill is None || canonical_of(
            lookup,
            RawEventView::Hl(second),
        ) is Err,
    ensures
        ({
            let (next, outcome) = state.caught(lookup, recv_ts, line);
            let same = first.seq == second.seq && first.event_id == second.event_id && first.ts
                == second.ts && first.account == second.account && first.symbol == second.symbol
                && first.side == second.side && first.px == second.px && first.qty == second.qty
                && first.fee == second.fee;
            &&& same ==> outcome == IngestOutcomeView::Duplicate && next.alerts == state.alerts
            &&& !same ==> outcome == IngestOutcomeView::DeadLettered(
                DeadLetterReasonView::Byzantine,
            ) && next.alerts == state.alerts.push(
                AlertView {
                    venue: Venue::Hl,
                    event_id: second.event_id,
                    kind: AlertKind::ByzantineDuplicate,
                },
            )
        }),
{
    let same = first.seq == second.seq && first.event_id == second.event_id && first.ts
        == second.ts && first.account == second.account && first.symbol == second.symbol
        && first.side == second.side && first.px == second.px && first.qty == second.qty
        && first.fee == second.fee;
    assert(same <==> first == second);
}

/// Two binary64 encodings stand for the same number where they are the same and stand for one, or
/// where both are zero but for the sign.
pub proof fn law_prices_are_the_same_as_numbers(a: u64, b: u64)
    ensures
        same_number(a, b) <==> (a == b && a as int % 0x8000_0000_0000_0000
            <= 0x7FF0_0000_0000_0000) || (a as int % 0x8000_0000_0000_0000 == 0 && b as int
            % 0x8000_0000_0000_0000 == 0),
{
}

/// Two market reports under one name, of which one at least has no canonical fill, are the same
/// event where they agree in every field, the price as a number; the second is then a duplicate.
/// Where they differ in any field, the second is set aside as Byzantine and raises an alert.
pub proof fn law_market_copies_are_held_against_each_other_field_by_field(
    state: IngesterView,
    lookup: Lookup,
    recv_ts: u64,
    line: RawLineView,
    first: PmEventView,
    second: PmEventView,
)
    requires
        line.parsed == Ok::<RawEventView, Seq<char>>(RawEventView::Pm(second)),
        state.seen.contains_key((Venue::Pm, second.id)),
        state.seen[(Venue::Pm, second.id)].event == RawEventView::Pm(first),
        state.seen[(Venue::Pm, second.id)].fill is None || canonical_of(
            lookup,
            RawEventView::Pm(second),
        ) is Err,
    ensures
        ({
            let (next, outcome) = state.caught(lookup, recv_ts, line);
            let a = first.price.bits as int;
            let b = second.price.bits as int;
            let same_price = (a == b && a % 0x8000_0000_0000_0000 <= 0x7FF0_0000_0000_0000) || (a
                % 0x8000_0000_0000_0000 == 0 && b % 0x8000_0000_0000_0000 == 0);
            let same = first.sequence == second.sequence && first.id == second.id
                && first.timestamp_ms == second.timestamp_ms && first.user == second.user
                && first.market == second.market && first.outcome == second.outcome
                && first.action == second.action && same_price && first.size == second.size
                && first.fee_bps == second.fee_bps;
            &&& same ==> outcome == IngestOutcomeView::Duplicate && next.alerts == state.alerts
            &&& !same ==> outcome == IngestOutcomeView::DeadLettered(
                DeadLetterReasonView::Byzantine,
            ) && next.alerts == state.alerts.push(
                AlertView {
                    venue: Venue::Pm,
                    event_id: second.id,
                    kind: AlertKind::ByzantineDuplicate,
                },
            )
        }),
{
    law_prices_are_the_same_as_numbers(first.price.bits, second.price.bits);
}

/// What a venue's lane remembers of the arrivals: the frontier is no earlier than any arrival or
/// tick of the venue.
proof fn lemma_frontier_is_past_every_stamp(
    venue: Venue,
    lookup: Lookup,
    actions: Seq<Action>,
    i: int,
)
    requires
        0 <= i < actions.len(),
        concerns(venue)(actions[i]),
    ensures
        stamp_of(actions[i]) <= IngestRun::of(lookup, actions).state.sequencer.lane(venue).frontier,
    decreases actions.len(),
{
    let shorter = actions.drop_last();
    let before = IngestRun::of(lookup, shorter).state;
    lemma_drained_len(before.sequencer, true);
    lemma_drained_len(before.sequencer.ended(), false);
    if i < shorter.len() {
        assert(shorter[i] == actions[i]);
        lemma_frontier_is_past_every_stamp(venue, lookup, shorter, i);
    }
    match actions.last() {
        Action::Catch { recv_ts, line } => {
            let other = match arrival_venue(line) {
                Venue::Hl => Venue::Pm,
                Venue::Pm => Venue::Hl,
            };
            law_every_arrival_moves_its_venue(before, lookup, recv_ts, line, other);
        },
        _ => {},
    }
}

proof fn lemma_sealed_by_a_flush(lookup: Lookup, actions: Seq<Action>)
    ensures
        IngestRun::of(lookup, actions).state.sequencer.sealed <==> !no_flush(actions),
    decreases actions.len(),
{
    if actions.len() > 0 {
        let shorter = actions.drop_last();
        let before = IngestRun::of(lookup, shorter).state;
        lemma_sealed_by_a_flush(lookup, shorter);
        lemma_drained_len(before.sequencer, true);
        lemma_drained_len(before.sequencer.ended(), false);
        assert(forall|i: int| 0 <= i < shorter.len() ==> #[trigger] actions[i] == shorter[i]);
        if !no_flush(shorter) {
            let i = choose|i: int| 0 <= i < shorter.len() && #[trigger] shorter[i] is Flush;
            assert(actions[i] is Flush);
        }
        if actions.last() is Flush {
            assert(actions[actions.len() - 1] is Flush);
        } else if no_flush(shorter) {
            assert(no_flush(actions));
        }
    }
}

/// What becomes of an event under a new name. Where it has no canonical fill it is set aside for
/// that reason. Where it has one it is accepted, unless the stream has ended, or its stamp is
/// before an arrival or tick of its venue, or its sequence number is not past that of every fill
/// of the venue that was accepted; a gap, however large, is no reason. Then it is set aside as
/// out of order, and the letter says which of the three it was.
pub proof fn law_a_new_event_is_accepted_unless_it_goes_back(
    lookup: Lookup,
    actions: Seq<Action>,
    recv_ts: u64,
    line: RawLineView,
)
    requires
        line.parsed is Ok,
        forall|i: int|
            0 <= i < actions.len() ==> !is_named(
                #[trigger] actions[i],
                line.parsed->Ok_0.venue(),
                line.parsed->Ok_0.event_id(),
            ),
    ensures
        ({
            let run = IngestRun::of(lookup, actions);
            let event = line.parsed->Ok_0;
            let venue = event.venue();
            let accepted = accepted_of(run, venue);
            let outcome = run.state.caught(lookup, recv_ts, line).1;
            let in_time = forall|i: int|
                0 <= i < actions.len() && concerns(venue)(#[trigger] actions[i]) ==> stamp_of(
                    actions[i],
                ) <= recv_ts;
            let past_all = forall|i: int|
                0 <= i < accepted.len() ==> (#[trigger] accepted[i]).1.seq < event.seq();
            match canonical_of(lookup, event) {
                Err(reason) => outcome == IngestOutcomeView::DeadLettered(
                    DeadLetterReasonView::Rejected(reason),
                ),
                Ok(_) => if !no_flush(actions) {
                    outcome == IngestOutcomeView::DeadLettered(
                        DeadLetterReasonView::OutOfOrder(SequencerError::Sealed { venue }),
                    )
                } else if !in_time {
                    &&& outcome is DeadLettered
                    &&& outcome->DeadLettered_0 is OutOfOrder
                    &&& outcome->DeadLettered_0->OutOfOrder_0 matches SequencerError::RecvTsWalkback {
                        venue: lane,
                        frontier,
                        recv_ts: stamp,
                    } && lane == venue && stamp == recv_ts && frontier > recv_ts
                } else if !past_all {
                    outcome == IngestOutcomeView::DeadLettered(
                        DeadLetterReasonView::OutOfOrder(
                            SequencerError::SeqWalkback {
                                venue,
                                last_seq: accepted.last().1.seq,
                                seq: event.seq(),
                            },
                        ),
                    )
                } else {
                    outcome == IngestOutcomeView::Accepted
                },
            }
        }),
{
    let run = IngestRun::of(lookup, actions);
    let event = line.parsed->Ok_0;
    let venue = event.venue();
    let accepted = accepted_of(run, venue);
    let frontier = run.state.sequencer.lane(venue).frontier;
    law_only_arrivals_are_remembered(lookup, actions, venue, event.event_id());
    lemma_sealed_by_a_flush(lookup, actions);
    lemma_gaps(lookup, actions);
    law_ingester_drives_a_sequencer(lookup, actions);
    law_pushes_are_in_lane_order(sequencer_calls(lookup, actions));
    assert(frontier <= recv_ts <==> (forall|i: int|
        0 <= i < actions.len() && concerns(venue)(#[trigger] actions[i]) ==> stamp_of(actions[i])
            <= recv_ts)) by {
        if frontier <= recv_ts {
            assert forall|i: int| 0 <= i < actions.len() && concerns(venue)(
                #[trigger] actions[i],
            ) implies stamp_of(actions[i]) <= recv_ts by {
                lemma_frontier_is_past_every_stamp(venue, lookup, actions, i);
            }
        } else if forall|i: int|
            0 <= i < actions.len() && concerns(venue)(#[trigger] actions[i]) ==> stamp_of(
                actions[i],
            ) <= recv_ts {
            lemma_frontier_is_a_stamp(venue, lookup, actions, recv_ts);
        }
    }
    if canonical_of(lookup, event) is Ok {
        let symbol = event_symbol(event);
        law_fill_repeats_its_event(event, lookup(symbol.0, symbol.1));
        assert((forall|i: int|
            0 <= i < accepted.len() ==> (#[trigger] accepted[i]).1.seq < event.seq())
            <==> accepted.len() == 0 || accepted.last().1.seq < event.seq()) by {
            if accepted.len() > 0 {
                let last = accepted.len() - 1;
                assert(accepted[last] == accepted.last());
                if accepted.last().1.seq < event.seq() {
                    assert forall|i: int| 0 <= i < accepted.len() implies (
                    #[trigger] accepted[i]).1.seq < event.seq() by {
                        if i < last {
                            assert(accepted[i].1.seq < accepted[last].1.seq);
                        }
                    }
                }
            }
        }
    }
}

/// A line that holds no event is set aside with the reason that it was found to hold none.
pub proof fn law_a_line_without_an_event_is_set_aside(
    state: IngesterView,
    lookup: Lookup,
    recv_ts: u64,
    line: RawLineView,
)
    requires
        line.parsed is Err,
    ensures
        ({
            let (next, outcome) = state.caught(lookup, recv_ts, line);
            let reason = DeadLetterReasonView::Malformed(line.parsed->Err_0);
            &&& outcome == IngestOutcomeView::DeadLettered(reason)
            &&& next.dead_letters == state.dead_letters.push(
                DeadLetterView {
                    venue: line.venue,
                    event_id: Seq::empty(),
                    reason,
                    text: Some(line.text),
                },
            )
            &&& next.seen == state.seen
        }),
{
}

/// Every outcome moves the counters that it should and no other, and leaves a letter where it sets
/// an arrival aside, an alert where the arrival contradicts an earlier one, and a stamped fill at
/// the end of the venue's lane where it is accepted.
pub proof fn law_every_outcome_leaves_its_mark(
    state: IngesterView,
    lookup: Lookup,
    recv_ts: u64,
    line: RawLineView,
)
    ensures
        ({
            let (next, outcome) = state.caught(lookup, recv_ts, line);
            let venue = match line.parsed {
                Ok(event) => event.venue(),
                Err(_) => line.venue,
            };
            let name = match line.parsed {
                Ok(event) => event.event_id(),
                Err(_) => Seq::empty(),
            };
            let old_lane = state.sequencer.lane(venue);
            let lane = next.sequencer.lane(venue);
            let accepted = outcome == IngestOutcomeView::Accepted;
            let duplicate = outcome == IngestOutcomeView::Duplicate;
            let byzantine = outcome == IngestOutcomeView::DeadLettered(
                DeadLetterReasonView::Byzantine,
            );
            let late = outcome is DeadLettered && outcome->DeadLettered_0 is OutOfOrder;
            let fill = canonical_of(lookup, line.parsed->Ok_0)->Ok_0;
            &&& next.stats.accepted == state.stats.accepted + if accepted {
                1int
            } else {
                0
            }
            &&& next.stats.duplicates == state.stats.duplicates + if duplicate {
                1int
            } else {
                0
            }
            &&& next.stats.dead_lettered == state.stats.dead_lettered + if outcome
                is DeadLettered {
                1int
            } else {
                0
            }
            &&& next.stats.byzantine == state.stats.byzantine + if byzantine {
                1int
            } else {
                0
            }
            &&& next.stats.out_of_order == state.stats.out_of_order + if late {
                1int
            } else {
                0
            }
            &&& next.stats.gaps == state.stats.gaps + if accepted && old_lane.last_seq is Some {
                fill.seq - old_lane.last_seq->0 - 1
            } else {
                0
            }
            &&& next.dead_letters == if outcome is DeadLettered {
                state.dead_letters.push(
                    DeadLetterView {
                        venue,
                        event_id: name,
                        reason: outcome->DeadLettered_0,
                        text: Some(line.text),
                    },
                )
            } else {
                state.dead_letters
            }
            &&& next.alerts == if byzantine {
                state.alerts.push(
                    AlertView { venue, event_id: name, kind: AlertKind::ByzantineDuplicate },
                )
            } else {
                state.alerts
            }
            &&& lane.buffer == if accepted {
                old_lane.buffer.push((recv_ts, fill))
            } else {
                old_lane.buffer
            }
            &&& lane.last_seq == if accepted {
                Some(fill.seq)
            } else {
                old_lane.last_seq
            }
            &&& old_lane.frontier <= recv_ts ==> lane.frontier == recv_ts
            &&& old_lane.frontier > recv_ts ==> lane.frontier == old_lane.frontier
            &&& next.sequencer.next_global_seq == state.sequencer.next_global_seq
            &&& next.sequencer.sealed == state.sequencer.sealed
        }),
{
    match line.parsed {
        Ok(event) => {
            if canonical_of(lookup, event) is Ok {
                let symbol = event_symbol(event);
                law_fill_repeats_its_event(event, lookup(symbol.0, symbol.1));
            }
        },
        Err(_) => {},
    }
}

/// An event is held against what its own venue lists under its own symbol.
pub proof fn law_an_event_is_looked_up_by_its_symbol(
    lookup: Lookup,
    hl: HlEventView,
    pm: PmEventView,
)
    ensures
        canonical_of(lookup, RawEventView::Hl(hl)) == hl_fill(hl, lookup(Venue::Hl, hl.symbol)),
        canonical_of(lookup, RawEventView::Pm(pm)) == pm_fill(pm, lookup(Venue::Pm, pm.market)),
{
}

/// An ingester looks instruments up where it was told to.
pub proof fn law_an_ingester_looks_up_in_its_source<S: InstrumentSource>(
    ingester: Ingester<S>,
    venue: Venue,
    symbol: Seq<char>,
)
    ensures
        ingester.lookup()(venue, symbol) == ingester.source().listed(venue, symbol),
{
}

} // verus!
