//! The vocabulary of ingestion: outcomes, dead letters, alerts and counters.

use vstd::prelude::*;

use crate::canonical::{RejectReason, RejectReasonView};
use crate::instrument::Venue;
use crate::sequencer::SequencerError;

verus! {

/// What became of an arrival.
#[derive(PartialEq, Eq, Debug)]
pub enum IngestOutcome {
    /// It is on its way to the tape.
    Accepted,
    /// It repeats an event that was seen before.
    Duplicate,
    /// It is set aside, and remembered.
    DeadLettered(DeadLetterReason),
}

/// The contents of an [`IngestOutcome`].
#[verifier::ext_equal]
pub enum IngestOutcomeView {
    Accepted,
    Duplicate,
    DeadLettered(DeadLetterReasonView),
}

impl View for IngestOutcome {
    type V = IngestOutcomeView;

    open spec fn view(&self) -> IngestOutcomeView {
        match self {
            IngestOutcome::Accepted => IngestOutcomeView::Accepted,
            IngestOutcome::Duplicate => IngestOutcomeView::Duplicate,
            IngestOutcome::DeadLettered(reason) => IngestOutcomeView::DeadLettered(reason@),
        }
    }
}

impl Clone for IngestOutcome {
    fn clone(&self) -> (copy: Self)
        ensures
            copy == *self,
    {
        match self {
            IngestOutcome::Accepted => IngestOutcome::Accepted,
            IngestOutcome::Duplicate => IngestOutcome::Duplicate,
            IngestOutcome::DeadLettered(reason) => IngestOutcome::DeadLettered(reason.clone()),
        }
    }
}

/// Why an arrival was set aside.
#[derive(PartialEq, Eq, Debug)]
pub enum DeadLetterReason {
    /// The line holds no event.
    Malformed(String),
    /// The event has no canonical fill.
    Rejected(RejectReason),
    /// The event contradicts an earlier one of the same name.
    Byzantine,
    /// The producer walked back: the event is set aside, never silently dropped.
    OutOfOrder(SequencerError),
}

/// The contents of a [`DeadLetterReason`].
#[verifier::ext_equal]
pub enum DeadLetterReasonView {
    Malformed(Seq<char>),
    Rejected(RejectReasonView),
    Byzantine,
    OutOfOrder(SequencerError),
}

impl View for DeadLetterReason {
    type V = DeadLetterReasonView;

    open spec fn view(&self) -> DeadLetterReasonView {
        match self {
            DeadLetterReason::Malformed(error) => DeadLetterReasonView::Malformed(error@),
            DeadLetterReason::Rejected(reason) => DeadLetterReasonView::Rejected(reason@),
            DeadLetterReason::Byzantine => DeadLetterReasonView::Byzantine,
            DeadLetterReason::OutOfOrder(error) => DeadLetterReasonView::OutOfOrder(*error),
        }
    }
}

impl Clone for DeadLetterReason {
    fn clone(&self) -> (copy: Self)
        ensures
            copy == *self,
    {
        match self {
            DeadLetterReason::Malformed(error) => DeadLetterReason::Malformed(error.clone()),
            DeadLetterReason::Rejected(reason) => DeadLetterReason::Rejected(reason.clone()),
            DeadLetterReason::Byzantine => DeadLetterReason::Byzantine,
            DeadLetterReason::OutOfOrder(error) => DeadLetterReason::OutOfOrder(*error),
        }
    }
}

/// An arrival that was set aside.
#[derive(PartialEq, Eq, Debug)]
pub struct DeadLetter {
    pub venue: Venue,
    /// Empty where the line holds no event.
    pub event_id: String,
    pub reason: DeadLetterReason,
    pub text: Option<String>,
}

/// The contents of a [`DeadLetter`].
#[verifier::ext_equal]
pub struct DeadLetterView {
    pub venue: Venue,
    pub event_id: Seq<char>,
    pub reason: DeadLetterReasonView,
    pub text: Option<Seq<char>>,
}

impl View for DeadLetter {
    type V = DeadLetterView;

    open spec fn view(&self) -> DeadLetterView {
        DeadLetterView {
            venue: self.venue,
            event_id: self.event_id@,
            reason: self.reason@,
            text: match self.text {
                Some(text) => Some(text@),
                None => None,
            },
        }
    }
}

impl Clone for DeadLetter {
    fn clone(&self) -> (copy: Self)
        ensures
            copy == *self,
    {
        DeadLetter {
            venue: self.venue,
            event_id: self.event_id.clone(),
            reason: self.reason.clone(),
            text: match &self.text {
                Some(text) => Some(text.clone()),
                None => None,
            },
        }
    }
}

/// Something that someone should look at.
#[derive(PartialEq, Eq, Debug)]
pub struct Alert {
    pub venue: Venue,
    pub event_id: String,
    pub kind: AlertKind,
}

/// The contents of an [`Alert`].
#[verifier::ext_equal]
pub struct AlertView {
    pub venue: Venue,
    pub event_id: Seq<char>,
    pub kind: AlertKind,
}

impl View for Alert {
    type V = AlertView;

    open spec fn view(&self) -> AlertView {
        AlertView { venue: self.venue, event_id: self.event_id@, kind: self.kind }
    }
}

impl Clone for Alert {
    fn clone(&self) -> (copy: Self)
        ensures
            copy == *self,
    {
        Alert { venue: self.venue, event_id: self.event_id.clone(), kind: self.kind }
    }
}

/// What an alert is about.
#[derive(Clone, Copy, PartialEq, Eq, Debug, Structural)]
pub enum AlertKind {
    /// Two events of the same name contradict each other.
    ByzantineDuplicate,
}

/// How many arrivals went which way.
#[derive(Clone, Copy, PartialEq, Eq, Debug, Structural)]
pub struct IngestStats {
    pub accepted: usize,
    pub duplicates: usize,
    pub byzantine: usize,
    pub dead_lettered: usize,
    pub out_of_order: usize,
    /// How many sequence numbers were skipped.
    pub gaps: usize,
}

/// The counters of an [`IngestStats`], unbounded.
pub struct IngestStatsView {
    pub accepted: int,
    pub duplicates: int,
    pub byzantine: int,
    pub dead_lettered: int,
    pub out_of_order: int,
    pub gaps: int,
}

impl View for IngestStats {
    type V = IngestStatsView;

    open spec fn view(&self) -> IngestStatsView {
        IngestStatsView {
            accepted: self.accepted as int,
            duplicates: self.duplicates as int,
            byzantine: self.byzantine as int,
            dead_lettered: self.dead_lettered as int,
            out_of_order: self.out_of_order as int,
            gaps: self.gaps as int,
        }
    }
}

impl IngestStatsView {
    /// All counters at zero.
    pub open spec fn zero() -> IngestStatsView {
        IngestStatsView {
            accepted: 0,
            duplicates: 0,
            byzantine: 0,
            dead_lettered: 0,
            out_of_order: 0,
            gaps: 0,
        }
    }

    /// Whether all counters fit.
    pub open spec fn fits(self) -> bool {
        &&& self.accepted <= usize::MAX
        &&& self.duplicates <= usize::MAX
        &&& self.byzantine <= usize::MAX
        &&& self.dead_lettered <= usize::MAX
        &&& self.out_of_order <= usize::MAX
        &&& self.gaps <= usize::MAX
    }
}

impl Default for IngestStats {
    fn default() -> (stats: IngestStats)
        ensures
            stats@ == IngestStatsView::zero(),
    {
        IngestStats {
            accepted: 0,
            duplicates: 0,
            byzantine: 0,
            dead_lettered: 0,
            out_of_order: 0,
            gaps: 0,
        }
    }
}

} // verus!
