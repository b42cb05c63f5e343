//! The merger: one lane per venue, a frontier per lane, and one writer of the global order.
//!
//! A venue may still deliver an event stamped at its current frontier. So a head stamped `t` is
//! safe to emit once every lane of higher priority is strictly past `t`, for a tie from there
//! would sort first, and every lane of lower priority has reached `t`, for a tie from there sorts
//! after it. A head's own lane never holds it back: within a venue, ties are in sequence order.

use std::collections::VecDeque;

use vstd::prelude::*;

use crate::canonical::{Fill, FillView};
use crate::instrument::Venue;

verus! {

/// How many events a lane makes room for at first. Lanes grow past this.
pub const INITIAL_LANE_CAPACITY: usize = 1024;

/// A fill with its place on the tape.
#[derive(PartialEq, Eq, Debug)]
pub struct SequencedFill {
    pub global_seq: u64,
    pub recv_ts: u64,
    pub fill: Fill,
}

/// The contents of a [`SequencedFill`].
#[verifier::ext_equal]
pub struct SequencedFillView {
    pub global_seq: int,
    pub recv_ts: u64,
    pub fill: FillView,
}

impl View for SequencedFill {
    type V = SequencedFillView;

    open spec fn view(&self) -> SequencedFillView {
        SequencedFillView {
            global_seq: self.global_seq as int,
            recv_ts: self.recv_ts,
            fill: self.fill@,
        }
    }
}

impl Clone for SequencedFill {
    fn clone(&self) -> (copy: Self)
        ensures
            copy == *self,
    {
        SequencedFill {
            global_seq: self.global_seq,
            recv_ts: self.recv_ts,
            fill: self.fill.clone(),
        }
    }
}

/// Why a producer may not push.
#[derive(Clone, Copy, PartialEq, Eq, Debug, Structural)]
pub enum SequencerError {
    /// The stream has ended; the tape must never grow again.
    Sealed { venue: Venue },
    /// The fill is of another venue than the lane.
    VenueMismatch { lane: Venue, fill: Venue },
    /// The stamp lies behind the venue's own frontier.
    RecvTsWalkback { venue: Venue, frontier: u64, recv_ts: u64 },
    /// The venue's sequence number does not move forward. Gaps are fine.
    SeqWalkback { venue: Venue, last_seq: u64, seq: u64 },
}

/// A stamped fill on its way to the tape.
pub type Entry = (u64, FillView);

/// The contents of a lane.
#[verifier::ext_equal]
pub struct LaneView {
    /// The fills still waiting, oldest first.
    pub buffer: Seq<Entry>,
    /// The latest stamp that this venue is known to have reached.
    pub frontier: u64,
    /// The sequence number of the last fill that was pushed.
    pub last_seq: Option<u64>,
}

/// The contents of a [`Sequencer`].
#[verifier::ext_equal]
pub struct SequencerView {
    pub hl: LaneView,
    pub pm: LaneView,
    pub next_global_seq: int,
    pub sealed: bool,
}

impl SequencerView {
    /// The sequencer before the first push.
    pub open spec fn fresh() -> SequencerView {
        let lane = LaneView { buffer: Seq::empty(), frontier: 0, last_seq: None };
        SequencerView { hl: lane, pm: lane, next_global_seq: 1, sealed: false }
    }

    /// The lane of a venue.
    pub open spec fn lane(self, venue: Venue) -> LaneView {
        match venue {
            Venue::Hl => self.hl,
            Venue::Pm => self.pm,
        }
    }

    /// This sequencer with another lane for a venue.
    pub open spec fn with_lane(self, venue: Venue, lane: LaneView) -> SequencerView {
        match venue {
            Venue::Hl => SequencerView { hl: lane, ..self },
            Venue::Pm => SequencerView { pm: lane, ..self },
        }
    }

    /// How many fills are waiting.
    pub open spec fn depth(self) -> nat {
        self.hl.buffer.len() + self.pm.buffer.len()
    }

    /// Why a push is refused, if it is.
    pub open spec fn refusal(self, venue: Venue, recv_ts: u64, fill: FillView) -> Option<
        SequencerError,
    > {
        let lane = self.lane(venue);
        if self.sealed {
            Some(SequencerError::Sealed { venue })
        } else if fill.venue != venue {
            Some(SequencerError::VenueMismatch { lane: venue, fill: fill.venue })
        } else if recv_ts < lane.frontier {
            Some(SequencerError::RecvTsWalkback { venue, frontier: lane.frontier, recv_ts })
        } else if lane.last_seq is Some && fill.seq <= lane.last_seq->0 {
            Some(SequencerError::SeqWalkback { venue, last_seq: lane.last_seq->0, seq: fill.seq })
        } else {
            None
        }
    }

    /// The sequencer after a push: a refused push changes nothing.
    pub open spec fn pushed(self, venue: Venue, recv_ts: u64, fill: FillView) -> SequencerView {
        if self.refusal(venue, recv_ts, fill) is Some {
            self
        } else {
            self.with_lane(
                venue,
                LaneView {
                    buffer: self.lane(venue).buffer.push((recv_ts, fill)),
                    frontier: recv_ts,
                    last_seq: Some(fill.seq),
                },
            )
        }
    }

    /// The sequencer after a venue is known to have reached `now_ts`.
    pub open spec fn ticked(self, venue: Venue, now_ts: u64) -> SequencerView {
        let lane = self.lane(venue);
        self.with_lane(
            venue,
            LaneView {
                frontier: if lane.frontier < now_ts {
                    now_ts
                } else {
                    lane.frontier
                },
                ..lane
            },
        )
    }

    /// Whether nothing that may still arrive on the other lane can sort before a head of `venue`
    /// stamped `recv_ts`.
    pub open spec fn emittable(self, venue: Venue, recv_ts: u64) -> bool {
        match venue {
            Venue::Hl => self.pm.frontier >= recv_ts,
            Venue::Pm => self.hl.frontier > recv_ts,
        }
    }

    /// The sequencer after the head of a lane went onto the tape.
    pub open spec fn popped(self, venue: Venue) -> SequencerView {
        let lane = self.lane(venue);
        SequencerView {
            next_global_seq: self.next_global_seq + 1,
            ..self.with_lane(venue, LaneView { buffer: lane.buffer.drop_first(), ..lane })
        }
    }

    /// What a drain puts onto the tape: the heads in order, as far as they may be emitted.
    pub open spec fn drained(self, gated: bool) -> Seq<SequencedFillView>
        decreases self.depth(),
    {
        match first_lane(self.hl.buffer, self.pm.buffer) {
            None => Seq::empty(),
            Some(venue) => {
                let head = self.lane(venue).buffer[0];
                if gated && !self.emittable(venue, head.0) {
                    Seq::empty()
                } else {
                    seq![
                        SequencedFillView {
                            global_seq: self.next_global_seq,
                            recv_ts: head.0,
                            fill: head.1,
                        },
                    ] + self.popped(venue).drained(gated)
                }
            },
        }
    }

    /// The sequencer after a drain.
    pub open spec fn after_drain(self, gated: bool) -> SequencerView
        decreases self.depth(),
    {
        match first_lane(self.hl.buffer, self.pm.buffer) {
            None => self,
            Some(venue) => {
                let head = self.lane(venue).buffer[0];
                if gated && !self.emittable(venue, head.0) {
                    self
                } else {
                    self.popped(venue).after_drain(gated)
                }
            },
        }
    }

    /// Whether there are numbers left for all that is ready. There are if there are numbers for
    /// all that is waiting.
    pub open spec fn can_drain(self) -> bool {
        ||| self.next_global_seq + self.depth() <= u64::MAX
        ||| self.next_global_seq + self.drained(true).len() <= u64::MAX
    }

    /// Whether there are numbers left for all that is waiting.
    pub open spec fn can_flush(self) -> bool {
        self.next_global_seq + self.depth() <= u64::MAX
    }

    /// The sequencer with its stream ended.
    pub open spec fn ended(self) -> SequencerView {
        SequencerView { sealed: true, ..self }
    }
}

/// Which of two lanes has the head that sorts first: the earlier stamp, and on a tie the venue
/// of higher priority.
pub open spec fn first_lane(hl: Seq<Entry>, pm: Seq<Entry>) -> Option<Venue> {
    if hl.len() == 0 && pm.len() == 0 {
        None
    } else if hl.len() == 0 {
        Some(Venue::Pm)
    } else if pm.len() == 0 || hl[0].0 <= pm[0].0 {
        Some(Venue::Hl)
    } else {
        Some(Venue::Pm)
    }
}

struct Lane {
    buffer: VecDeque<(u64, Fill)>,
    frontier: u64,
    last_seq: Option<u64>,
}

spec fn entries_of(buffer: Seq<(u64, Fill)>) -> Seq<Entry> {
    buffer.map_values(|entry: (u64, Fill)| (entry.0, entry.1@))
}

impl View for Lane {
    type V = LaneView;

    closed spec fn view(&self) -> LaneView {
        LaneView {
            buffer: entries_of(self.buffer@),
            frontier: self.frontier,
            last_seq: self.last_seq,
        }
    }
}

impl Lane {
    fn new() -> (lane: Lane)
        ensures
            lane@ == SequencerView::fresh().hl,
    {
        let lane = Lane {
            buffer: VecDeque::with_capacity(INITIAL_LANE_CAPACITY),
            frontier: 0,
            last_seq: None,
        };
        assert(lane@.buffer =~= Seq::<Entry>::empty());
        lane
    }

    /// The stamp of the head.
    fn head_stamp(&self) -> (stamp: Option<u64>)
        ensures
            stamp == (if self@.buffer.len() == 0 {
                None::<u64>
            } else {
                Some(self@.buffer[0].0)
            }),
    {
        if self.buffer.len() == 0 {
            None
        } else {
            Some(self.buffer[0].0)
        }
    }

    /// Takes the head off.
    fn pop(&mut self) -> (head: Option<(u64, Fill)>)
        ensures
            match head {
                Some(entry) => {
                    &&& old(self)@.buffer.len() > 0
                    &&& (entry.0, entry.1@) == old(self)@.buffer[0]
                    &&& final(self)@ == (LaneView {
                        buffer: old(self)@.buffer.drop_first(),
                        ..old(self)@
                    })
                },
                None => old(self)@.buffer.len() == 0 && final(self)@ == old(self)@,
            },
    {
        let head = self.buffer.pop_front();
        proof {
            if old(self)@.buffer.len() > 0 {
                assert(self@.buffer =~= old(self)@.buffer.drop_first());
            }
        }
        head
    }

    /// Puts a fill at the end, and moves the frontier up to its stamp.
    fn push(&mut self, recv_ts: u64, fill: Fill)
        ensures
            final(self)@ == (LaneView {
                buffer: old(self)@.buffer.push((recv_ts, fill@)),
                frontier: recv_ts,
                last_seq: Some(fill.seq),
            }),
    {
        self.last_seq = Some(fill.seq);
        self.frontier = recv_ts;
        self.buffer.push_back((recv_ts, fill));
        assert(self@.buffer =~= old(self)@.buffer.push((recv_ts, fill@)));
    }
}

/// The contents of a tape.
pub open spec fn tape_view(tape: Seq<SequencedFill>) -> Seq<SequencedFillView> {
    tape.map_values(|entry: SequencedFill| entry@)
}

/// Merges the venues' fills into one tape.
pub struct Sequencer {
    hl: Lane,
    pm: Lane,
    next_global_seq: u64,
    sealed: bool,
}

impl View for Sequencer {
    type V = SequencerView;

    closed spec fn view(&self) -> SequencerView {
        SequencerView {
            hl: self.hl@,
            pm: self.pm@,
            next_global_seq: self.next_global_seq as int,
            sealed: self.sealed,
        }
    }
}

impl Default for Sequencer {
    fn default() -> (sequencer: Sequencer)
        ensures
            sequencer@ == SequencerView::fresh(),
    {
        Sequencer::new()
    }
}

impl Sequencer {
    /// A sequencer with empty lanes.
    pub fn new() -> (sequencer: Sequencer)
        ensures
            sequencer@ == SequencerView::fresh(),
    {
        Sequencer { hl: Lane::new(), pm: Lane::new(), next_global_seq: 1, sealed: false }
    }

    /// Stamps a fill onto its venue's lane, or says why its producer may not push it.
    pub fn push(&mut self, venue: Venue, recv_ts: u64, fill: Fill) -> (result: Result<
        (),
        SequencerError,
    >)
        ensures
            match result {
                Ok(()) => old(self)@.refusal(venue, recv_ts, fill@) is None,
                Err(error) => old(self)@.refusal(venue, recv_ts, fill@) == Some(error),
            },
            final(self)@ == old(self)@.pushed(venue, recv_ts, fill@),
    {
        if self.sealed {
            return Err(SequencerError::Sealed { venue });
        }
        if fill.venue != venue {
            return Err(SequencerError::VenueMismatch { lane: venue, fill: fill.venue });
        }
        let (frontier, last_seq) = match venue {
            Venue::Hl => (self.hl.frontier, self.hl.last_seq),
            Venue::Pm => (self.pm.frontier, self.pm.last_seq),
        };
        if recv_ts < frontier {
            return Err(SequencerError::RecvTsWalkback { venue, frontier, recv_ts });
        }
        if let Some(last_seq) = last_seq {
            if fill.seq <= last_seq {
                return Err(SequencerError::SeqWalkback { venue, last_seq, seq: fill.seq });
            }
        }
        match venue {
            Venue::Hl => self.hl.push(recv_ts, fill),
            Venue::Pm => self.pm.push(recv_ts, fill),
        }
        Ok(())
    }

    /// Lets a venue reach `now_ts`, so that a silent venue never freezes the merge.
    pub fn tick(&mut self, venue: Venue, now_ts: u64)
        ensures
            final(self)@ == old(self)@.ticked(venue, now_ts),
    {
        match venue {
            Venue::Hl => {
                if self.hl.frontier < now_ts {
                    self.hl.frontier = now_ts;
                }
            },
            Venue::Pm => {
                if self.pm.frontier < now_ts {
                    self.pm.frontier = now_ts;
                }
            },
        }
    }

    /// Emits every fill that the frontiers prove safe, in sort order, and numbers it.
    pub fn drain_ready(&mut self) -> (tape: Vec<SequencedFill>)
        requires
            old(self)@.can_drain(),
        ensures
            tape_view(tape@) == old(self)@.drained(true),
            final(self)@ == old(self)@.after_drain(true),
    {
        proof {
            lemma_drained_len(self@, true);
        }
        self.drain(true)
    }

    /// Ends the stream: emits everything that is waiting, whatever the frontiers say, and refuses
    /// pushes from now on.
    pub fn flush(&mut self) -> (tape: Vec<SequencedFill>)
        requires
            old(self)@.can_flush(),
        ensures
            tape_view(tape@) == old(self)@.ended().drained(false),
            final(self)@ == old(self)@.ended().after_drain(false),
    {
        self.sealed = true;
        proof {
            lemma_drained_len(self@, false);
        }
        self.drain(false)
    }

    /// How many fills are waiting.
    pub fn depth(&self) -> (depth: usize)
        requires
            self@.depth() <= usize::MAX,
        ensures
            depth == self@.depth(),
    {
        self.hl.buffer.len() + self.pm.buffer.len()
    }

    /// Whether nothing that may still arrive on the other lane can sort before a head of `venue`
    /// stamped `recv_ts`.
    fn emittable(&self, venue: Venue, recv_ts: u64) -> (safe: bool)
        ensures
            safe == self@.emittable(venue, recv_ts),
    {
        match venue {
            Venue::Hl => self.pm.frontier >= recv_ts,
            Venue::Pm => self.hl.frontier > recv_ts,
        }
    }

    /// The lane whose head sorts first, and the stamp of that head.
    fn best(&self) -> (best: Option<(Venue, u64)>)
        ensures
            match best {
                Some((venue, recv_ts)) => {
                    &&& first_lane(self@.hl.buffer, self@.pm.buffer) == Some(venue)
                    &&& self@.lane(venue).buffer[0].0 == recv_ts
                },
                None => first_lane(self@.hl.buffer, self@.pm.buffer) is None,
            },
    {
        match (self.hl.head_stamp(), self.pm.head_stamp()) {
            (None, None) => None,
            (Some(hl), None) => Some((Venue::Hl, hl)),
            (None, Some(pm)) => Some((Venue::Pm, pm)),
            (Some(hl), Some(pm)) => if pm < hl {
                Some((Venue::Pm, pm))
            } else {
                Some((Venue::Hl, hl))
            },
        }
    }

    fn drain(&mut self, gated: bool) -> (tape: Vec<SequencedFill>)
        requires
            old(self)@.next_global_seq + old(self)@.drained(gated).len() <= u64::MAX,
        ensures
            tape_view(tape@) == old(self)@.drained(gated),
            final(self)@ == old(self)@.after_drain(gated),
    {
        let mut tape: Vec<SequencedFill> = Vec::new();
        let ghost start = self@;
        assert(tape_view(tape@) + self@.drained(gated) =~= self@.drained(gated));
        loop
            invariant
                start.next_global_seq + start.drained(gated).len() <= u64::MAX,
                start.drained(gated) == tape_view(tape@) + self@.drained(gated),
                start.after_drain(gated) == self@.after_drain(gated),
                self@.next_global_seq == start.next_global_seq + tape.len(),
            ensures
                self@.drained(gated) == Seq::<SequencedFillView>::empty(),
                self@.after_drain(gated) == self@,
            decreases self@.depth(),
        {
            let (venue, recv_ts) = match self.best() {
                Some(best) => best,
                None => {
                    break;
                },
            };
            if gated && !self.emittable(venue, recv_ts) {
                break;
            }
            let ghost before = self@;
            let popped = match venue {
                Venue::Hl => self.hl.pop(),
                Venue::Pm => self.pm.pop(),
            };
            let (recv_ts, fill) = popped.unwrap();
            let global_seq: u64 = self.next_global_seq;
            let ghost written = tape_view(tape@);
            let entry = SequencedFill { global_seq, recv_ts, fill };
            assert(before.drained(gated) == seq![entry@] + before.popped(venue).drained(gated));
            self.next_global_seq = global_seq + 1;
            tape.push(entry);
            assert(self@ =~= before.popped(venue));
            assert(tape_view(tape@) =~= written.push(entry@));
            assert(written + before.drained(gated) =~= tape_view(tape@) + self@.drained(gated));
        }
        assert(tape_view(tape@) + self@.drained(gated) =~= tape_view(tape@));
        tape
    }
}

/// A drain emits no more than what is waiting, and an open gate emits all of it. It moves no
/// frontier and no sequence number of a venue.
pub proof fn lemma_drained_len(s: SequencerView, gated: bool)
    ensures
        s.drained(gated).len() <= s.depth(),
        s.drained(gated).len() + s.after_drain(gated).depth() == s.depth(),
        s.after_drain(gated).next_global_seq == s.next_global_seq + s.drained(gated).len(),
        !gated ==> s.after_drain(gated).depth() == 0,
        s.after_drain(gated).sealed == s.sealed,
        s.after_drain(gated).hl.frontier == s.hl.frontier,
        s.after_drain(gated).pm.frontier == s.pm.frontier,
        s.after_drain(gated).hl.last_seq == s.hl.last_seq,
        s.after_drain(gated).pm.last_seq == s.pm.last_seq,
    decreases s.depth(),
{
    match first_lane(s.hl.buffer, s.pm.buffer) {
        None => {},
        Some(venue) => {
            if !(gated && !s.emittable(venue, s.lane(venue).buffer[0].0)) {
                lemma_drained_len(s.popped(venue), gated);
            }
        },
    }
}

} // verus!
