//! What holds of every tape, whatever the order of calls that wrote it.

use vstd::prelude::*;

use crate::canonical::FillView;
use crate::instrument::Venue;
use crate::sequencer::{
    first_lane, lemma_drained_len, Entry, LaneView, SequencedFillView, SequencerError,
    SequencerView,
};

verus! {

/// Two lanes merged by head: the earlier stamp first, and on a tie the venue of higher priority.
pub open spec fn merged(hl: Seq<Entry>, pm: Seq<Entry>) -> Seq<Entry>
    decreases hl.len() + pm.len(),
{
    match first_lane(hl, pm) {
        None => Seq::empty(),
        Some(Venue::Hl) => seq![hl[0]] + merged(hl.drop_first(), pm),
        Some(Venue::Pm) => seq![pm[0]] + merged(hl, pm.drop_first()),
    }
}

/// What two lanes still hold once `n` heads have been merged away.
pub open spec fn remaining(hl: Seq<Entry>, pm: Seq<Entry>, n: nat) -> (Seq<Entry>, Seq<Entry>)
    decreases n,
{
    if n == 0 {
        (hl, pm)
    } else {
        match first_lane(hl, pm) {
            None => (hl, pm),
            Some(Venue::Hl) => remaining(hl.drop_first(), pm, (n - 1) as nat),
            Some(Venue::Pm) => remaining(hl, pm.drop_first(), (n - 1) as nat),
        }
    }
}

/// Entries as a tape that counts up from `first`.
pub open spec fn numbered(entries: Seq<Entry>, first: int) -> Seq<SequencedFillView> {
    Seq::new(
        entries.len(),
        |i: int|
            SequencedFillView {
                global_seq: first + i,
                recv_ts: entries[i].0,
                fill: entries[i].1,
            },
    )
}

/// A call of one of the sequencer's methods.
pub enum Call {
    Push { venue: Venue, recv_ts: u64, fill: FillView },
    Tick { venue: Venue, now_ts: u64 },
    Drain,
    Flush,
}

/// A sequencer with its history: the tape that it wrote and, by venue, the pushes it took.
pub struct Run {
    pub state: SequencerView,
    pub tape: Seq<SequencedFillView>,
    pub hl: Seq<Entry>,
    pub pm: Seq<Entry>,
}

impl Run {
    /// Before the first call.
    pub open spec fn fresh() -> Run {
        Run {
            state: SequencerView::fresh(),
            tape: Seq::empty(),
            hl: Seq::empty(),
            pm: Seq::empty(),
        }
    }

    /// After one more call.
    pub open spec fn step(self, call: Call) -> Run {
        match call {
            Call::Push { venue, recv_ts, fill } => {
                let taken = self.state.refusal(venue, recv_ts, fill) is None;
                let entry = (recv_ts, fill);
                Run {
                    state: self.state.pushed(venue, recv_ts, fill),
                    hl: if taken && venue == Venue::Hl {
                        self.hl.push(entry)
                    } else {
                        self.hl
                    },
                    pm: if taken && venue == Venue::Pm {
                        self.pm.push(entry)
                    } else {
                        self.pm
                    },
                    ..self
                }
            },
            Call::Tick { venue, now_ts } => Run { state: self.state.ticked(venue, now_ts), ..self },
            Call::Drain => Run {
                state: self.state.after_drain(true),
                tape: self.tape + self.state.drained(true),
                ..self
            },
            Call::Flush => Run {
                state: self.state.ended().after_drain(false),
                tape: self.tape + self.state.ended().drained(false),
                ..self
            },
        }
    }

    /// A fresh sequencer after any calls at all.
    pub open spec fn of(calls: Seq<Call>) -> Run
        decreases calls.len(),
    {
        if calls.len() == 0 {
            Run::fresh()
        } else {
            Run::of(calls.drop_last()).step(calls.last())
        }
    }

    /// How the history and the state hang together.
    spec fn coherent(self) -> bool {
        let written = self.tape.len();
        let order = merged(self.hl, self.pm);
        &&& written <= order.len()
        &&& self.state.next_global_seq == written + 1
        &&& self.tape == numbered(order.take(written as int), 1)
        &&& remaining(self.hl, self.pm, written) == (self.state.hl.buffer, self.state.pm.buffer)
        &&& lane_history(self.hl, Venue::Hl, self.state.hl)
        &&& lane_history(self.pm, Venue::Pm, self.state.pm)
        &&& !self.state.sealed ==> forall|k: int|
            0 <= k < written ==> self.state.emittable(order[k].1.venue, (#[trigger] order[k]).0)
    }
}

/// Whether entries are of one venue, in the order of its stamps and of its sequence numbers.
pub open spec fn in_lane_order(entries: Seq<Entry>, venue: Venue) -> bool {
    &&& forall|i: int| 0 <= i < entries.len() ==> (#[trigger] entries[i]).1.venue == venue
    &&& forall|i: int, j: int|
        0 <= i < j < entries.len() ==> (#[trigger] entries[i]).0 <= (#[trigger] entries[j]).0
            && entries[i].1.seq < entries[j].1.seq
}

spec fn lane_history(entries: Seq<Entry>, venue: Venue, lane: LaneView) -> bool {
    &&& in_lane_order(entries, venue)
    &&& forall|i: int|
        0 <= i < entries.len() ==> (#[trigger] entries[i]).0 <= lane.frontier
            && lane.last_seq is Some && entries[i].1.seq <= lane.last_seq->0
}

/// Whether `a` comes before `b` on every tape that holds both: by stamp, on a tie by the
/// priority of the venues, and within a venue by sequence number.
pub open spec fn comes_before(a: Entry, b: Entry) -> bool {
    if a.1.venue == b.1.venue {
        a.0 <= b.0 && a.1.seq < b.1.seq
    } else {
        a.0 < b.0 || (a.0 == b.0 && a.1.venue == Venue::Hl)
    }
}

proof fn lemma_merged_len(hl: Seq<Entry>, pm: Seq<Entry>)
    ensures
        merged(hl, pm).len() == hl.len() + pm.len(),
    decreases hl.len() + pm.len(),
{
    match first_lane(hl, pm) {
        None => {},
        Some(Venue::Hl) => lemma_merged_len(hl.drop_first(), pm),
        Some(Venue::Pm) => lemma_merged_len(hl, pm.drop_first()),
    }
}

/// Merging what remains gives the rest of the merge, and what remains can be merged on.
proof fn lemma_remaining(hl: Seq<Entry>, pm: Seq<Entry>, n: nat, m: nat)
    requires
        n + m <= hl.len() + pm.len(),
    ensures
        ({
            let (rest_hl, rest_pm) = remaining(hl, pm, n);
            &&& merged(rest_hl, rest_pm) == merged(hl, pm).skip(n as int)
            &&& remaining(rest_hl, rest_pm, m) == remaining(hl, pm, n + m)
        }),
    decreases n,
{
    if n == 0 {
        assert(merged(hl, pm).skip(0) =~= merged(hl, pm));
    } else {
        lemma_merged_len(hl, pm);
        match first_lane(hl, pm) {
            None => {},
            Some(Venue::Hl) => {
                lemma_remaining(hl.drop_first(), pm, (n - 1) as nat, m);
                assert(merged(hl, pm).skip(n as int) =~= merged(hl.drop_first(), pm).skip(n - 1));
            },
            Some(Venue::Pm) => {
                lemma_remaining(hl, pm.drop_first(), (n - 1) as nat, m);
                assert(merged(hl, pm).skip(n as int) =~= merged(hl, pm.drop_first()).skip(n - 1));
            },
        }
    }
}

/// A late entry of the first lane leaves the start of a merge alone, if what the second lane
/// put there is stamped before it.
proof fn lemma_late_hl(hl: Seq<Entry>, pm: Seq<Entry>, late: Entry, n: nat)
    requires
        n <= hl.len() + pm.len(),
        forall|i: int| 0 <= i < pm.len() ==> (#[trigger] pm[i]).1.venue == Venue::Pm,
        forall|k: int|
            0 <= k < n && (#[trigger] merged(hl, pm)[k]).1.venue == Venue::Pm ==> merged(
                hl,
                pm,
            )[k].0 < late.0,
    ensures
        merged(hl.push(late), pm).take(n as int) == merged(hl, pm).take(n as int),
        remaining(hl.push(late), pm, n) == (
            remaining(hl, pm, n).0.push(late),
            remaining(hl, pm, n).1,
        ),
    decreases n,
{
    lemma_merged_len(hl, pm);
    lemma_merged_len(hl.push(late), pm);
    let whole = merged(hl, pm);
    let longer = merged(hl.push(late), pm);
    if n == 0 {
        assert(longer.take(0) =~= whole.take(0));
    } else if first_lane(hl, pm) == Some(Venue::Hl) {
        assert(first_lane(hl.push(late), pm) == Some(Venue::Hl));
        assert(hl.push(late).drop_first() =~= hl.drop_first().push(late));
        let rest = merged(hl.drop_first(), pm);
        assert forall|k: int| 0 <= k < n - 1 && (#[trigger] rest[k]).1.venue == Venue::Pm implies
            rest[k].0 < late.0 by {
            assert(whole[k + 1] == rest[k]);
        }
        lemma_late_hl(hl.drop_first(), pm, late, (n - 1) as nat);
        let longer_rest = merged(hl.drop_first().push(late), pm);
        assert(longer =~= seq![hl[0]] + longer_rest);
        assert forall|k: int| 0 <= k < n implies longer[k] == whole[k] by {
            if k > 0 {
                assert(longer_rest.take(n - 1)[k - 1] == rest.take(n - 1)[k - 1]);
            }
        }
        assert(longer.take(n as int) =~= whole.take(n as int));
    } else {
        assert(whole[0] == pm[0]);
        assert(first_lane(hl.push(late), pm) == Some(Venue::Pm));
        let rest = merged(hl, pm.drop_first());
        assert forall|k: int| 0 <= k < n - 1 && (#[trigger] rest[k]).1.venue == Venue::Pm implies
            rest[k].0 < late.0 by {
            assert(whole[k + 1] == rest[k]);
        }
        lemma_late_hl(hl, pm.drop_first(), late, (n - 1) as nat);
        let longer_rest = merged(hl.push(late), pm.drop_first());
        assert forall|k: int| 0 <= k < n implies longer[k] == whole[k] by {
            if k > 0 {
                assert(longer_rest.take(n - 1)[k - 1] == rest.take(n - 1)[k - 1]);
            }
        }
        assert(longer.take(n as int) =~= whole.take(n as int));
    }
}

/// A late entry of the second lane leaves the start of a merge alone, if what the first lane put
/// there is not stamped after it.
proof fn lemma_late_pm(hl: Seq<Entry>, pm: Seq<Entry>, late: Entry, n: nat)
    requires
        n <= hl.len() + pm.len(),
        forall|i: int| 0 <= i < hl.len() ==> (#[trigger] hl[i]).1.venue == Venue::Hl,
        forall|k: int|
            0 <= k < n && (#[trigger] merged(hl, pm)[k]).1.venue == Venue::Hl ==> merged(
                hl,
                pm,
            )[k].0 <= late.0,
    ensures
        merged(hl, pm.push(late)).take(n as int) == merged(hl, pm).take(n as int),
        remaining(hl, pm.push(late), n) == (
            remaining(hl, pm, n).0,
            remaining(hl, pm, n).1.push(late),
        ),
    decreases n,
{
    lemma_merged_len(hl, pm);
    lemma_merged_len(hl, pm.push(late));
    let whole = merged(hl, pm);
    let longer = merged(hl, pm.push(late));
    if n == 0 {
        assert(longer.take(0) =~= whole.take(0));
    } else if first_lane(hl, pm) == Some(Venue::Pm) {
        assert(first_lane(hl, pm.push(late)) == Some(Venue::Pm));
        assert(pm.push(late).drop_first() =~= pm.drop_first().push(late));
        let rest = merged(hl, pm.drop_first());
        assert forall|k: int| 0 <= k < n - 1 && (#[trigger] rest[k]).1.venue == Venue::Hl implies
            rest[k].0 <= late.0 by {
            assert(whole[k + 1] == rest[k]);
        }
        lemma_late_pm(hl, pm.drop_first(), late, (n - 1) as nat);
        let longer_rest = merged(hl, pm.drop_first().push(late));
        assert(longer =~= seq![pm[0]] + longer_rest);
        assert forall|k: int| 0 <= k < n implies longer[k] == whole[k] by {
            if k > 0 {
                assert(longer_rest.take(n - 1)[k - 1] == rest.take(n - 1)[k - 1]);
            }
        }
        assert(longer.take(n as int) =~= whole.take(n as int));
    } else {
        assert(whole[0] == hl[0]);
        assert(first_lane(hl, pm.push(late)) == Some(Venue::Hl));
        let rest = merged(hl.drop_first(), pm);
        assert forall|k: int| 0 <= k < n - 1 && (#[trigger] rest[k]).1.venue == Venue::Hl implies
            rest[k].0 <= late.0 by {
            assert(whole[k + 1] == rest[k]);
        }
        lemma_late_pm(hl.drop_first(), pm, late, (n - 1) as nat);
        let longer_rest = merged(hl.drop_first(), pm.push(late));
        assert forall|k: int| 0 <= k < n implies longer[k] == whole[k] by {
            if k > 0 {
                assert(longer_rest.take(n - 1)[k - 1] == rest.take(n - 1)[k - 1]);
            }
        }
        assert(longer.take(n as int) =~= whole.take(n as int));
    }
}

/// A drain numbers the start of the merge of what is waiting; a gated one only what is safe.
proof fn lemma_drain(s: SequencerView, gated: bool)
    requires
        forall|i: int| 0 <= i < s.hl.buffer.len() ==> (#[trigger] s.hl.buffer[i]).1.venue
            == Venue::Hl,
        forall|i: int| 0 <= i < s.pm.buffer.len() ==> (#[trigger] s.pm.buffer[i]).1.venue
            == Venue::Pm,
    ensures
        ({
            let order = merged(s.hl.buffer, s.pm.buffer);
            let count = s.drained(gated).len();
            let end = s.after_drain(gated);
            &&& count <= order.len()
            &&& s.drained(gated) == numbered(order.take(count as int), s.next_global_seq)
            &&& (end.hl.buffer, end.pm.buffer) == remaining(s.hl.buffer, s.pm.buffer, count)
            &&& end.next_global_seq == s.next_global_seq + count
            &&& end.sealed == s.sealed
            &&& end.hl.frontier == s.hl.frontier && end.hl.last_seq == s.hl.last_seq
            &&& end.pm.frontier == s.pm.frontier && end.pm.last_seq == s.pm.last_seq
            &&& !gated ==> count == order.len()
            &&& gated ==> forall|k: int|
                0 <= k < count ==> s.emittable(order[k].1.venue, (#[trigger] order[k]).0)
        }),
    decreases s.depth(),
{
    let order = merged(s.hl.buffer, s.pm.buffer);
    lemma_merged_len(s.hl.buffer, s.pm.buffer);
    match first_lane(s.hl.buffer, s.pm.buffer) {
        None => {
            assert(numbered(order.take(0), s.next_global_seq) =~= Seq::empty());
        },
        Some(venue) => {
            let head = s.lane(venue).buffer[0];
            if gated && !s.emittable(venue, head.0) {
                assert(numbered(order.take(0), s.next_global_seq) =~= Seq::empty());
            } else {
                let next = s.popped(venue);
                lemma_drain(next, gated);
                let rest = merged(next.hl.buffer, next.pm.buffer);
                let count = s.drained(gated).len();
                assert(order =~= seq![head] + rest);
                assert(s.drained(gated) =~= numbered(order.take(count as int), s.next_global_seq));
                if gated {
                    assert forall|k: int| 0 <= k < count implies s.emittable(
                        order[k].1.venue,
                        (#[trigger] order[k]).0,
                    ) by {
                        if k > 0 {
                            assert(next.emittable(rest[k - 1].1.venue, rest[k - 1].0));
                        }
                    }
                }
            }
        },
    }
}

/// What remains of a lane is the end of it.
proof fn lemma_remaining_is_a_suffix(hl: Seq<Entry>, pm: Seq<Entry>, n: nat)
    ensures
        remaining(hl, pm, n).0.is_suffix_of(hl),
        remaining(hl, pm, n).1.is_suffix_of(pm),
    decreases n,
{
    assert(hl.skip(0) =~= hl);
    assert(pm.skip(0) =~= pm);
    if n > 0 {
        match first_lane(hl, pm) {
            None => {},
            Some(Venue::Hl) => {
                lemma_remaining_is_a_suffix(hl.drop_first(), pm, (n - 1) as nat);
                let rest = remaining(hl, pm, n).0;
                assert forall|i: int| 0 <= i < rest.len() implies rest[i] == hl[hl.len()
                    - rest.len() + i] by {
                    assert(hl.drop_first()[hl.drop_first().len() - rest.len() + i] == hl[hl.len()
                        - rest.len() + i]);
                }
                assert(rest =~= hl.subrange(hl.len() - rest.len(), hl.len() as int));
            },
            Some(Venue::Pm) => {
                lemma_remaining_is_a_suffix(hl, pm.drop_first(), (n - 1) as nat);
                let rest = remaining(hl, pm, n).1;
                assert forall|i: int| 0 <= i < rest.len() implies rest[i] == pm[pm.len()
                    - rest.len() + i] by {
                    assert(pm.drop_first()[pm.drop_first().len() - rest.len() + i] == pm[pm.len()
                        - rest.len() + i]);
                }
                assert(rest =~= pm.subrange(pm.len() - rest.len(), pm.len() as int));
            },
        }
    }
}

proof fn lemma_waiting_venues(run: Run)
    requires
        run.coherent(),
    ensures
        forall|i: int|
            0 <= i < run.state.hl.buffer.len() ==> (#[trigger] run.state.hl.buffer[i]).1.venue
                == Venue::Hl,
        forall|i: int|
            0 <= i < run.state.pm.buffer.len() ==> (#[trigger] run.state.pm.buffer[i]).1.venue
                == Venue::Pm,
{
    lemma_remaining_is_a_suffix(run.hl, run.pm, run.tape.len());
    let (hl, pm) = remaining(run.hl, run.pm, run.tape.len());
    assert forall|i: int| 0 <= i < hl.len() implies (#[trigger] hl[i]).1.venue == Venue::Hl by {
        assert(hl[i] == run.hl[run.hl.len() - hl.len() + i]);
    }
    assert forall|i: int| 0 <= i < pm.len() implies (#[trigger] pm[i]).1.venue == Venue::Pm by {
        assert(pm[i] == run.pm[run.pm.len() - pm.len() + i]);
    }
}

proof fn lemma_push_keeps_coherence(run: Run, venue: Venue, recv_ts: u64, fill: FillView)
    requires
        run.coherent(),
    ensures
        run.step(Call::Push { venue, recv_ts, fill }).coherent(),
{
    if run.state.refusal(venue, recv_ts, fill) is None {
        let next = run.step(Call::Push { venue, recv_ts, fill });
        let late = (recv_ts, fill);
        let written = run.tape.len();
        let order = merged(run.hl, run.pm);
        lemma_merged_len(run.hl, run.pm);
        lemma_merged_len(next.hl, next.pm);
        assert forall|k: int| 0 <= k < written && (#[trigger] order[k]).1.venue
            != venue implies order[k].0 <= recv_ts && (venue == Venue::Hl ==> order[k].0
            < recv_ts) by {
            assert(run.state.emittable(order[k].1.venue, order[k].0));
        }
        match venue {
            Venue::Hl => lemma_late_hl(run.hl, run.pm, late, written),
            Venue::Pm => lemma_late_pm(run.hl, run.pm, late, written),
        }
        let longer = merged(next.hl, next.pm);
        assert forall|k: int| 0 <= k < written implies next.state.emittable(
            longer[k].1.venue,
            (#[trigger] longer[k]).0,
        ) by {
            assert(longer.take(written as int)[k] == order.take(written as int)[k]);
            assert(run.state.emittable(order[k].1.venue, order[k].0));
        }
    }
}

proof fn lemma_drain_keeps_coherence(run: Run, state: SequencerView, gated: bool)
    requires
        run.coherent(),
        state == (SequencerView { sealed: state.sealed, ..run.state }),
        gated ==> state.sealed == run.state.sealed,
        !gated ==> state.sealed,
    ensures
        (Run {
            state: state.after_drain(gated),
            tape: run.tape + state.drained(gated),
            ..run
        }).coherent(),
{
    let written = run.tape.len();
    let order = merged(run.hl, run.pm);
    let count = state.drained(gated).len();
    lemma_merged_len(run.hl, run.pm);
    lemma_merged_len(state.hl.buffer, state.pm.buffer);
    lemma_waiting_venues(run);
    lemma_drain(state, gated);
    lemma_remaining(run.hl, run.pm, written, 0);
    assert(merged(state.hl.buffer, state.pm.buffer) == order.skip(written as int));
    lemma_remaining(run.hl, run.pm, written, count);
    let end = Run { state: state.after_drain(gated), tape: run.tape + state.drained(gated), ..run };
    assert(end.tape =~= numbered(order.take((written + count) as int), 1));
    if !end.state.sealed {
        let waiting = merged(state.hl.buffer, state.pm.buffer);
        assert forall|k: int| 0 <= k < written + count implies end.state.emittable(
            order[k].1.venue,
            (#[trigger] order[k]).0,
        ) by {
            if k >= written {
                assert(waiting[k - written] == order[k]);
                assert(state.emittable(waiting[k - written].1.venue, waiting[k - written].0));
            } else {
                assert(run.state.emittable(order[k].1.venue, order[k].0));
            }
        }
    }
}

proof fn lemma_coherent(calls: Seq<Call>)
    ensures
        Run::of(calls).coherent(),
    decreases calls.len(),
{
    if calls.len() == 0 {
        assert(Run::fresh().tape =~= numbered(merged(Seq::empty(), Seq::empty()).take(0), 1));
    } else {
        let before = Run::of(calls.drop_last());
        lemma_coherent(calls.drop_last());
        match calls.last() {
            Call::Push { venue, recv_ts, fill } => {
                lemma_push_keeps_coherence(before, venue, recv_ts, fill);
            },
            Call::Tick { venue, now_ts } => {
                let next = before.step(calls.last());
                let order = merged(before.hl, before.pm);
                if !next.state.sealed {
                    assert forall|k: int| 0 <= k < before.tape.len() implies next.state.emittable(
                        order[k].1.venue,
                        (#[trigger] order[k]).0,
                    ) by {
                        assert(before.state.emittable(order[k].1.venue, order[k].0));
                    }
                }
                assert(next.coherent());
            },
            Call::Drain => lemma_drain_keeps_coherence(before, before.state, true),
            Call::Flush => lemma_drain_keeps_coherence(before, before.state.ended(), false),
        }
    }
}

/// What is written and what is still waiting is together the merge of all the pushes that were
/// taken, numbered from one: what is on the tape never changes, nothing is lost, and nothing that
/// arrives later sorts before it.
pub proof fn law_tape_is_the_merge(calls: Seq<Call>)
    ensures
        Run::of(calls).step(Call::Flush).tape == numbered(
            merged(Run::of(calls).hl, Run::of(calls).pm),
            1,
        ),
        Run::of(calls).tape.is_prefix_of(Run::of(calls).step(Call::Flush).tape),
        Run::of(calls).tape.len() + Run::of(calls).state.depth() == Run::of(calls).hl.len()
            + Run::of(calls).pm.len(),
{
    let run = Run::of(calls);
    let written = run.tape.len();
    let end = run.step(Call::Flush);
    let order = merged(run.hl, run.pm);
    lemma_coherent(calls);
    lemma_merged_len(run.hl, run.pm);
    lemma_drain_keeps_coherence(run, run.state.ended(), false);
    lemma_waiting_venues(run);
    lemma_drain(run.state.ended(), false);
    lemma_remaining(run.hl, run.pm, written, 0);
    lemma_merged_len(run.state.hl.buffer, run.state.pm.buffer);
    assert(order.take(order.len() as int) =~= order);
    assert(run.tape =~= end.tape.subrange(0, written as int));
}

/// The tape depends on what each venue pushed and on nothing else: not on how the pushes of the
/// two venues interleave, nor on when the venues tick, nor on how often the tape is drained.
pub proof fn law_tape_is_deterministic(calls: Seq<Call>, others: Seq<Call>)
    requires
        Run::of(calls).hl == Run::of(others).hl,
        Run::of(calls).pm == Run::of(others).pm,
    ensures
        Run::of(calls).step(Call::Flush).tape == Run::of(others).step(Call::Flush).tape,
{
    law_tape_is_the_merge(calls);
    law_tape_is_the_merge(others);
}

/// Every call leaves what is on the tape as it stands, and adds to its end.
pub proof fn law_tape_only_grows(calls: Seq<Call>, call: Call)
    ensures
        Run::of(calls).tape.is_prefix_of(Run::of(calls).step(call).tape),
{
    let before = Run::of(calls).tape;
    assert(before =~= Run::of(calls).step(call).tape.subrange(0, before.len() as int));
}

/// An entry that comes before all of two lanes comes before all of their merge.
proof fn lemma_before_merged(entry: Entry, hl: Seq<Entry>, pm: Seq<Entry>)
    requires
        forall|i: int| 0 <= i < hl.len() ==> comes_before(entry, #[trigger] hl[i]),
        forall|i: int| 0 <= i < pm.len() ==> comes_before(entry, #[trigger] pm[i]),
    ensures
        forall|k: int|
            0 <= k < merged(hl, pm).len() ==> comes_before(entry, #[trigger] merged(hl, pm)[k]),
    decreases hl.len() + pm.len(),
{
    let order = merged(hl, pm);
    match first_lane(hl, pm) {
        None => {},
        Some(Venue::Hl) => {
            lemma_before_merged(entry, hl.drop_first(), pm);
            assert forall|k: int| 0 <= k < order.len() implies comes_before(
                entry,
                #[trigger] order[k],
            ) by {
                if k > 0 {
                    assert(order[k] == merged(hl.drop_first(), pm)[k - 1]);
                }
            }
        },
        Some(Venue::Pm) => {
            lemma_before_merged(entry, hl, pm.drop_first());
            assert forall|k: int| 0 <= k < order.len() implies comes_before(
                entry,
                #[trigger] order[k],
            ) by {
                if k > 0 {
                    assert(order[k] == merged(hl, pm.drop_first())[k - 1]);
                }
            }
        },
    }
}

proof fn lemma_merged_in_order(hl: Seq<Entry>, pm: Seq<Entry>)
    requires
        in_lane_order(hl, Venue::Hl),
        in_lane_order(pm, Venue::Pm),
    ensures
        forall|i: int, j: int|
            0 <= i < j < merged(hl, pm).len() ==> comes_before(
                #[trigger] merged(hl, pm)[i],
                #[trigger] merged(hl, pm)[j],
            ),
    decreases hl.len() + pm.len(),
{
    let order = merged(hl, pm);
    match first_lane(hl, pm) {
        None => {},
        Some(venue) => {
            let (rest_hl, rest_pm) = match venue {
                Venue::Hl => (hl.drop_first(), pm),
                Venue::Pm => (hl, pm.drop_first()),
            };
            let rest = merged(rest_hl, rest_pm);
            lemma_merged_in_order(rest_hl, rest_pm);
            lemma_before_merged(order[0], rest_hl, rest_pm);
            assert forall|i: int, j: int| 0 <= i < j < order.len() implies comes_before(
                #[trigger] order[i],
                #[trigger] order[j],
            ) by {
                assert(order[j] == rest[j - 1]);
                if i > 0 {
                    assert(order[i] == rest[i - 1]);
                }
            }
        },
    }
}

/// The tape counts up from one without a gap, its stamps never go back, and any two of its fills
/// stand in sort order: on a tie by the priority of the venues, within a venue by sequence number.
pub proof fn law_tape_is_in_order(calls: Seq<Call>)
    ensures
        forall|i: int|
            0 <= i < Run::of(calls).tape.len() ==> (#[trigger] Run::of(calls).tape[i]).global_seq
                == i + 1,
        forall|i: int, j: int|
            0 <= i < j < Run::of(calls).tape.len() ==> {
                let a = #[trigger] Run::of(calls).tape[i];
                let b = #[trigger] Run::of(calls).tape[j];
                a.recv_ts <= b.recv_ts && comes_before((a.recv_ts, a.fill), (b.recv_ts, b.fill))
            },
{
    let run = Run::of(calls);
    lemma_coherent(calls);
    lemma_merged_in_order(run.hl, run.pm);
}

/// Two fills of different lanes or numbers never tie: the sort key tells any two entries of a
/// tape apart.
pub proof fn law_sort_key_is_unique(calls: Seq<Call>, i: int, j: int)
    requires
        0 <= i < Run::of(calls).tape.len(),
        0 <= j < Run::of(calls).tape.len(),
        Run::of(calls).tape[i].recv_ts == Run::of(calls).tape[j].recv_ts,
        Run::of(calls).tape[i].fill.venue == Run::of(calls).tape[j].fill.venue,
        Run::of(calls).tape[i].fill.seq == Run::of(calls).tape[j].fill.seq,
    ensures
        i == j,
{
    law_tape_is_in_order(calls);
}

/// Whether an entry is of a venue.
pub open spec fn of_venue(venue: Venue) -> spec_fn(Entry) -> bool {
    |entry: Entry| entry.1.venue == venue
}

proof fn lemma_filter_all(entries: Seq<Entry>, venue: Venue, other: Venue)
    requires
        forall|i: int| 0 <= i < entries.len() ==> (#[trigger] entries[i]).1.venue == venue,
    ensures
        entries.filter(of_venue(other)) == (if venue == other {
            entries
        } else {
            Seq::empty()
        }),
    decreases entries.len(),
{
    reveal(Seq::filter);
    if entries.len() > 0 {
        lemma_filter_all(entries.drop_last(), venue, other);
        assert(entries.last() == entries[entries.len() - 1]);
        assert(entries.drop_last().push(entries.last()) =~= entries);
    } else {
        assert(entries =~= Seq::empty());
    }
}

proof fn lemma_filter_first(entry: Entry, rest: Seq<Entry>, venue: Venue)
    ensures
        (seq![entry] + rest).filter(of_venue(venue)) == (if entry.1.venue == venue {
            seq![entry] + rest.filter(of_venue(venue))
        } else {
            rest.filter(of_venue(venue))
        }),
{
    lemma_filter_all(seq![entry], entry.1.venue, venue);
    Seq::filter_distributes_over_add(seq![entry], rest, of_venue(venue));
    assert(Seq::<Entry>::empty() + rest.filter(of_venue(venue)) =~= rest.filter(of_venue(venue)));
}

/// A merge holds each lane whole and in its own order.
pub proof fn law_merge_keeps_each_lane(hl: Seq<Entry>, pm: Seq<Entry>)
    requires
        forall|i: int| 0 <= i < hl.len() ==> (#[trigger] hl[i]).1.venue == Venue::Hl,
        forall|i: int| 0 <= i < pm.len() ==> (#[trigger] pm[i]).1.venue == Venue::Pm,
    ensures
        merged(hl, pm).filter(of_venue(Venue::Hl)) == hl,
        merged(hl, pm).filter(of_venue(Venue::Pm)) == pm,
    decreases hl.len() + pm.len(),
{
    match first_lane(hl, pm) {
        None => {
            reveal(Seq::filter);
            assert(hl =~= Seq::empty());
            assert(pm =~= Seq::empty());
        },
        Some(Venue::Hl) => {
            let rest = hl.drop_first();
            law_merge_keeps_each_lane(rest, pm);
            lemma_filter_first(hl[0], merged(rest, pm), Venue::Hl);
            lemma_filter_first(hl[0], merged(rest, pm), Venue::Pm);
            assert(seq![hl[0]] + rest =~= hl);
        },
        Some(Venue::Pm) => {
            let rest = pm.drop_first();
            law_merge_keeps_each_lane(hl, rest);
            lemma_filter_first(pm[0], merged(hl, rest), Venue::Hl);
            lemma_filter_first(pm[0], merged(hl, rest), Venue::Pm);
            assert(seq![pm[0]] + rest =~= pm);
        },
    }
}

/// The pushes that a sequencer takes are in lane order, so that its tape, flushed, holds the
/// fills of each venue in the order in which that venue pushed them, and loses none.
pub proof fn law_pushes_are_in_lane_order(calls: Seq<Call>)
    ensures
        in_lane_order(Run::of(calls).hl, Venue::Hl),
        in_lane_order(Run::of(calls).pm, Venue::Pm),
        merged(Run::of(calls).hl, Run::of(calls).pm).filter(of_venue(Venue::Hl)) == Run::of(
            calls,
        ).hl,
        merged(Run::of(calls).hl, Run::of(calls).pm).filter(of_venue(Venue::Pm)) == Run::of(
            calls,
        ).pm,
{
    lemma_coherent(calls);
    law_merge_keeps_each_lane(Run::of(calls).hl, Run::of(calls).pm);
}

/// Nothing waits for ever: once both venues are known to have passed every stamp that is
/// waiting, a drain empties the lanes.
pub proof fn law_drain_is_live(s: SequencerView)
    requires
        forall|i: int|
            0 <= i < s.hl.buffer.len() ==> (#[trigger] s.hl.buffer[i]).0 <= s.pm.frontier,
        forall|i: int|
            0 <= i < s.pm.buffer.len() ==> (#[trigger] s.pm.buffer[i]).0 < s.hl.frontier,
    ensures
        s.after_drain(true).depth() == 0,
        s.drained(true) == s.drained(false),
    decreases s.depth(),
{
    match first_lane(s.hl.buffer, s.pm.buffer) {
        None => {},
        Some(venue) => {
            let head = s.lane(venue).buffer[0];
            assert(s.emittable(venue, head.0));
            law_drain_is_live(s.popped(venue));
        },
    }
}

/// The watermark holds: after a drain, the next head of the tape is one that an arrival on the
/// other lane could still sort before.
pub proof fn law_drain_stops_at_the_watermark(s: SequencerView)
    ensures
        ({
            let end = s.after_drain(true);
            match first_lane(end.hl.buffer, end.pm.buffer) {
                None => true,
                Some(venue) => !end.emittable(venue, end.lane(venue).buffer[0].0),
            }
        }),
        s.after_drain(true).drained(true) == Seq::<SequencedFillView>::empty(),
    decreases s.depth(),
{
    match first_lane(s.hl.buffer, s.pm.buffer) {
        None => {},
        Some(venue) => {
            if s.emittable(venue, s.lane(venue).buffer[0].0) {
                law_drain_stops_at_the_watermark(s.popped(venue));
            }
        },
    }
}

/// A fill is on the tape only once nothing that the sequencer would still take can sort before
/// it.
pub proof fn law_watermark_is_safe(
    calls: Seq<Call>,
    i: int,
    venue: Venue,
    recv_ts: u64,
    fill: FillView,
)
    requires
        0 <= i < Run::of(calls).tape.len(),
        Run::of(calls).state.refusal(venue, recv_ts, fill) is None,
    ensures
        comes_before(
            (Run::of(calls).tape[i].recv_ts, Run::of(calls).tape[i].fill),
            (recv_ts, fill),
        ),
{
    let run = Run::of(calls);
    let order = merged(run.hl, run.pm);
    lemma_coherent(calls);
    assert(run.state.emittable(order[i].1.venue, order[i].0));
    lemma_entry_is_of_a_lane(run.hl, run.pm, i);
}

/// Each entry of a merge is an entry of the lane of its venue.
pub proof fn lemma_entry_is_of_a_lane(hl: Seq<Entry>, pm: Seq<Entry>, k: int)
    requires
        0 <= k < merged(hl, pm).len(),
    ensures
        hl.contains(merged(hl, pm)[k]) || pm.contains(merged(hl, pm)[k]),
    decreases hl.len() + pm.len(),
{
    match first_lane(hl, pm) {
        None => {},
        Some(Venue::Hl) => {
            if k > 0 {
                lemma_entry_is_of_a_lane(hl.drop_first(), pm, k - 1);
                let entry = merged(hl.drop_first(), pm)[k - 1];
                if hl.drop_first().contains(entry) {
                    let i = hl.drop_first().index_of(entry);
                    assert(hl[i + 1] == entry);
                }
            } else {
                assert(hl.contains(hl[0]));
            }
        },
        Some(Venue::Pm) => {
            if k > 0 {
                lemma_entry_is_of_a_lane(hl, pm.drop_first(), k - 1);
                let entry = merged(hl, pm.drop_first())[k - 1];
                if pm.drop_first().contains(entry) {
                    let i = pm.drop_first().index_of(entry);
                    assert(pm[i + 1] == entry);
                }
            } else {
                assert(pm.contains(pm[0]));
            }
        },
    }
}

/// Once flushed, a sequencer takes no push, writes nothing more, and stays flushed.
pub proof fn law_flush_is_final(s: SequencerView, call: Call)
    requires
        s.sealed,
        s.depth() == 0,
    ensures
        call matches Call::Push { venue, recv_ts, fill } ==> s.refusal(venue, recv_ts, fill)
            is Some && s.pushed(venue, recv_ts, fill) == s,
        s.drained(true) == Seq::<SequencedFillView>::empty(),
        s.ended().drained(false) == Seq::<SequencedFillView>::empty(),
        s.after_drain(true) == s,
        s.ended().after_drain(false) == s,
        forall|venue: Venue, now_ts: u64|
            #![trigger s.ticked(venue, now_ts)]
            s.ticked(venue, now_ts).sealed && s.ticked(venue, now_ts).depth() == 0,
{
}

/// A flush leaves nothing waiting and the stream ended.
pub proof fn law_flush_empties(s: SequencerView)
    ensures
        s.ended().after_drain(false).sealed,
        s.ended().after_drain(false).depth() == 0,
        s.ended().drained(false).len() == s.depth(),
    decreases s.depth(),
{
    match first_lane(s.hl.buffer, s.pm.buffer) {
        None => {},
        Some(venue) => {
            law_flush_empties(s.popped(venue));
            assert(s.ended().popped(venue) == s.popped(venue).ended());
        },
    }
}

/// Entries with their fills changed and their stamps kept.
pub open spec fn with_fills(entries: Seq<Entry>, change: spec_fn(FillView) -> FillView) -> Seq<
    Entry,
> {
    entries.map_values(|entry: Entry| (entry.0, change(entry.1)))
}

/// What a fill says does not decide where it stands: the order goes by stamp, venue and place in
/// the lane. An exchange's own timestamp, in particular, is never a sort key.
pub proof fn law_order_goes_by_stamps(
    hl: Seq<Entry>,
    pm: Seq<Entry>,
    change: spec_fn(FillView) -> FillView,
)
    ensures
        merged(with_fills(hl, change), with_fills(pm, change)) == with_fills(
            merged(hl, pm),
            change,
        ),
    decreases hl.len() + pm.len(),
{
    let new_hl = with_fills(hl, change);
    let new_pm = with_fills(pm, change);
    match first_lane(hl, pm) {
        None => {
            assert(with_fills(merged(hl, pm), change) =~= Seq::empty());
        },
        Some(Venue::Hl) => {
            law_order_goes_by_stamps(hl.drop_first(), pm, change);
            assert(new_hl.drop_first() =~= with_fills(hl.drop_first(), change));
            assert(merged(new_hl, new_pm) =~= with_fills(merged(hl, pm), change));
        },
        Some(Venue::Pm) => {
            law_order_goes_by_stamps(hl, pm.drop_first(), change);
            assert(new_pm.drop_first() =~= with_fills(pm.drop_first(), change));
            assert(merged(new_hl, new_pm) =~= with_fills(merged(hl, pm), change));
        },
    }
}

/// Ticks alone finish the tape: once both venues have ticked past every stamp that is waiting, a
/// drain gives all that a flush would have given, and leaves nothing for a flush to give.
pub proof fn law_ticks_finish_the_tape(s: SequencerView, now_ts: u64)
    requires
        forall|i: int| 0 <= i < s.hl.buffer.len() ==> (#[trigger] s.hl.buffer[i]).0 < now_ts,
        forall|i: int| 0 <= i < s.pm.buffer.len() ==> (#[trigger] s.pm.buffer[i]).0 < now_ts,
    ensures
        ({
            let ticked = s.ticked(Venue::Hl, now_ts).ticked(Venue::Pm, now_ts);
            let end = ticked.after_drain(true);
            &&& ticked.drained(true) == ticked.drained(false)
            &&& ticked.drained(true).len() == s.depth()
            &&& end.depth() == 0
            &&& end.ended().drained(false) == Seq::<SequencedFillView>::empty()
        }),
{
    let ticked = s.ticked(Venue::Hl, now_ts).ticked(Venue::Pm, now_ts);
    law_drain_is_live(ticked);
    lemma_drained_len(ticked, true);
}

proof fn lemma_waiting_in_lane_order(run: Run)
    requires
        run.coherent(),
    ensures
        in_lane_order(run.state.hl.buffer, Venue::Hl),
        in_lane_order(run.state.pm.buffer, Venue::Pm),
{
    lemma_waiting_venues(run);
    lemma_remaining_is_a_suffix(run.hl, run.pm, run.tape.len());
    let (hl, pm) = remaining(run.hl, run.pm, run.tape.len());
    assert forall|i: int, j: int| 0 <= i < j < hl.len() implies (#[trigger] hl[i]).0 <= (
    #[trigger] hl[j]).0 && hl[i].1.seq < hl[j].1.seq by {
        assert(hl[i] == run.hl[run.hl.len() - hl.len() + i]);
        assert(hl[j] == run.hl[run.hl.len() - hl.len() + j]);
    }
    assert forall|i: int, j: int| 0 <= i < j < pm.len() implies (#[trigger] pm[i]).0 <= (
    #[trigger] pm[j]).0 && pm[i].1.seq < pm[j].1.seq by {
        assert(pm[i] == run.pm[run.pm.len() - pm.len() + i]);
        assert(pm[j] == run.pm[run.pm.len() - pm.len() + j]);
    }
}

/// A flush gives all that is waiting, each fill once, in sort order and numbered on from the last
/// number that was given, whatever the frontiers say. It leaves nothing waiting and the stream
/// ended.
pub proof fn law_flush_gives_the_rest_in_order(calls: Seq<Call>)
    ensures
        ({
            let s = Run::of(calls).state;
            let rest = merged(s.hl.buffer, s.pm.buffer);
            let end = s.ended().after_drain(false);
            &&& s.ended().drained(false) == numbered(
                rest,
                Run::of(calls).tape.len() as int + 1,
            )
            &&& rest.filter(of_venue(Venue::Hl)) == s.hl.buffer
            &&& rest.filter(of_venue(Venue::Pm)) == s.pm.buffer
            &&& forall|i: int, j: int|
                0 <= i < j < rest.len() ==> comes_before(#[trigger] rest[i], #[trigger] rest[j])
            &&& end.sealed && end.depth() == 0
        }),
{
    let run = Run::of(calls);
    let s = run.state;
    let rest = merged(s.hl.buffer, s.pm.buffer);
    lemma_coherent(calls);
    lemma_waiting_in_lane_order(run);
    lemma_drain(s.ended(), false);
    assert(rest.take(rest.len() as int) =~= rest);
    law_merge_keeps_each_lane(s.hl.buffer, s.pm.buffer);
    lemma_merged_in_order(s.hl.buffer, s.pm.buffer);
    law_flush_empties(s);
}

/// The pushes of a venue that were taken.
pub open spec fn taken_of(run: Run, venue: Venue) -> Seq<Entry> {
    match venue {
        Venue::Hl => run.hl,
        Venue::Pm => run.pm,
    }
}

/// Whether a call is a tick of a venue.
pub open spec fn is_tick_of(call: Call, venue: Venue) -> bool {
    call is Tick && call->Tick_venue == venue
}

/// What a lane remembers of its history: the frontier is the latest stamp among its ticks and the
/// pushes that were taken, and the last sequence number is that of the last of those pushes.
spec fn remembers(calls: Seq<Call>, venue: Venue) -> bool {
    let run = Run::of(calls);
    let lane = run.state.lane(venue);
    let taken = taken_of(run, venue);
    &&& forall|i: int|
        0 <= i < calls.len() && is_tick_of(#[trigger] calls[i], venue) ==> calls[i]->now_ts
            <= lane.frontier
    &&& forall|i: int| 0 <= i < taken.len() ==> (#[trigger] taken[i]).0 <= lane.frontier
    &&& lane.frontier > 0 ==> (exists|i: int|
        0 <= i < calls.len() && is_tick_of(#[trigger] calls[i], venue) && calls[i]->now_ts
            == lane.frontier) || (exists|i: int|
        0 <= i < taken.len() && (#[trigger] taken[i]).0 == lane.frontier)
    &&& taken.len() == 0 ==> lane.last_seq is None
    &&& taken.len() > 0 ==> lane.last_seq == Some(taken.last().1.seq)
}

proof fn lemma_remembers(calls: Seq<Call>, venue: Venue)
    ensures
        remembers(calls, venue),
        Run::of(calls).state.sealed <==> exists|i: int|
            0 <= i < calls.len() && #[trigger] calls[i] is Flush,
    decreases calls.len(),
{
    if calls.len() > 0 {
        let shorter = calls.drop_last();
        let call = calls[calls.len() - 1];
        let before = Run::of(shorter);
        let after = Run::of(calls);
        lemma_remembers(shorter, venue);
        lemma_drained_len(before.state, true);
        lemma_drained_len(before.state.ended(), false);
        assert(forall|i: int| 0 <= i < shorter.len() ==> #[trigger] calls[i] == shorter[i]);
        if after.state.sealed {
            if call is Flush {
                assert(calls[calls.len() - 1] is Flush);
            } else {
                let i = choose|i: int| 0 <= i < shorter.len() && #[trigger] shorter[i] is Flush;
                assert(calls[i] is Flush);
            }
        }
        let old_lane = before.state.lane(venue);
        let lane = after.state.lane(venue);
        let taken = taken_of(after, venue);
        let earlier = taken_of(before, venue);
        assert(forall|i: int| 0 <= i < earlier.len() ==> #[trigger] taken[i] == earlier[i]);
        assert(forall|i: int|
            0 <= i < shorter.len() && is_tick_of(#[trigger] calls[i], venue) ==> is_tick_of(
                shorter[i],
                venue,
            ) && calls[i]->now_ts <= old_lane.frontier);
        if lane.frontier > 0 {
            if lane.frontier == old_lane.frontier {
                if exists|i: int|
                    0 <= i < shorter.len() && is_tick_of(#[trigger] shorter[i], venue)
                        && shorter[i]->now_ts == lane.frontier {
                    let i = choose|i: int|
                        0 <= i < shorter.len() && is_tick_of(#[trigger] shorter[i], venue)
                            && shorter[i]->now_ts == lane.frontier;
                    assert(is_tick_of(calls[i], venue));
                } else {
                    let i = choose|i: int|
                        0 <= i < earlier.len() && (#[trigger] earlier[i]).0 == lane.frontier;
                    assert(taken[i].0 == lane.frontier);
                }
            } else if call is Tick {
                assert(is_tick_of(calls[calls.len() - 1], venue));
            } else {
                assert(taken[taken.len() - 1].0 == lane.frontier);
            }
        }
    }
}

/// A push is taken if and only if the stream has not ended, the fill is of the lane's venue, its
/// stamp is not before any tick of the venue or any push of it that was taken, and its sequence
/// number is greater than that of every push of the venue that was taken, however much greater.
pub proof fn law_a_push_is_taken_unless_it_goes_back(
    calls: Seq<Call>,
    venue: Venue,
    recv_ts: u64,
    fill: FillView,
)
    ensures
        ({
            let run = Run::of(calls);
            let taken = taken_of(run, venue);
            run.state.refusal(venue, recv_ts, fill) is None <==> {
                &&& forall|i: int| 0 <= i < calls.len() ==> !(#[trigger] calls[i] is Flush)
                &&& fill.venue == venue
                &&& forall|i: int|
                    0 <= i < calls.len() && is_tick_of(#[trigger] calls[i], venue)
                        ==> calls[i]->now_ts <= recv_ts
                &&& forall|i: int| 0 <= i < taken.len() ==> (#[trigger] taken[i]).0 <= recv_ts
                &&& forall|i: int| 0 <= i < taken.len() ==> (#[trigger] taken[i]).1.seq < fill.seq
            }
        }),
{
    let run = Run::of(calls);
    let taken = taken_of(run, venue);
    let lane = run.state.lane(venue);
    lemma_remembers(calls, venue);
    lemma_coherent(calls);
    if lane.frontier > recv_ts {
        if exists|i: int|
            0 <= i < calls.len() && is_tick_of(#[trigger] calls[i], venue) && calls[i]->now_ts
                == lane.frontier {
            let i = choose|i: int|
                0 <= i < calls.len() && is_tick_of(#[trigger] calls[i], venue) && calls[i]->now_ts
                    == lane.frontier;
            assert(is_tick_of(calls[i], venue));
        } else {
            let i = choose|i: int|
                0 <= i < taken.len() && (#[trigger] taken[i]).0 == lane.frontier;
            assert(taken[i].0 > recv_ts);
        }
    }
    if taken.len() > 0 {
        let last = taken[taken.len() - 1];
        assert(last.1.seq <= lane.last_seq->0);
        if run.state.refusal(venue, recv_ts, fill) is None {
            assert forall|i: int| 0 <= i < taken.len() implies (#[trigger] taken[i]).1.seq
                < fill.seq by {
                assert(taken[i].1.seq <= lane.last_seq->0);
            }
        }
    }
}

/// Why a push is refused: that the stream has ended, then that the fill is of another venue, then
/// that its stamp is before the latest tick or push of the venue, then that its sequence number
/// is not past the last one. The refusal names what it was held against.
pub proof fn law_a_refusal_says_why(
    calls: Seq<Call>,
    venue: Venue,
    recv_ts: u64,
    fill: FillView,
    frontier: u64,
)
    requires
        ({
            let run = Run::of(calls);
            let taken = taken_of(run, venue);
            &&& forall|i: int|
                0 <= i < calls.len() && is_tick_of(#[trigger] calls[i], venue) ==> calls[i]->now_ts
                    <= frontier
            &&& forall|i: int| 0 <= i < taken.len() ==> (#[trigger] taken[i]).0 <= frontier
            &&& frontier > 0 ==> (exists|i: int|
                0 <= i < calls.len() && is_tick_of(#[trigger] calls[i], venue) && calls[i]->now_ts
                    == frontier) || (exists|i: int|
                0 <= i < taken.len() && (#[trigger] taken[i]).0 == frontier)
        }),
    ensures
        ({
            let run = Run::of(calls);
            let taken = taken_of(run, venue);
            let refusal = run.state.refusal(venue, recv_ts, fill);
            if exists|i: int| 0 <= i < calls.len() && #[trigger] calls[i] is Flush {
                refusal == Some(SequencerError::Sealed { venue })
            } else if fill.venue != venue {
                refusal == Some(SequencerError::VenueMismatch { lane: venue, fill: fill.venue })
            } else if recv_ts < frontier {
                refusal == Some(SequencerError::RecvTsWalkback { venue, frontier, recv_ts })
            } else if taken.len() > 0 && fill.seq <= taken.last().1.seq {
                refusal == Some(
                    SequencerError::SeqWalkback {
                        venue,
                        last_seq: taken.last().1.seq,
                        seq: fill.seq,
                    },
                )
            } else {
                refusal is None
            }
        }),
{
    let run = Run::of(calls);
    let taken = taken_of(run, venue);
    let lane = run.state.lane(venue);
    lemma_remembers(calls, venue);
    assert(frontier <= lane.frontier) by {
        if frontier > 0 {
            if exists|i: int|
                0 <= i < calls.len() && is_tick_of(#[trigger] calls[i], venue) && calls[i]->now_ts
                    == frontier {
                let i = choose|i: int|
                    0 <= i < calls.len() && is_tick_of(#[trigger] calls[i], venue)
                        && calls[i]->now_ts == frontier;
                assert(is_tick_of(calls[i], venue));
            } else {
                let i = choose|i: int| 0 <= i < taken.len() && (#[trigger] taken[i]).0 == frontier;
                assert(taken[i].0 <= lane.frontier);
            }
        }
    }
    assert(lane.frontier <= frontier) by {
        if lane.frontier > 0 {
            if exists|i: int|
                0 <= i < calls.len() && is_tick_of(#[trigger] calls[i], venue) && calls[i]->now_ts
                    == lane.frontier {
                let i = choose|i: int|
                    0 <= i < calls.len() && is_tick_of(#[trigger] calls[i], venue)
                        && calls[i]->now_ts == lane.frontier;
                assert(is_tick_of(calls[i], venue));
            } else {
                let i = choose|i: int|
                    0 <= i < taken.len() && (#[trigger] taken[i]).0 == lane.frontier;
                assert(taken[i].0 <= frontier);
            }
        }
    }
}

/// A push that is taken goes to the end of its venue's lane with its stamp, and moves the venue
/// up to it. A push that is refused changes nothing, and neither touches the other lane, the
/// numbers of the tape or the end of the stream.
pub proof fn law_a_push_goes_to_the_end_of_its_lane(
    s: SequencerView,
    venue: Venue,
    other: Venue,
    recv_ts: u64,
    fill: FillView,
)
    requires
        other != venue,
    ensures
        ({
            let next = s.pushed(venue, recv_ts, fill);
            let lane = next.lane(venue);
            &&& s.refusal(venue, recv_ts, fill) is Some ==> next == s
            &&& s.refusal(venue, recv_ts, fill) is None ==> {
                &&& lane.buffer == s.lane(venue).buffer.push((recv_ts, fill))
                &&& lane.frontier == recv_ts
                &&& lane.last_seq == Some(fill.seq)
            }
            &&& next.lane(other) == s.lane(other)
            &&& next.next_global_seq == s.next_global_seq
            &&& next.sealed == s.sealed
        }),
{
}

/// A tick moves a venue up to a stamp and never back, and touches nothing else.
pub proof fn law_a_tick_moves_a_venue_up(
    s: SequencerView,
    venue: Venue,
    other: Venue,
    now_ts: u64,
)
    requires
        other != venue,
    ensures
        ({
            let next = s.ticked(venue, now_ts);
            let old_lane = s.lane(venue);
            let lane = next.lane(venue);
            &&& old_lane.frontier <= now_ts ==> lane.frontier == now_ts
            &&& old_lane.frontier > now_ts ==> lane.frontier == old_lane.frontier
            &&& lane.buffer == old_lane.buffer
            &&& lane.last_seq == old_lane.last_seq
            &&& next.lane(other) == s.lane(other)
            &&& next.next_global_seq == s.next_global_seq
            &&& next.sealed == s.sealed
        }),
{
}

/// Flushed, a tape holds every push that was taken, with its stamp, each once and in the order of
/// its venue, and counts up from one.
pub proof fn law_tape_holds_every_push(calls: Seq<Call>)
    ensures
        ({
            let run = Run::of(calls);
            let tape = run.step(Call::Flush).tape;
            let entries = tape.map_values(|entry: SequencedFillView| (entry.recv_ts, entry.fill));
            &&& tape.len() == run.hl.len() + run.pm.len()
            &&& forall|i: int| 0 <= i < tape.len() ==> (#[trigger] tape[i]).global_seq == i + 1
            &&& entries.filter(|entry: Entry| entry.1.venue == Venue::Hl) == run.hl
            &&& entries.filter(|entry: Entry| entry.1.venue == Venue::Pm) == run.pm
        }),
{
    let run = Run::of(calls);
    let tape = run.step(Call::Flush).tape;
    let entries = tape.map_values(|entry: SequencedFillView| (entry.recv_ts, entry.fill));
    law_tape_is_the_merge(calls);
    law_pushes_are_in_lane_order(calls);
    lemma_merged_len(run.hl, run.pm);
    assert(entries =~= merged(run.hl, run.pm));
    assert(of_venue(Venue::Hl) =~= (|entry: Entry| entry.1.venue == Venue::Hl));
    assert(of_venue(Venue::Pm) =~= (|entry: Entry| entry.1.venue == Venue::Pm));
}

/// A drain gives all that is safe and nothing that is not. What it gives, the other venue has
/// reached, and has passed where a tie from it would sort first. It stops at the first fill of
/// which that does not hold.
pub proof fn law_a_drain_gives_just_what_is_safe(calls: Seq<Call>)
    ensures
        ({
            let s = Run::of(calls).state;
            let given = s.drained(true);
            let end = s.after_drain(true);
            let hl = end.hl.buffer;
            let pm = end.pm.buffer;
            &&& forall|i: int|
                0 <= i < given.len() && (#[trigger] given[i]).fill.venue == Venue::Hl
                    ==> given[i].recv_ts <= s.pm.frontier
            &&& forall|i: int|
                0 <= i < given.len() && (#[trigger] given[i]).fill.venue == Venue::Pm
                    ==> given[i].recv_ts < s.hl.frontier
            &&& hl.len() > 0 && (pm.len() == 0 || hl[0].0 <= pm[0].0) ==> hl[0].0 > s.pm.frontier
            &&& pm.len() > 0 && (hl.len() == 0 || pm[0].0 < hl[0].0) ==> pm[0].0
                >= s.hl.frontier
            &&& end.hl.frontier == s.hl.frontier && end.pm.frontier == s.pm.frontier
            &&& end.hl.last_seq == s.hl.last_seq && end.pm.last_seq == s.pm.last_seq
            &&& end.sealed == s.sealed
            &&& end.next_global_seq == s.next_global_seq + given.len()
            &&& given.len() + hl.len() + pm.len() == s.hl.buffer.len() + s.pm.buffer.len()
        }),
{
    let run = Run::of(calls);
    let s = run.state;
    let given = s.drained(true);
    let order = merged(s.hl.buffer, s.pm.buffer);
    lemma_coherent(calls);
    lemma_waiting_venues(run);
    lemma_drain(s, true);
    lemma_drained_len(s, true);
    law_drain_stops_at_the_watermark(s);
    assert forall|i: int| 0 <= i < given.len() implies s.emittable(
        (#[trigger] given[i]).fill.venue,
        given[i].recv_ts,
    ) by {
        assert(s.emittable(order[i].1.venue, order[i].0));
    }
}

} // verus!
