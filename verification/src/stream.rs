//! A venue's feed, line by line.

use vstd::prelude::*;

use crate::boundary::{same_pm_event, HlEvent, HlEventView, PmEvent, PmEventView};
use crate::instrument::Venue;
use crate::text::{chars_of, is_white_space, text_of, trim_bounds, trimmed};

verus! {

/// An event of either venue.
#[derive(Debug)]
pub enum RawEvent {
    Hl(HlEvent),
    Pm(PmEvent),
}

/// The contents of a [`RawEvent`].
#[verifier::ext_equal]
pub enum RawEventView {
    Hl(HlEventView),
    Pm(PmEventView),
}

impl View for RawEvent {
    type V = RawEventView;

    open spec fn view(&self) -> RawEventView {
        match self {
            RawEvent::Hl(event) => RawEventView::Hl(event@),
            RawEvent::Pm(event) => RawEventView::Pm(event@),
        }
    }
}

impl RawEventView {
    /// The venue that sent the event.
    pub open spec fn venue(self) -> Venue {
        match self {
            RawEventView::Hl(_) => Venue::Hl,
            RawEventView::Pm(_) => Venue::Pm,
        }
    }

    /// The venue's sequence number.
    pub open spec fn seq(self) -> u64 {
        match self {
            RawEventView::Hl(event) => event.seq,
            RawEventView::Pm(event) => event.sequence,
        }
    }

    /// The venue's name for the event.
    pub open spec fn event_id(self) -> Seq<char> {
        match self {
            RawEventView::Hl(event) => event.event_id,
            RawEventView::Pm(event) => event.id,
        }
    }
}

/// Whether two events say the same. A price that is not a number agrees with none, not even
/// with itself.
pub open spec fn same_event(a: RawEventView, b: RawEventView) -> bool {
    match (a, b) {
        (RawEventView::Hl(a), RawEventView::Hl(b)) => a == b,
        (RawEventView::Pm(a), RawEventView::Pm(b)) => same_pm_event(a, b),
        _ => false,
    }
}

impl Clone for RawEvent {
    fn clone(&self) -> (copy: Self)
        ensures
            copy == *self,
    {
        match self {
            RawEvent::Hl(event) => RawEvent::Hl(event.clone()),
            RawEvent::Pm(event) => RawEvent::Pm(event.clone()),
        }
    }
}

impl PartialEq for RawEvent {
    fn eq(&self, other: &RawEvent) -> (same: bool) {
        match (self, other) {
            (RawEvent::Hl(a), RawEvent::Hl(b)) => *a == *b,
            (RawEvent::Pm(a), RawEvent::Pm(b)) => *a == *b,
            _ => false,
        }
    }
}

impl vstd::std_specs::cmp::PartialEqSpecImpl for RawEvent {
    open spec fn obeys_eq_spec() -> bool {
        true
    }

    open spec fn eq_spec(&self, other: &RawEvent) -> bool {
        same_event(self@, other@)
    }
}

impl RawEvent {
    /// The venue that sent the event.
    pub fn venue(&self) -> (venue: Venue)
        ensures
            venue == self@.venue(),
    {
        match self {
            RawEvent::Hl(_) => Venue::Hl,
            RawEvent::Pm(_) => Venue::Pm,
        }
    }

    /// The venue's sequence number.
    pub fn seq(&self) -> (seq: u64)
        ensures
            seq == self@.seq(),
    {
        match self {
            RawEvent::Hl(event) => event.seq,
            RawEvent::Pm(event) => event.sequence,
        }
    }

    /// The venue's name for the event.
    pub fn event_id(&self) -> (event_id: &str)
        ensures
            event_id@ == self@.event_id(),
    {
        match self {
            RawEvent::Hl(event) => event.event_id.as_str(),
            RawEvent::Pm(event) => event.id.as_str(),
        }
    }
}

/// An event of one venue.
pub trait BoundaryEvent: Sized {
    /// The venue that sends such events.
    const VENUE: Venue;

    /// The event as an event of either venue.
    spec fn raw(&self) -> RawEventView;

    /// The event as an event of either venue.
    fn into_raw(self) -> (event: RawEvent)
        ensures
            event@ == self.raw(),
            event@.venue() == Self::VENUE,
    ;
}

impl BoundaryEvent for HlEvent {
    const VENUE: Venue = Venue::Hl;

    open spec fn raw(&self) -> RawEventView {
        RawEventView::Hl(self@)
    }

    fn into_raw(self) -> (event: RawEvent) {
        RawEvent::Hl(self)
    }
}

impl BoundaryEvent for PmEvent {
    const VENUE: Venue = Venue::Pm;

    open spec fn raw(&self) -> RawEventView {
        RawEventView::Pm(self@)
    }

    fn into_raw(self) -> (event: RawEvent) {
        RawEvent::Pm(self)
    }
}

/// A line of a feed: its text, and the event on it or why there is none.
#[derive(Debug)]
pub struct RawLine {
    pub venue: Venue,
    pub text: String,
    pub parsed: Result<RawEvent, String>,
}

/// The contents of a [`RawLine`].
#[verifier::ext_equal]
pub struct RawLineView {
    pub venue: Venue,
    pub text: Seq<char>,
    pub parsed: Result<RawEventView, Seq<char>>,
}

impl View for RawLine {
    type V = RawLineView;

    open spec fn view(&self) -> RawLineView {
        RawLineView {
            venue: self.venue,
            text: self.text@,
            parsed: match self.parsed {
                Ok(event) => Ok(event@),
                Err(error) => Err(error@),
            },
        }
    }
}

impl Clone for RawLine {
    fn clone(&self) -> (copy: Self)
        ensures
            copy == *self,
    {
        RawLine {
            venue: self.venue,
            text: self.text.clone(),
            parsed: match &self.parsed {
                Ok(event) => Ok(event.clone()),
                Err(error) => Err(error.clone()),
            },
        }
    }
}

impl PartialEq for RawLine {
    fn eq(&self, other: &RawLine) -> (same: bool) {
        self.venue == other.venue && self.text == other.text && match (&self.parsed, &other.parsed) {
            (Ok(a), Ok(b)) => *a == *b,
            (Err(a), Err(b)) => *a == *b,
            _ => false,
        }
    }
}

impl vstd::std_specs::cmp::PartialEqSpecImpl for RawLine {
    open spec fn obeys_eq_spec() -> bool {
        true
    }

    open spec fn eq_spec(&self, other: &RawLine) -> bool {
        self@.venue == other@.venue && self@.text == other@.text && match (
            self@.parsed,
            other@.parsed,
        ) {
            (Ok(a), Ok(b)) => same_event(a, b),
            (Err(a), Err(b)) => a == b,
            _ => false,
        }
    }
}

/// The line of a feed on which an event was read, or failed to be.
pub fn raw_line<T: BoundaryEvent>(text: String, parsed: Result<T, String>) -> (line: RawLine)
    ensures
        line@ == (RawLineView {
            venue: T::VENUE,
            text: text@,
            parsed: match parsed {
                Ok(event) => Ok(event.raw()),
                Err(error) => Err(error@),
            },
        }),
{
    let parsed = match parsed {
        Ok(event) => Ok(event.into_raw()),
        Err(error) => Err(error),
    };
    RawLine { venue: T::VENUE, text, parsed }
}

/// How many characters stand before the first line feed.
pub open spec fn line_len(s: Seq<char>) -> int
    decreases s.len(),
{
    if s.len() == 0 || s[0] == '\n' {
        0
    } else {
        1 + line_len(s.drop_first())
    }
}

/// A line without the carriage return that was part of its ending.
pub open spec fn without_return(line: Seq<char>) -> Seq<char> {
    if line.len() > 0 && line.last() == '\r' {
        line.drop_last()
    } else {
        line
    }
}

/// The lines of a text. A line ends in a line feed, or in a carriage return and a line feed; the
/// ending of the last line may be left out.
pub open spec fn text_lines(s: Seq<char>) -> Seq<Seq<char>>
    decreases s.len(),
{
    let len = line_len(s);
    if s.len() == 0 {
        Seq::empty()
    } else if len < 0 || len >= s.len() {
        seq![s]
    } else {
        seq![without_return(s.take(len))] + text_lines(s.skip(len + 1))
    }
}

/// Whether a line holds anything but white space.
pub open spec fn is_filled() -> spec_fn(Seq<char>) -> bool {
    |line: Seq<char>| trimmed(line).len() > 0
}

/// The contents of texts.
pub open spec fn text_views(texts: Seq<String>) -> Seq<Seq<char>> {
    texts.map_values(|text: String| text@)
}

proof fn lemma_line_len(s: Seq<char>)
    ensures
        0 <= line_len(s) <= s.len(),
        line_len(s) < s.len() ==> s[line_len(s)] == '\n',
    decreases s.len(),
{
    if s.len() > 0 && s[0] != '\n' {
        lemma_line_len(s.drop_first());
    }
}

/// The end of the line that starts at `from`: the place of its line feed, or the end of the text.
fn line_end(chars: &Vec<char>, from: usize) -> (end: usize)
    requires
        from <= chars.len(),
    ensures
        from <= end <= chars.len(),
        end - from == line_len(chars@.skip(from as int)),
{
    let mut end: usize = from;
    while end < chars.len() && chars[end] != '\n'
        invariant
            from <= end <= chars.len(),
            line_len(chars@.skip(from as int)) == end - from + line_len(chars@.skip(end as int)),
        decreases chars.len() - end,
    {
        assert(chars@.skip(end as int).drop_first() =~= chars@.skip(end + 1));
        end = end + 1;
    }
    end
}

/// The line between two places of a text, if it holds anything but white space.
fn filled_line(chars: &Vec<char>, from: usize, to: usize) -> (line: Option<String>)
    requires
        from <= to <= chars.len(),
    ensures
        match line {
            Some(line) => {
                &&& line@ == chars@.subrange(from as int, to as int)
                &&& trimmed(line@).len() > 0
            },
            None => trimmed(chars@.subrange(from as int, to as int)).len() == 0,
        },
{
    let line = text_of(chars, from, to);
    let line_chars = chars_of(line.as_str());
    let (start, end) = trim_bounds(&line_chars);
    if start < end {
        Some(line)
    } else {
        None
    }
}

/// The lines of a text that hold anything but white space.
pub fn ndjson_lines(input: &str) -> (lines: Vec<String>)
    ensures
        text_views(lines@) == text_lines(input@).filter(is_filled()),
{
    let chars = chars_of(input);
    let mut lines: Vec<String> = Vec::new();
    let mut from: usize = 0;
    let ghost mut seen: Seq<Seq<char>> = Seq::empty();
    proof {
        reveal(Seq::filter);
        assert(chars@.skip(0) =~= chars@);
        assert(seen + text_lines(chars@) =~= text_lines(chars@));
        assert(text_views(lines@) =~= seen.filter(is_filled()));
    }
    while from < chars.len()
        invariant
            from <= chars.len(),
            chars@ == input@,
            text_lines(chars@) == seen + text_lines(chars@.skip(from as int)),
            text_views(lines@) == seen.filter(is_filled()),
        decreases chars.len() - from,
    {
        let ghost rest = chars@.skip(from as int);
        let end = line_end(&chars, from);
        proof {
            lemma_line_len(rest);
            assert(chars@.subrange(from as int, end as int) =~= rest.take(end - from));
        }
        let to: usize = if end < chars.len() && from < end && chars[end - 1] == '\r' {
            end - 1
        } else {
            end
        };
        let next: usize = if end < chars.len() {
            end + 1
        } else {
            end
        };
        let ghost line = chars@.subrange(from as int, to as int);
        let found = filled_line(&chars, from, to);
        proof {
            let before = seen;
            if end < chars.len() {
                assert(line =~= without_return(rest.take(end - from)));
                assert(rest.skip(end - from + 1) =~= chars@.skip(next as int));
            } else {
                assert(line =~= rest);
                assert(chars@.skip(next as int) =~= Seq::empty());
            }
            assert(text_lines(rest) =~= seq![line] + text_lines(chars@.skip(next as int)));
            seen = before.push(line);
            assert(seen.drop_last() =~= before);
            reveal(Seq::filter);
            assert(before + text_lines(rest) =~= seen + text_lines(chars@.skip(next as int)));
        }
        let ghost kept = lines@;
        if let Some(text) = found {
            lines.push(text);
            assert(text_views(lines@) =~= text_views(kept).push(line));
        }
        from = next;
    }
    assert(chars@.skip(from as int) =~= Seq::empty());
    assert(seen + text_lines(Seq::empty()) =~= seen);
    lines
}

/// An event of either venue shows its venue, and the name and sequence number of its report.
pub proof fn law_an_event_shows_its_report(hl: HlEventView, pm: PmEventView)
    ensures
        RawEventView::Hl(hl).venue() == Venue::Hl,
        RawEventView::Hl(hl).event_id() == hl.event_id,
        RawEventView::Hl(hl).seq() == hl.seq,
        RawEventView::Pm(pm).venue() == Venue::Pm,
        RawEventView::Pm(pm).event_id() == pm.id,
        RawEventView::Pm(pm).seq() == pm.sequence,
{
}

/// Two perpetual reports say the same where every field agrees.
pub proof fn law_perpetual_events_agree_field_by_field(a: HlEventView, b: HlEventView)
    ensures
        same_event(RawEventView::Hl(a), RawEventView::Hl(b)) <==> a.seq == b.seq && a.event_id
            == b.event_id && a.ts == b.ts && a.account == b.account && a.symbol == b.symbol
            && a.side == b.side && a.px == b.px && a.qty == b.qty && a.fee == b.fee,
{
    let same = a.seq == b.seq && a.event_id == b.event_id && a.ts == b.ts && a.account == b.account
        && a.symbol == b.symbol && a.side == b.side && a.px == b.px && a.qty == b.qty && a.fee
        == b.fee;
    assert(same <==> a == b);
}

/// Two market reports say the same where every field agrees, the price as a number: its encodings
/// are the same and stand for one, or both are zero but for the sign.
pub proof fn law_market_events_agree_field_by_field(a: PmEventView, b: PmEventView)
    ensures
        ({
            let p = a.price.bits as int;
            let q = b.price.bits as int;
            let same_price = (p == q && p % 0x8000_0000_0000_0000 <= 0x7FF0_0000_0000_0000) || (p
                % 0x8000_0000_0000_0000 == 0 && q % 0x8000_0000_0000_0000 == 0);
            same_event(RawEventView::Pm(a), RawEventView::Pm(b)) <==> a.sequence == b.sequence
                && a.id == b.id && a.timestamp_ms == b.timestamp_ms && a.user == b.user
                && a.market == b.market && a.outcome == b.outcome && a.action == b.action
                && same_price && a.size == b.size && a.fee_bps == b.fee_bps
        }),
{
}

/// Reports of different venues never say the same.
pub proof fn law_events_of_two_venues_differ(hl: HlEventView, pm: PmEventView)
    ensures
        !same_event(RawEventView::Hl(hl), RawEventView::Pm(pm)),
        !same_event(RawEventView::Pm(pm), RawEventView::Hl(hl)),
{
}

proof fn lemma_line_len_of(line: Seq<char>, rest: Seq<char>)
    requires
        forall|i: int| 0 <= i < line.len() ==> #[trigger] line[i] != '\n',
        rest.len() > 0 ==> rest[0] == '\n',
    ensures
        line_len(line + rest) == line.len(),
    decreases line.len(),
{
    let s = line + rest;
    if line.len() == 0 {
        assert(s =~= rest);
    } else {
        let shorter = line.drop_first();
        assert(s[0] == line[0]);
        assert forall|i: int| 0 <= i < shorter.len() implies #[trigger] shorter[i] != '\n' by {
            assert(shorter[i] == line[i + 1]);
        }
        assert(s.drop_first() =~= shorter + rest);
        lemma_line_len_of(shorter, rest);
    }
}

/// A text is cut at its line feeds. What stands before the first is a line, without the carriage
/// return at its end where it has one, and the lines of the rest follow; a text without one is a
/// line as it stands, unless it is empty.
pub proof fn law_a_text_is_cut_at_line_feeds(line: Seq<char>, rest: Seq<char>)
    requires
        forall|i: int| 0 <= i < line.len() ==> #[trigger] line[i] != '\n',
    ensures
        text_lines(line + seq!['\n'] + rest) == seq![
            if line.len() > 0 && line[line.len() - 1] == '\r' {
                line.take(line.len() - 1)
            } else {
                line
            },
        ] + text_lines(rest),
        line.len() == 0 ==> text_lines(line).len() == 0,
        line.len() > 0 ==> text_lines(line) == seq![line],
{
    let feed = seq!['\n'] + rest;
    let s = line + seq!['\n'] + rest;
    assert(s =~= line + feed);
    lemma_line_len_of(line, feed);
    assert(s.take(line.len() as int) =~= line);
    assert(s.skip(line.len() as int + 1) =~= rest);
    if line.len() > 0 {
        assert(line.drop_last() =~= line.take(line.len() - 1));
    }
    lemma_line_len_of(line, Seq::empty());
    assert(line + Seq::<char>::empty() =~= line);
}

/// A line is kept if and only if it holds a character that is not white space.
pub proof fn law_blank_lines_are_left_out(line: Seq<char>)
    ensures
        is_filled()(line) <==> exists|i: int|
            0 <= i < line.len() && !is_white_space(#[trigger] line[i]),
    decreases line.len(),
{
    if line.len() > 0 {
        if is_white_space(line[0]) {
            let rest = line.drop_first();
            law_blank_lines_are_left_out(rest);
            if is_filled()(rest) {
                let i = choose|i: int| 0 <= i < rest.len() && !is_white_space(#[trigger] rest[i]);
                assert(line[i + 1] == rest[i]);
            } else {
                assert forall|i: int| 0 <= i < line.len() implies is_white_space(
                    #[trigger] line[i],
                ) by {
                    if i > 0 {
                        assert(line[i] == rest[i - 1]);
                    }
                }
            }
        } else if is_white_space(line[line.len() - 1]) {
            let rest = line.drop_last();
            law_blank_lines_are_left_out(rest);
            assert(line.last() == line[line.len() - 1]);
            assert(rest.len() > 0 && rest[0] == line[0]);
            assert(!is_white_space(rest[0]));
        } else {
            assert(line.last() == line[line.len() - 1]);
            assert(!is_white_space(line[0]));
        }
    }
}

} // verus!
