//! Generated feeds with planted defects. A fixed seed drives every choice, so that the same
//! anchor in time gives the same events: duplicates, swaps, poison and contradictions.

use vstd::arithmetic::power::{lemma_pow0, lemma_pow1, lemma_pow_adds, lemma_pow_positive, pow};
use vstd::prelude::*;

use crate::boundary::{HlEvent, HlEventView, PmEvent, PmEventView};
use crate::decimal::{
    all_digits, append_zeros, digits_value, fixed_value, frac_part, int_part, is_decimal,
    law_a_number_is_written_in_decimal, point,
};
use crate::text::{
    decimal, is_white_space, padded_decimal, push_decimal, push_padded_decimal, push_text, trimmed,
};
use crate::wire::{make_probability, probability};

verus! {

/// Drives every random choice.
pub const SEED: u64 = 0xB17F_0057_D00D_1234;

/// The step of the generator's counter.
pub const GAMMA: u64 = 0x9E37_79B9_7F4A_7C15;

/// The counter of the generator after a number of draws.
pub open spec fn counter(start: u64, draws: nat) -> u64
    decreases draws,
{
    if draws == 0 {
        start
    } else {
        counter(start, (draws - 1) as nat).wrapping_add(GAMMA)
    }
}

/// What the generator makes of its counter.
pub open spec fn mixed(counter: u64) -> u64 {
    let a = (counter ^ (counter >> 30)).wrapping_mul(0xBF58_476D_1CE4_E5B9);
    let b = (a ^ (a >> 27)).wrapping_mul(0x94D0_49BB_1331_11EB);
    b ^ (b >> 31)
}

/// The `n`-th draw of a number below `upper`, counted from one.
pub open spec fn drawn(start: u64, n: nat, upper: int) -> int {
    (mixed(counter(start, n)) as int) % upper
}

/// A generator of pseudo-random numbers: a counter and a mixing function.
struct Rng {
    state: u64,
    start: Ghost<u64>,
    draws: Ghost<nat>,
}

impl Rng {
    spec fn wf(&self) -> bool {
        self.state == counter(self.start@, self.draws@)
    }

    fn new(seed: u64) -> (rng: Rng)
        ensures
            rng.wf(),
            rng.start@ == seed,
            rng.draws@ == 0,
    {
        Rng { state: seed, start: Ghost(seed), draws: Ghost(0) }
    }

    fn next(&mut self) -> (value: u64)
        requires
            old(self).wf(),
        ensures
            final(self).wf(),
            final(self).start == old(self).start,
            final(self).draws@ == old(self).draws@ + 1,
            value == mixed(counter(old(self).start@, old(self).draws@ + 1)),
    {
        self.state = self.state.wrapping_add(GAMMA);
        self.draws = Ghost((self.draws@ + 1) as nat);
        let counter: u64 = self.state;
        let a: u64 = (counter ^ (counter >> 30)).wrapping_mul(0xBF58_476D_1CE4_E5B9);
        let b: u64 = (a ^ (a >> 27)).wrapping_mul(0x94D0_49BB_1331_11EB);
        b ^ (b >> 31)
    }

    fn below(&mut self, upper: u64) -> (value: u64)
        requires
            old(self).wf(),
            upper > 0,
        ensures
            final(self).wf(),
            final(self).start == old(self).start,
            final(self).draws@ == old(self).draws@ + 1,
            value == drawn(old(self).start@, old(self).draws@ + 1, upper as int),
            value < upper,
    {
        self.next() % upper
    }
}

/// A number of units of the `decimals`-th decimal, written out.
pub open spec fn scaled_text(value: int, decimals: nat) -> Seq<char> {
    let factor = pow(10, decimals);
    decimal((value / factor) as nat) + seq!['.'] + padded_decimal(
        (value % factor) as nat,
        decimals,
    )
}

/// Writes a number of units of the `decimals`-th decimal out.
pub fn format_scaled(value: i128, decimals: u32) -> (text: String)
    requires
        value >= 0,
        pow(10, decimals as nat) <= i128::MAX,
    ensures
        text@ == scaled_text(value as int, decimals as nat),
{
    proof {
        lemma_pow_positive(10, decimals as nat);
        assert(1 * pow(10, decimals as nat) == pow(10, decimals as nat));
    }
    let factor: i128 = append_zeros(1, decimals as usize).unwrap();
    proof {
        vstd::arithmetic::div_mod::lemma_div_pos_is_pos(value as int, factor as int);
    }
    let whole: i128 = value / factor;
    let fraction: i128 = value % factor;
    let mut text = String::new();
    push_decimal(&mut text, whole as u128);
    text.push('.');
    push_padded_decimal(&mut text, fraction as u128, decimals as usize);
    assert(text@ =~= scaled_text(value as int, decimals as nat));
    text
}

/// A number in decimal is all digits, and reads back as the number. Padded, it has as many digits
/// as it is padded to, if those are enough.
proof fn lemma_padded_decimal(n: nat, width: nat)
    ensures
        all_digits(padded_decimal(n, width)),
        digits_value(padded_decimal(n, width)) == n,
        padded_decimal(n, width).len() >= 1,
        width >= 1 && n < pow(10, width) ==> padded_decimal(n, width).len() == width,
    decreases n, width,
{
    let text = padded_decimal(n, width);
    lemma_pow0(10);
    lemma_pow1(10);
    if n < 10 && width <= 1 {
        assert(text.drop_last() =~= Seq::empty());
        assert(digits_value(text.drop_last()) == 0);
    } else {
        let shorter: nat = if width == 0 {
            0
        } else {
            (width - 1) as nat
        };
        lemma_padded_decimal(n / 10, shorter);
        assert(text.drop_last() =~= padded_decimal(n / 10, shorter));
        if width >= 1 && n < pow(10, width) {
            lemma_pow_adds(10, shorter, 1);
            if shorter == 0 {
                assert(n < 10);
            }
        }
    }
}

proof fn lemma_digits_join(a: Seq<char>, b: Seq<char>)
    ensures
        digits_value(a + b) == digits_value(a) * pow(10, b.len()) + digits_value(b),
    decreases b.len(),
{
    if b.len() == 0 {
        lemma_pow0(10);
        assert(a + b =~= a);
    } else {
        let shorter = b.drop_last();
        lemma_digits_join(a, shorter);
        lemma_pow_adds(10, shorter.len(), 1);
        lemma_pow1(10);
        assert((a + b).drop_last() =~= a + shorter);
        assert(digits_value(a) * pow(10, shorter.len()) * 10 == digits_value(a) * pow(10, b.len()))
            by (nonlinear_arith)
            requires
                pow(10, b.len()) == pow(10, shorter.len()) * 10,
        ;
    }
}

proof fn lemma_point_after_digits(digits: Seq<char>, rest: Seq<char>)
    requires
        all_digits(digits),
    ensures
        point(digits + seq!['.'] + rest) == digits.len(),
    decreases digits.len(),
{
    let text = digits + seq!['.'] + rest;
    if digits.len() > 0 {
        let shorter = digits.drop_first();
        assert(digits[0] != '.');
        assert forall|i: int| 0 <= i < shorter.len() implies '0' <= #[trigger] shorter[i] <= '9' by {
            assert(shorter[i] == digits[i + 1]);
        }
        lemma_point_after_digits(shorter, rest);
        assert(text.drop_first() =~= shorter + seq!['.'] + rest);
    }
}

/// What is written out at a number of decimals reads back as the same number, at that scale or
/// at a finer one.
pub proof fn law_scaled_text_reads_back(value: int, decimals: nat, scale: nat)
    requires
        value >= 0,
        0 < decimals <= scale,
        value * pow(10, (scale - decimals) as nat) <= i128::MAX,
    ensures
        fixed_value(scaled_text(value, decimals), scale) == Some(
            value * pow(10, (scale - decimals) as nat),
        ),
{
    let factor = pow(10, decimals);
    lemma_pow_positive(10, decimals);
    vstd::arithmetic::div_mod::lemma_fundamental_div_mod(value, factor);
    vstd::arithmetic::div_mod::lemma_div_pos_is_pos(value, factor);
    let whole = (value / factor) as nat;
    let fraction = (value % factor) as nat;
    let ints = decimal(whole);
    let frac = padded_decimal(fraction, decimals);
    let text = scaled_text(value, decimals);
    lemma_padded_decimal(whole, 0);
    lemma_padded_decimal(fraction, decimals);
    lemma_point_after_digits(ints, frac);
    assert(text =~= ints + seq!['.'] + frac);
    assert(text[0] == ints[0]);
    assert(text.last() == frac[frac.len() - 1]);
    reveal(is_white_space);
    assert(trimmed(text) == text);
    assert(int_part(text) =~= ints);
    assert(frac_part(text) =~= frac);
    assert(is_decimal(text, scale));
    lemma_digits_join(ints, frac);
    assert(whole * factor == factor * whole) by (nonlinear_arith);
    assert(digits_value(ints + frac) == value);
}

/// A number that is written out has its decimals behind a point, and no zero in front but one
/// where it is less than one.
pub proof fn law_scaled_text_has_its_decimals(value: int, decimals: nat)
    requires
        value >= 0,
        decimals > 0,
    ensures
        ({
            let text = scaled_text(value, decimals);
            &&& text.len() >= decimals + 2
            &&& text[text.len() - decimals - 1] == '.'
            &&& text.len() > decimals + 2 ==> text[0] != '0'
        }),
{
    let factor = pow(10, decimals);
    lemma_pow_positive(10, decimals);
    vstd::arithmetic::div_mod::lemma_div_pos_is_pos(value, factor);
    let whole = (value / factor) as nat;
    let fraction = (value % factor) as nat;
    lemma_padded_decimal(fraction, decimals);
    law_a_number_is_written_in_decimal(whole, 0);
    assert(scaled_text(value, decimals)[0] == decimal(whole)[0]);
}

/// A name made of a word and a number of at least `width` digits.
pub open spec fn numbered_name(word: Seq<char>, n: nat, width: nat) -> Seq<char> {
    word + padded_decimal(n, width)
}

fn number_name(word: &str, n: u64, width: usize) -> (name: String)
    ensures
        name@ == numbered_name(word@, n as nat, width as nat),
{
    let mut name = String::new();
    push_text(&mut name, word);
    push_padded_decimal(&mut name, n as u128, width);
    assert(name@ =~= numbered_name(word@, n as nat, width as nat));
    name
}

proof fn lemma_powers_of_ten()
    ensures
        pow(10, 1) == 10,
        pow(10, 2) == 100,
        pow(10, 3) == 1_000,
        pow(10, 4) == 10_000,
        pow(10, 6) == 1_000_000,
{
    reveal_with_fuel(pow, 7);
}

/// A price in ticks of half a dollar, or of a twentieth.
pub open spec fn px_text(btc: bool, ticks: int) -> Seq<char> {
    if btc {
        scaled_text(ticks * 5, 1)
    } else {
        scaled_text(ticks * 5, 2)
    }
}

fn ticks_to_px_string(btc: bool, ticks: i64) -> (text: String)
    requires
        ticks >= 0,
    ensures
        text@ == px_text(btc, ticks as int),
{
    proof {
        lemma_powers_of_ten();
    }
    if btc {
        format_scaled(ticks as i128 * 5, 1)
    } else {
        format_scaled(ticks as i128 * 5, 2)
    }
}

/// A quantity in lots of a ten-thousandth, or of a thousandth.
pub open spec fn qty_text(btc: bool, lots: int) -> Seq<char> {
    if btc {
        scaled_text(lots, 4)
    } else {
        scaled_text(lots, 3)
    }
}

fn lots_to_qty_string(btc: bool, lots: i64) -> (text: String)
    requires
        lots >= 0,
    ensures
        text@ == qty_text(btc, lots as int),
{
    proof {
        lemma_powers_of_ten();
    }
    if btc {
        format_scaled(lots as i128, 4)
    } else {
        format_scaled(lots as i128, 3)
    }
}

fn micro_to_fee_string(micro: i128) -> (text: String)
    requires
        micro >= 0,
    ensures
        text@ == scaled_text(micro as int, 6),
{
    proof {
        lemma_powers_of_ten();
    }
    format_scaled(micro, 6)
}

/// How many events a venue's feed holds.
pub const HL_LINES: usize = 500;

/// How many events a venue's feed holds.
pub const PM_LINES: usize = 500;

/// A feed with one more event. On demand it changes places with the event before it, and it is
/// sent twice.
pub open spec fn planted<E>(feed: Seq<E>, event: E, swapped: bool, repeated: bool) -> Seq<E> {
    let sent = if swapped && feed.len() > 0 {
        feed.drop_last().push(event).push(feed.last())
    } else {
        feed.push(event)
    };
    if repeated {
        sent.push(event)
    } else {
        sent
    }
}

/// How far sequence numbers have come after a number of events of `stride` draws each: every
/// event moves them on by one or two.
pub open spec fn steps(start: u64, first: nat, stride: nat, events: nat) -> int
    decreases events,
{
    if events == 0 {
        0
    } else {
        steps(start, first, stride, (events - 1) as nat) + drawn(
            start,
            first + stride * (events - 1) as nat + 1,
            2,
        ) + 1
    }
}

/// The word for one of two choices.
pub open spec fn chosen(first: bool, a: Seq<char>, b: Seq<char>) -> Seq<char> {
    if first {
        a
    } else {
        b
    }
}

fn choose_text(first: bool, a: &str, b: &str) -> (text: String)
    ensures
        text@ == chosen(first, a@, b@),
{
    if first {
        a.to_string()
    } else {
        b.to_string()
    }
}

/// The `ordinal`-th event of the perpetual venue, made of seven draws.
pub open spec fn hl_event(start: u64, base_ts: u64, ordinal: nat) -> HlEventView {
    let at = (7 * (ordinal - 1)) as nat;
    let btc = drawn(start, at + 2, 10) < 8;
    let ticks = if btc {
        133_000int
    } else {
        68_000int
    } + drawn(start, at + 3, 4_001);
    HlEventView {
        seq: (999 + steps(start, 0, 7, ordinal)) as u64,
        event_id: numbered_name("hl-"@, ordinal, 4),
        ts: (base_ts + ordinal * 11) as u64,
        account: numbered_name("acct-"@, (drawn(start, at + 5, 3) + 1) as nat, 0),
        symbol: chosen(btc, "BTC-PERP"@, "ETH-PERP"@),
        side: chosen(drawn(start, at + 6, 2) == 0, "buy"@, "sell"@),
        px: px_text(btc, ticks),
        qty: qty_text(btc, drawn(start, at + 4, 100) + 1),
        fee: scaled_text(100 + drawn(start, at + 7, 9_901), 6),
    }
}

/// The feed of the perpetual venue after a number of ordinals: every 41st event changes places,
/// and every 37th is sent twice.
pub open spec fn hl_feed(start: u64, base_ts: u64, ordinals: nat) -> Seq<HlEventView>
    decreases ordinals,
{
    if ordinals == 0 {
        Seq::empty()
    } else {
        planted(
            hl_feed(start, base_ts, (ordinals - 1) as nat),
            hl_event(start, base_ts, ordinals),
            ordinals % 41 == 0,
            ordinals % 37 == 0,
        )
    }
}

/// The contents of perpetual events.
pub open spec fn hl_views(events: Seq<HlEvent>) -> Seq<HlEventView> {
    events.map_values(|event: HlEvent| event@)
}

pub proof fn lemma_hl_feed_len(start: u64, base_ts: u64, ordinals: nat)
    ensures
        hl_feed(start, base_ts, ordinals).len() == ordinals + ordinals / 37,
    decreases ordinals,
{
    if ordinals > 0 {
        lemma_hl_feed_len(start, base_ts, (ordinals - 1) as nat);
    }
}

/// Each event moves a sequence number on by one or two.
pub proof fn lemma_steps(start: u64, first: nat, stride: nat, events: nat)
    ensures
        events <= steps(start, first, stride, events) <= 2 * events,
    decreases events,
{
    if events > 0 {
        lemma_steps(start, first, stride, (events - 1) as nat);
    }
}

/// Adds an event to a feed. On demand it changes places with the event before it, and it is sent
/// twice.
fn plant_hl(events: &mut Vec<HlEvent>, event: HlEvent, swapped: bool, repeated: bool)
    ensures
        hl_views(final(events)@) == planted(hl_views(old(events)@), event@, swapped, repeated),
{
    let copy = event.clone();
    if swapped && events.len() > 0 {
        let previous = events.pop().unwrap();
        events.push(event);
        events.push(previous);
    } else {
        events.push(event);
    }
    if repeated {
        events.push(copy);
    }
    assert(hl_views(events@) =~= planted(hl_views(old(events)@), event@, swapped, repeated));
}

/// Draws the `ordinal`-th event of the perpetual venue.
fn draw_hl(rng: &mut Rng, base_ts: u64, ordinal: u64, seq: u64) -> (event: HlEvent)
    requires
        old(rng).wf(),
        0 < ordinal <= 1_000,
        old(rng).draws@ == 7 * (ordinal - 1) + 1,
        seq == 999 + steps(old(rng).start@, 0, 7, ordinal as nat),
        base_ts + ordinal * 11 <= u64::MAX,
    ensures
        final(rng).wf(),
        final(rng).start == old(rng).start,
        final(rng).draws@ == 7 * ordinal,
        event@ == hl_event(old(rng).start@, base_ts, ordinal as nat),
{
    let btc = rng.below(10) < 8;
    let base: i64 = if btc {
        133_000
    } else {
        68_000
    };
    let ticks: i64 = base + rng.below(4_001) as i64;
    let lots: i64 = rng.below(100) as i64 + 1;
    let account = number_name("acct-", rng.below(3) + 1, 0);
    let side = choose_text(rng.below(2) == 0, "buy", "sell");
    let fee: i128 = 100 + rng.below(9_901) as i128;
    HlEvent {
        seq,
        event_id: number_name("hl-", ordinal, 4),
        ts: base_ts + ordinal * 11,
        account,
        symbol: choose_text(btc, "BTC-PERP", "ETH-PERP"),
        side,
        px: ticks_to_px_string(btc, ticks),
        qty: lots_to_qty_string(btc, lots),
        fee: micro_to_fee_string(fee),
    }
}

/// The events at the end of the perpetual feed: an unknown symbol, a price off the grid, and two
/// events of one name that contradict each other.
#[verifier::opaque]
pub open spec fn hl_poison(base_ts: u64, last_seq: int) -> Seq<HlEventView> {
    seq![
        HlEventView {
            seq: (last_seq + 1) as u64,
            event_id: "hl-poison-unknown"@,
            ts: (base_ts + 90_001) as u64,
            account: "acct-1"@,
            symbol: "DOGE-PERP"@,
            side: "buy"@,
            px: "0.10"@,
            qty: "1.0000"@,
            fee: "0.000100"@,
        },
        HlEventView {
            seq: (last_seq + 2) as u64,
            event_id: "hl-poison-offtick"@,
            ts: (base_ts + 90_002) as u64,
            account: "acct-2"@,
            symbol: "BTC-PERP"@,
            side: "sell"@,
            px: "67412.30"@,
            qty: "0.0030"@,
            fee: "0.000200"@,
        },
        HlEventView {
            seq: (last_seq + 3) as u64,
            event_id: "hl-dup-byz"@,
            ts: (base_ts + 90_003) as u64,
            account: "acct-3"@,
            symbol: "BTC-PERP"@,
            side: "buy"@,
            px: "67412.50"@,
            qty: "0.0020"@,
            fee: "0.000300"@,
        },
        HlEventView {
            seq: (last_seq + 3) as u64,
            event_id: "hl-dup-byz"@,
            ts: (base_ts + 90_003) as u64,
            account: "acct-3"@,
            symbol: "BTC-PERP"@,
            side: "buy"@,
            px: "67412.50"@,
            qty: "0.0040"@,
            fee: "0.000300"@,
        },
    ]
}

fn push_hl_poison(events: &mut Vec<HlEvent>, base_ts: u64, last_seq: u64)
    requires
        base_ts + 90_003 <= u64::MAX,
        last_seq + 3 <= u64::MAX,
    ensures
        hl_views(final(events)@) == hl_views(old(events)@) + hl_poison(base_ts, last_seq as int),
        final(events).len() == old(events).len() + 4,
{
    reveal(hl_poison);
    events.push(
        HlEvent {
            seq: last_seq + 1,
            event_id: "hl-poison-unknown".to_string(),
            ts: base_ts + 90_001,
            account: "acct-1".to_string(),
            symbol: "DOGE-PERP".to_string(),
            side: "buy".to_string(),
            px: "0.10".to_string(),
            qty: "1.0000".to_string(),
            fee: "0.000100".to_string(),
        },
    );
    events.push(
        HlEvent {
            seq: last_seq + 2,
            event_id: "hl-poison-offtick".to_string(),
            ts: base_ts + 90_002,
            account: "acct-2".to_string(),
            symbol: "BTC-PERP".to_string(),
            side: "sell".to_string(),
            px: "67412.30".to_string(),
            qty: "0.0030".to_string(),
            fee: "0.000200".to_string(),
        },
    );
    events.push(
        HlEvent {
            seq: last_seq + 3,
            event_id: "hl-dup-byz".to_string(),
            ts: base_ts + 90_003,
            account: "acct-3".to_string(),
            symbol: "BTC-PERP".to_string(),
            side: "buy".to_string(),
            px: "67412.50".to_string(),
            qty: "0.0020".to_string(),
            fee: "0.000300".to_string(),
        },
    );
    events.push(
        HlEvent {
            seq: last_seq + 3,
            event_id: "hl-dup-byz".to_string(),
            ts: base_ts + 90_003,
            account: "acct-3".to_string(),
            symbol: "BTC-PERP".to_string(),
            side: "buy".to_string(),
            px: "67412.50".to_string(),
            qty: "0.0040".to_string(),
            fee: "0.000300".to_string(),
        },
    );
    assert(hl_views(events@) =~= hl_views(old(events)@) + hl_poison(base_ts, last_seq as int));
}

/// How many ordinals fill the perpetual feed up to its poison.
pub open spec fn hl_ordinals() -> nat {
    483
}

/// The perpetual feed.
pub open spec fn hl_fixture(start: u64, base_ts: u64) -> Seq<HlEventView> {
    hl_feed(start, base_ts, hl_ordinals()) + hl_poison(
        base_ts,
        999 + steps(start, 0, 7, hl_ordinals()),
    )
}

fn generate_hl(rng: &mut Rng, base_ts: u64) -> (events: Vec<HlEvent>)
    requires
        old(rng).wf(),
        old(rng).draws@ == 0,
        base_ts + 90_003 <= u64::MAX,
    ensures
        final(rng).wf(),
        final(rng).start == old(rng).start,
        final(rng).draws@ == 7 * hl_ordinals(),
        hl_views(events@) == hl_fixture(old(rng).start@, base_ts),
        events.len() == HL_LINES,
{
    let ghost start = rng.start@;
    let mut events: Vec<HlEvent> = Vec::with_capacity(HL_LINES);
    let mut last_seq: u64 = 999;
    let mut ordinal: u64 = 0;
    assert(hl_views(events@) =~= Seq::empty());
    while events.len() < HL_LINES - 4
        invariant
            rng.wf(),
            rng.start@ == start,
            rng.draws@ == 7 * ordinal,
            ordinal <= hl_ordinals(),
            last_seq == 999 + steps(start, 0, 7, ordinal as nat),
            hl_views(events@) == hl_feed(start, base_ts, ordinal as nat),
            events.len() == ordinal + (ordinal as nat) / 37,
            base_ts + 90_003 <= u64::MAX,
        decreases hl_ordinals() - ordinal,
    {
        ordinal = ordinal + 1;
        proof {
            lemma_steps(start, 0, 7, (ordinal - 1) as nat);
            lemma_hl_feed_len(start, base_ts, ordinal as nat);
        }
        last_seq = last_seq + rng.below(2) + 1;
        let event = draw_hl(rng, base_ts, ordinal, last_seq);
        let repeated = ordinal % 37 == 0 && events.len() + 1 < HL_LINES - 4;
        plant_hl(&mut events, event, ordinal % 41 == 0, repeated);
    }
    proof {
        lemma_steps(start, 0, 7, ordinal as nat);
    }
    push_hl_poison(&mut events, base_ts, last_seq);
    events
}

/// The `i`-th of the matched fills. In each of twenty-five rounds two accounts trade with each
/// other at one price, and back at another.
pub open spec fn matched_event(base_ts: u64, i: int) -> HlEventView {
    let round = i / 4;
    let leg = i % 4;
    let open_ticks = 133_000 + round * 4;
    let ticks = if leg < 2 {
        open_ticks
    } else {
        open_ticks + 2 + round % 5
    };
    HlEventView {
        seq: (200_000 + i) as u64,
        event_id: numbered_name("matched-"@, round as nat, 2) + seq!['-'] + decimal(leg as nat),
        ts: (base_ts + 200_000 + i) as u64,
        account: chosen(leg % 2 == 0, "mm-A"@, "mm-B"@),
        symbol: "BTC-PERP"@,
        side: chosen(leg == 0 || leg == 3, "buy"@, "sell"@),
        px: px_text(true, ticks),
        qty: qty_text(true, 10 + round % 21),
        fee: scaled_text(100 + i, 6),
    }
}

/// The matched fills.
pub open spec fn matched_fixture(base_ts: u64, count: nat) -> Seq<HlEventView> {
    Seq::new(count, |i: int| matched_event(base_ts, i))
}

/// The fees of the first of the matched fills, in micro-dollars.
pub open spec fn matched_fees(count: nat) -> int
    decreases count,
{
    if count == 0 {
        0
    } else {
        matched_fees((count - 1) as nat) + 100 + (count - 1)
    }
}

/// The fees of the matched fills in closed form.
pub proof fn lemma_matched_fees(count: nat)
    ensures
        2 * matched_fees(count) == 200 * count + count * (count - 1),
    decreases count,
{
    if count > 0 {
        lemma_matched_fees((count - 1) as nat);
        assert(count * (count - 1) == (count - 1) * (count - 2) + 2 * (count - 1))
            by (nonlinear_arith);
    } else {
        assert(count * (count - 1) == 0) by (nonlinear_arith)
            requires
                count == 0,
        ;
    }
}

/// Makes the `i`-th of the matched fills.
fn make_matched(base_ts: u64, i: u64) -> (event: HlEvent)
    requires
        i < 100,
        base_ts + 200_099 <= u64::MAX,
    ensures
        event@ == matched_event(base_ts, i as int),
{
    let round: u64 = i / 4;
    let leg: u64 = i % 4;
    let open_ticks: i64 = 133_000 + round as i64 * 4;
    let ticks: i64 = if leg < 2 {
        open_ticks
    } else {
        open_ticks + 2 + (round % 5) as i64
    };
    let mut event_id = number_name("matched-", round, 2);
    event_id.push('-');
    push_decimal(&mut event_id, leg as u128);
    assert(event_id@ =~= numbered_name("matched-"@, round as nat, 2) + seq!['-'] + decimal(
        leg as nat,
    ));
    HlEvent {
        seq: 200_000 + i,
        event_id,
        ts: base_ts + (200_000 + i),
        account: choose_text(leg % 2 == 0, "mm-A", "mm-B"),
        symbol: "BTC-PERP".to_string(),
        side: choose_text(leg == 0 || leg == 3, "buy", "sell"),
        px: ticks_to_px_string(true, ticks),
        qty: lots_to_qty_string(true, 10 + (round % 21) as i64),
        fee: micro_to_fee_string(100 + i as i128),
    }
}

fn generate_matched(base_ts: u64) -> (result: (Vec<HlEvent>, i128))
    requires
        base_ts + 200_099 <= u64::MAX,
    ensures
        hl_views(result.0@) == matched_fixture(base_ts, 100),
        result.1 == matched_fees(100),
{
    let mut events: Vec<HlEvent> = Vec::new();
    let mut sum_fees_micro: i128 = 0;
    assert(hl_views(events@) =~= matched_fixture(base_ts, 0));
    for i in 0u64..100
        invariant
            hl_views(events@) == matched_fixture(base_ts, i as nat),
            sum_fees_micro == matched_fees(i as nat),
            0 <= sum_fees_micro <= 200 * i,
            base_ts + 200_099 <= u64::MAX,
    {
        let event = make_matched(base_ts, i);
        let ghost before = events@;
        events.push(event);
        sum_fees_micro = sum_fees_micro + (100 + i as i128);
        assert(hl_views(events@) =~= hl_views(before).push(event@));
        assert(hl_views(events@) =~= matched_fixture(base_ts, (i + 1) as nat));
    }
    (events, sum_fees_micro)
}

/// The `ordinal`-th event of the prediction market, made of eight draws after the first `first`.
pub open spec fn pm_event(start: u64, first: nat, base_ts: u64, ordinal: nat) -> PmEventView {
    let at = (first + 8 * (ordinal - 1)) as nat;
    PmEventView {
        sequence: (87_999 + steps(start, first, 8, ordinal)) as u64,
        id: numbered_name("pm-"@, ordinal, 4),
        timestamp_ms: (base_ts + ordinal * 13 + 3) as u64,
        user: numbered_name("acct-"@, (drawn(start, at + 4, 3) + 1) as nat, 0),
        market: chosen(drawn(start, at + 2, 10) < 8, "FED-CUT-SEP"@, "CPI-ABOVE-AUG"@),
        outcome: chosen(drawn(start, at + 5, 10) < 8, "YES"@, "NO"@),
        action: chosen(drawn(start, at + 6, 2) == 0, "BUY"@, "SELL"@),
        price: probability(100 + drawn(start, at + 3, 9_801)),
        size: (drawn(start, at + 7, 20) + 1) as i64,
        fee_bps: ((drawn(start, at + 8, 3) + 1) * 10) as i64,
    }
}

/// The feed of the prediction market after a number of ordinals: every 43rd event changes
/// places, and every 31st is sent twice.
pub open spec fn pm_feed(start: u64, first: nat, base_ts: u64, ordinals: nat) -> Seq<PmEventView>
    decreases ordinals,
{
    if ordinals == 0 {
        Seq::empty()
    } else {
        planted(
            pm_feed(start, first, base_ts, (ordinals - 1) as nat),
            pm_event(start, first, base_ts, ordinals),
            ordinals % 43 == 0,
            ordinals % 31 == 0,
        )
    }
}

/// The contents of prediction-market events.
pub open spec fn pm_views(events: Seq<PmEvent>) -> Seq<PmEventView> {
    events.map_values(|event: PmEvent| event@)
}

pub proof fn lemma_pm_feed_len(start: u64, first: nat, base_ts: u64, ordinals: nat)
    ensures
        pm_feed(start, first, base_ts, ordinals).len() == ordinals + ordinals / 31,
    decreases ordinals,
{
    if ordinals > 0 {
        lemma_pm_feed_len(start, first, base_ts, (ordinals - 1) as nat);
    }
}

/// Adds an event to a feed. On demand it changes places with the event before it, and it is sent
/// twice.
fn plant_pm(events: &mut Vec<PmEvent>, event: PmEvent, swapped: bool, repeated: bool)
    ensures
        pm_views(final(events)@) == planted(pm_views(old(events)@), event@, swapped, repeated),
{
    let copy = event.clone();
    if swapped && events.len() > 0 {
        let previous = events.pop().unwrap();
        events.push(event);
        events.push(previous);
    } else {
        events.push(event);
    }
    if repeated {
        events.push(copy);
    }
    assert(pm_views(events@) =~= planted(pm_views(old(events)@), event@, swapped, repeated));
}

/// Draws the `ordinal`-th event of the prediction market.
fn draw_pm(
    rng: &mut Rng,
    Ghost(first): Ghost<nat>,
    base_ts: u64,
    ordinal: u64,
    sequence: u64,
) -> (event: PmEvent)
    requires
        old(rng).wf(),
        0 < ordinal <= 1_000,
        old(rng).draws@ == first + 8 * (ordinal - 1) + 1,
        sequence == 87_999 + steps(old(rng).start@, first, 8, ordinal as nat),
        base_ts + ordinal * 13 + 3 <= u64::MAX,
    ensures
        final(rng).wf(),
        final(rng).start == old(rng).start,
        final(rng).draws@ == first + 8 * ordinal,
        event@ == pm_event(old(rng).start@, first, base_ts, ordinal as nat),
{
    let market = choose_text(rng.below(10) < 8, "FED-CUT-SEP", "CPI-ABOVE-AUG");
    let price = make_probability(100 + rng.below(9_801));
    let user = number_name("acct-", rng.below(3) + 1, 0);
    let outcome = choose_text(rng.below(10) < 8, "YES", "NO");
    let action = choose_text(rng.below(2) == 0, "BUY", "SELL");
    let size: i64 = rng.below(20) as i64 + 1;
    let fee_bps: i64 = (rng.below(3) as i64 + 1) * 10;
    PmEvent {
        sequence,
        id: number_name("pm-", ordinal, 4),
        timestamp_ms: base_ts + ordinal * 13 + 3,
        user,
        market,
        outcome,
        action,
        price,
        size,
        fee_bps,
    }
}

/// The events at the end of the prediction market's feed: an unknown market, an impossible
/// probability, and two events of one name that contradict each other.
#[verifier::opaque]
pub open spec fn pm_poison(base_ts: u64, last_seq: int) -> Seq<PmEventView> {
    seq![
        PmEventView {
            sequence: (last_seq + 1) as u64,
            id: "pm-poison-unknown"@,
            timestamp_ms: (base_ts + 91_001) as u64,
            user: "acct-1"@,
            market: "UNKNOWN-MKT"@,
            outcome: "YES"@,
            action: "BUY"@,
            price: probability(5_000),
            size: 3,
            fee_bps: 10,
        },
        PmEventView {
            sequence: (last_seq + 2) as u64,
            id: "pm-poison-range"@,
            timestamp_ms: (base_ts + 91_002) as u64,
            user: "acct-2"@,
            market: "FED-CUT-SEP"@,
            outcome: "YES"@,
            action: "SELL"@,
            price: probability(50),
            size: 4,
            fee_bps: 20,
        },
        PmEventView {
            sequence: (last_seq + 3) as u64,
            id: "pm-dup-byz"@,
            timestamp_ms: (base_ts + 91_003) as u64,
            user: "acct-3"@,
            market: "CPI-ABOVE-AUG"@,
            outcome: "NO"@,
            action: "BUY"@,
            price: probability(3_000),
            size: 2,
            fee_bps: 30,
        },
        PmEventView {
            sequence: (last_seq + 3) as u64,
            id: "pm-dup-byz"@,
            timestamp_ms: (base_ts + 91_003) as u64,
            user: "acct-3"@,
            market: "CPI-ABOVE-AUG"@,
            outcome: "NO"@,
            action: "BUY"@,
            price: probability(3_000),
            size: 5,
            fee_bps: 30,
        },
    ]
}

fn push_pm_poison(events: &mut Vec<PmEvent>, base_ts: u64, last_seq: u64)
    requires
        base_ts + 91_003 <= u64::MAX,
        last_seq + 3 <= u64::MAX,
    ensures
        pm_views(final(events)@) == pm_views(old(events)@) + pm_poison(base_ts, last_seq as int),
        final(events).len() == old(events).len() + 4,
{
    reveal(pm_poison);
    events.push(
        PmEvent {
            sequence: last_seq + 1,
            id: "pm-poison-unknown".to_string(),
            timestamp_ms: base_ts + 91_001,
            user: "acct-1".to_string(),
            market: "UNKNOWN-MKT".to_string(),
            outcome: "YES".to_string(),
            action: "BUY".to_string(),
            price: make_probability(5_000),
            size: 3,
            fee_bps: 10,
        },
    );
    events.push(
        PmEvent {
            sequence: last_seq + 2,
            id: "pm-poison-range".to_string(),
            timestamp_ms: base_ts + 91_002,
            user: "acct-2".to_string(),
            market: "FED-CUT-SEP".to_string(),
            outcome: "YES".to_string(),
            action: "SELL".to_string(),
            price: make_probability(50),
            size: 4,
            fee_bps: 20,
        },
    );
    events.push(
        PmEvent {
            sequence: last_seq + 3,
            id: "pm-dup-byz".to_string(),
            timestamp_ms: base_ts + 91_003,
            user: "acct-3".to_string(),
            market: "CPI-ABOVE-AUG".to_string(),
            outcome: "NO".to_string(),
            action: "BUY".to_string(),
            price: make_probability(3_000),
            size: 2,
            fee_bps: 30,
        },
    );
    events.push(
        PmEvent {
            sequence: last_seq + 3,
            id: "pm-dup-byz".to_string(),
            timestamp_ms: base_ts + 91_003,
            user: "acct-3".to_string(),
            market: "CPI-ABOVE-AUG".to_string(),
            outcome: "NO".to_string(),
            action: "BUY".to_string(),
            price: make_probability(3_000),
            size: 5,
            fee_bps: 30,
        },
    );
    assert(pm_views(events@) =~= pm_views(old(events)@) + pm_poison(base_ts, last_seq as int));
}

/// How many ordinals fill the prediction market's feed up to its poison.
pub open spec fn pm_ordinals() -> nat {
    481
}

/// The prediction market's feed.
pub open spec fn pm_fixture(start: u64, first: nat, base_ts: u64) -> Seq<PmEventView> {
    pm_feed(start, first, base_ts, pm_ordinals()) + pm_poison(
        base_ts,
        87_999 + steps(start, first, 8, pm_ordinals()),
    )
}

fn generate_pm(rng: &mut Rng, base_ts: u64) -> (events: Vec<PmEvent>)
    requires
        old(rng).wf(),
        base_ts + 91_003 <= u64::MAX,
    ensures
        pm_views(events@) == pm_fixture(old(rng).start@, old(rng).draws@, base_ts),
        events.len() == PM_LINES,
{
    let ghost start = rng.start@;
    let ghost first = rng.draws@;
    let mut events: Vec<PmEvent> = Vec::with_capacity(PM_LINES);
    let mut last_seq: u64 = 87_999;
    let mut ordinal: u64 = 0;
    assert(pm_views(events@) =~= Seq::empty());
    while events.len() < PM_LINES - 4
        invariant
            rng.wf(),
            rng.start@ == start,
            rng.draws@ == first + 8 * ordinal,
            ordinal <= pm_ordinals(),
            last_seq == 87_999 + steps(start, first, 8, ordinal as nat),
            pm_views(events@) == pm_feed(start, first, base_ts, ordinal as nat),
            events.len() == ordinal + (ordinal as nat) / 31,
            base_ts + 91_003 <= u64::MAX,
        decreases pm_ordinals() - ordinal,
    {
        ordinal = ordinal + 1;
        proof {
            lemma_steps(start, first, 8, (ordinal - 1) as nat);
            lemma_pm_feed_len(start, first, base_ts, ordinal as nat);
        }
        last_seq = last_seq + rng.below(2) + 1;
        let event = draw_pm(rng, Ghost(first), base_ts, ordinal, last_seq);
        let repeated = ordinal % 31 == 0 && events.len() + 1 < PM_LINES - 4;
        plant_pm(&mut events, event, ordinal % 43 == 0, repeated);
    }
    proof {
        lemma_steps(start, first, 8, ordinal as nat);
    }
    push_pm_poison(&mut events, base_ts, last_seq);
    events
}

/// All generated feeds.
#[derive(Debug)]
pub struct FixtureSet {
    pub hl: Vec<HlEvent>,
    pub pm: Vec<PmEvent>,
    pub matched: Vec<HlEvent>,
    /// The fees of all matched fills.
    pub sum_fees_micro: i128,
}

/// Generates all feeds. The same anchor gives the same events.
pub fn generate_at(base_ts: u64) -> (set: FixtureSet)
    requires
        base_ts + 200_099 <= u64::MAX,
    ensures
        hl_views(set.hl@) == hl_fixture(SEED, base_ts),
        pm_views(set.pm@) == pm_fixture(SEED, 7 * hl_ordinals(), base_ts),
        hl_views(set.matched@) == matched_fixture(base_ts, 100),
        set.sum_fees_micro == matched_fees(100),
        set.sum_fees_micro == 14_950,
        set.hl.len() == HL_LINES,
        set.pm.len() == PM_LINES,
        set.matched.len() == 100,
{
    proof {
        lemma_matched_fees(100);
    }
    let mut rng = Rng::new(SEED);
    let hl = generate_hl(&mut rng, base_ts);
    let pm = generate_pm(&mut rng, base_ts);
    let (matched, sum_fees_micro) = generate_matched(base_ts);
    assert(hl_views(matched@).len() == 100);
    FixtureSet { hl, pm, matched, sum_fees_micro }
}

} // verus!
