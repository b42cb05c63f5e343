//! What becomes of the generated feeds under the standard listing: every drawn event has a
//! canonical fill, and the events planted at the end are refused or contradict each other.

use vstd::arithmetic::power::pow;
use vstd::prelude::*;

use crate::boundary::{HlEventView, PmEventView};
use crate::canonical::{opposite, FillView, RejectReasonView, Side};
use crate::convert::{hl_fee, hl_fill, hl_price, hl_qty, payout_ticks, pm_fee, pm_fill, pm_price};
use crate::decimal::fixed_value;
use crate::fixed::{Lots, Micro, Ticks};
use crate::fixtures::{
    chosen, drawn, hl_event, hl_feed, hl_fixture, hl_ordinals, hl_poison,
    law_scaled_text_reads_back, lemma_hl_feed_len, lemma_pm_feed_len, lemma_steps, matched_event,
    matched_fixture, planted, pm_event, pm_feed, pm_fixture, pm_ordinals, pm_poison, px_text,
    qty_text, scaled_text, steps,
};
use crate::ingest::{AlertKind, AlertView, DeadLetterReasonView, IngestOutcomeView};
use crate::ingester::{canonical_of, IngesterView, Lookup};
use crate::instrument::{lemma_standard_names_differ, listed_as, InstrumentSpecView, Kind, Venue};
use crate::matched::standard_lookup;
use crate::stream::{RawEventView, RawLineView};
use crate::text::padded_decimal;
use crate::wire::{law_probability_reads_back, probability};

verus! {

/// How the standard listing has one of the two perpetuals.
spec fn perpetual(btc: bool) -> InstrumentSpecView {
    if btc {
        listed_as("BTC-PERP"@, Venue::Hl, Kind::Perp, 500_000, 100_000, 50)
    } else {
        listed_as("ETH-PERP"@, Venue::Hl, Kind::Perp, 50_000, 1_000_000, 50)
    }
}

/// How the standard listing has one of the two binaries.
spec fn binary(fed: bool) -> InstrumentSpecView {
    listed_as(
        if fed {
            "FED-CUT-SEP"@
        } else {
            "CPI-ABOVE-AUG"@
        },
        Venue::Pm,
        Kind::Binary,
        100,
        1_000_000_000,
        100,
    )
}

proof fn lemma_listed()
    ensures
        standard_lookup()(Venue::Hl, "BTC-PERP"@) == Some(perpetual(true)),
        standard_lookup()(Venue::Hl, "ETH-PERP"@) == Some(perpetual(false)),
        standard_lookup()(Venue::Pm, "FED-CUT-SEP"@) == Some(binary(true)),
        standard_lookup()(Venue::Pm, "CPI-ABOVE-AUG"@) == Some(binary(false)),
        standard_lookup()(Venue::Hl, "DOGE-PERP"@) is None,
        standard_lookup()(Venue::Pm, "UNKNOWN-MKT"@) is None,
{
    lemma_standard_names_differ();
    reveal_strlit("BTC-PERP");
    reveal_strlit("ETH-PERP");
    reveal_strlit("FED-CUT-SEP");
    reveal_strlit("CPI-ABOVE-AUG");
    reveal_strlit("DOGE-PERP");
    reveal_strlit("UNKNOWN-MKT");
    assert("DOGE-PERP"@.len() == 9 && "BTC-PERP"@.len() == 8 && "ETH-PERP"@.len() == 8);
    assert("UNKNOWN-MKT"@.len() == 11 && "CPI-ABOVE-AUG"@.len() == 13);
    assert("UNKNOWN-MKT"@[0] != "FED-CUT-SEP"@[0]);
}

proof fn lemma_words()
    ensures
        "buy"@ != "sell"@,
        "BUY"@ != "SELL"@,
        "YES"@ != "NO"@,
{
    reveal_strlit("buy");
    reveal_strlit("sell");
    reveal_strlit("BUY");
    reveal_strlit("SELL");
    reveal_strlit("YES");
    reveal_strlit("NO");
    assert("buy"@.len() != "sell"@.len());
    assert("BUY"@.len() != "SELL"@.len());
    assert("YES"@.len() != "NO"@.len());
}

proof fn lemma_powers()
    ensures
        pow(10, 0) == 1,
        pow(10, 2) == 100,
        pow(10, 4) == 10_000,
        pow(10, 5) == 100_000,
        pow(10, 6) == 1_000_000,
{
    reveal_with_fuel(pow, 7);
}

proof fn lemma_drawn(start: u64, n: nat, upper: int)
    requires
        upper > 0,
    ensures
        0 <= drawn(start, n, upper) < upper,
{
}

/// The canonical fill of a perpetual event at a price in ticks, a quantity in lots and a fee in
/// micro-dollars.
pub open spec fn perpetual_fill(
    event: HlEventView,
    buy: bool,
    ticks: int,
    lots: int,
    fee: int,
) -> FillView {
    FillView {
        venue: Venue::Hl,
        event_id: event.event_id,
        seq: event.seq,
        ts_ms: event.ts,
        account: event.account,
        instrument: event.symbol,
        symbol: event.symbol,
        kind: Kind::Perp,
        side: if buy {
            Side::Buy
        } else {
            Side::Sell
        },
        price: Ticks(ticks as i64),
        qty: Lots(lots as i64),
        fee: Micro(fee as i128),
    }
}

/// A perpetual event whose texts stand for whole ticks, whole lots and a fee has the fill of
/// those.
proof fn lemma_perpetual_fill(
    event: HlEventView,
    btc: bool,
    buy: bool,
    ticks: int,
    lots: int,
    fee: int,
)
    requires
        event.symbol == chosen(btc, "BTC-PERP"@, "ETH-PERP"@),
        event.side == chosen(buy, "buy"@, "sell"@),
        fixed_value(event.px, 6) == Some(ticks * perpetual(btc).tick_micro),
        fixed_value(event.qty, 9) == Some(lots * perpetual(btc).lot_qty_e9),
        fixed_value(event.fee, 6) == Some(fee),
        0 < ticks <= 1_000_000,
        0 < lots <= 1_000_000,
        0 <= fee <= 1_000_000,
    ensures
        canonical_of(standard_lookup(), RawEventView::Hl(event)) == Ok::<
            FillView,
            RejectReasonView,
        >(perpetual_fill(event, buy, ticks, lots, fee)),
{
    let spec = perpetual(btc);
    lemma_listed();
    lemma_words();
    assert(hl_price(event, spec) == Ok::<Ticks, RejectReasonView>(Ticks(ticks as i64)));
    assert(hl_qty(event, spec) == Ok::<Lots, RejectReasonView>(Lots(lots as i64)));
    assert(hl_fee(event) == Ok::<Micro, RejectReasonView>(Micro(fee as i128)));
    assert(hl_fill(event, Some(spec)) == Ok::<FillView, RejectReasonView>(
        perpetual_fill(event, buy, ticks, lots, fee),
    ));
}

/// The texts that are made of ticks, lots and a fee stand for just those.
proof fn lemma_perpetual_texts(btc: bool, ticks: int, lots: int, fee: int)
    requires
        0 < ticks <= 1_000_000,
        0 < lots <= 1_000_000,
        0 <= fee <= 1_000_000,
    ensures
        fixed_value(px_text(btc, ticks), 6) == Some(ticks * perpetual(btc).tick_micro),
        fixed_value(qty_text(btc, lots), 9) == Some(lots * perpetual(btc).lot_qty_e9),
        fixed_value(scaled_text(fee, 6), 6) == Some(fee),
{
    lemma_powers();
    law_scaled_text_reads_back(fee, 6, 6);
    if btc {
        law_scaled_text_reads_back(ticks * 5, 1, 6);
        law_scaled_text_reads_back(lots, 4, 9);
    } else {
        law_scaled_text_reads_back(ticks * 5, 2, 6);
        law_scaled_text_reads_back(lots, 3, 9);
    }
}

/// Every event of the perpetual venue has a canonical fill, and it is what was drawn.
pub proof fn law_hl_event_is_canonical(start: u64, base_ts: u64, ordinal: nat)
    ensures
        ({
            let at = (7 * (ordinal - 1)) as nat;
            let event = hl_event(start, base_ts, ordinal);
            let opening = if drawn(start, at + 2, 10) < 8 {
                133_000int
            } else {
                68_000int
            };
            canonical_of(standard_lookup(), RawEventView::Hl(event)) == Ok::<
                FillView,
                RejectReasonView,
            >(
                perpetual_fill(
                    event,
                    drawn(start, at + 6, 2) == 0,
                    opening + drawn(start, at + 3, 4_001),
                    drawn(start, at + 4, 100) + 1,
                    100 + drawn(start, at + 7, 9_901),
                ),
            )
        }),
{
    let at = (7 * (ordinal - 1)) as nat;
    let event = hl_event(start, base_ts, ordinal);
    let btc = drawn(start, at + 2, 10) < 8;
    let opening = if btc {
        133_000int
    } else {
        68_000int
    };
    let ticks = opening + drawn(start, at + 3, 4_001);
    let lots = drawn(start, at + 4, 100) + 1;
    let fee = 100 + drawn(start, at + 7, 9_901);
    lemma_drawn(start, at + 3, 4_001);
    lemma_drawn(start, at + 4, 100);
    lemma_drawn(start, at + 7, 9_901);
    lemma_perpetual_texts(btc, ticks, lots, fee);
    lemma_perpetual_fill(event, btc, drawn(start, at + 6, 2) == 0, ticks, lots, fee);
}

/// Whether every event of a perpetual feed has a canonical fill under the standard listing.
pub open spec fn hl_all_canonical(feed: Seq<HlEventView>) -> bool {
    forall|i: int|
        0 <= i < feed.len() ==> canonical_of(
            standard_lookup(),
            RawEventView::Hl(#[trigger] feed[i]),
        ) is Ok
}

/// Every event of the perpetual feed up to its poison has a canonical fill.
pub proof fn law_hl_feed_is_canonical(start: u64, base_ts: u64, ordinals: nat)
    ensures
        hl_all_canonical(hl_feed(start, base_ts, ordinals)),
    decreases ordinals,
{
    if ordinals > 0 {
        let earlier = hl_feed(start, base_ts, (ordinals - 1) as nat);
        let event = hl_event(start, base_ts, ordinals);
        let feed = hl_feed(start, base_ts, ordinals);
        law_hl_feed_is_canonical(start, base_ts, (ordinals - 1) as nat);
        law_hl_event_is_canonical(start, base_ts, ordinals);
        assert forall|i: int| 0 <= i < feed.len() implies canonical_of(
            standard_lookup(),
            RawEventView::Hl(#[trigger] feed[i]),
        ) is Ok by {
            lemma_planted(earlier, event, ordinals % 41 == 0, ordinals % 37 == 0, i);
        }
    }
}

/// Planting an event brings no other event into a feed.
proof fn lemma_planted<E>(feed: Seq<E>, event: E, swapped: bool, repeated: bool, i: int)
    requires
        0 <= i < planted(feed, event, swapped, repeated).len(),
    ensures
        planted(feed, event, swapped, repeated)[i] == event || exists|j: int|
            0 <= j < feed.len() && planted(feed, event, swapped, repeated)[i] == #[trigger] feed[j],
{
    let grown = planted(feed, event, swapped, repeated);
    if i < feed.len() && grown[i] != event {
        assert(grown[i] == feed[i]);
    } else if grown[i] != event {
        assert(grown[i] == feed[feed.len() - 1]);
    }
}

/// The canonical fill of a binary event at a price in ticks of its outcome: a trade in one outcome
/// is the opposite trade in the other at what is left of the payout.
pub open spec fn binary_fill(event: PmEventView, yes: bool, buy: bool, ticks: int) -> FillView {
    let action = if buy {
        Side::Buy
    } else {
        Side::Sell
    };
    FillView {
        venue: Venue::Pm,
        event_id: event.id,
        seq: event.sequence,
        ts_ms: event.timestamp_ms,
        account: event.user,
        instrument: event.market,
        symbol: event.market,
        kind: Kind::Binary,
        side: if yes {
            action
        } else {
            opposite(action)
        },
        price: Ticks(
            (if yes {
                ticks
            } else {
                10_000 - ticks
            }) as i64,
        ),
        qty: Lots(event.size),
        fee: Micro(((ticks * event.size * 100 * event.fee_bps + 5_000) / 10_000) as i128),
    }
}

proof fn lemma_binary_price(event: PmEventView, fed: bool, ticks: int)
    requires
        event.price == probability(ticks),
        0 < ticks < 10_000,
    ensures
        pm_price(event, binary(fed)) == if 100 <= ticks <= 9_900 {
            Ok::<i64, RejectReasonView>(ticks as i64)
        } else {
            Err(RejectReasonView::PriceOutOfRange { symbol: event.market, ticks: ticks as i64 })
        },
        payout_ticks(binary(fed)) == 10_000,
{
    law_probability_reads_back(ticks, event.market);
    assert(1_000_000int / 100 == 10_000 && 10_000int / 100 == 100);
}

proof fn lemma_binary_fee(event: PmEventView, fed: bool, ticks: int)
    requires
        100 <= ticks <= 9_900,
        0 < event.size <= 100,
        0 <= event.fee_bps <= 100,
    ensures
        pm_fee(ticks as i64, event, binary(fed)) == Ok::<Micro, RejectReasonView>(
            Micro(((ticks * event.size * 100 * event.fee_bps + 5_000) / 10_000) as i128),
        ),
{
    let size = event.size as int;
    let bps = event.fee_bps as int;
    let value = ticks * size * 100;
    assert(0 <= ticks * size <= 990_000) by (nonlinear_arith)
        requires
            100 <= ticks <= 9_900,
            0 < size <= 100,
    ;
    assert(0 <= value * bps <= 9_900_000_000) by (nonlinear_arith)
        requires
            0 <= value <= 99_000_000,
            0 <= bps <= 100,
    ;
}

/// A binary event at a price within the band has the fill of that price.
proof fn lemma_binary_fill(event: PmEventView, fed: bool, yes: bool, buy: bool, ticks: int)
    requires
        event.market == chosen(fed, "FED-CUT-SEP"@, "CPI-ABOVE-AUG"@),
        event.outcome == chosen(yes, "YES"@, "NO"@),
        event.action == chosen(buy, "BUY"@, "SELL"@),
        event.price == probability(ticks),
        100 <= ticks <= 9_900,
        0 < event.size <= 100,
        0 <= event.fee_bps <= 100,
    ensures
        canonical_of(standard_lookup(), RawEventView::Pm(event)) == Ok::<
            FillView,
            RejectReasonView,
        >(binary_fill(event, yes, buy, ticks)),
{
    let spec = binary(fed);
    lemma_listed();
    lemma_words();
    lemma_binary_price(event, fed, ticks);
    lemma_binary_fee(event, fed, ticks);
    assert(pm_fill(event, Some(spec)) == Ok::<FillView, RejectReasonView>(
        binary_fill(event, yes, buy, ticks),
    ));
}

/// Every event of the prediction market has a canonical fill, and it is what was drawn.
pub proof fn law_pm_event_is_canonical(start: u64, first: nat, base_ts: u64, ordinal: nat)
    ensures
        ({
            let at = (first + 8 * (ordinal - 1)) as nat;
            let event = pm_event(start, first, base_ts, ordinal);
            canonical_of(standard_lookup(), RawEventView::Pm(event)) == Ok::<
                FillView,
                RejectReasonView,
            >(
                binary_fill(
                    event,
                    drawn(start, at + 5, 10) < 8,
                    drawn(start, at + 6, 2) == 0,
                    100 + drawn(start, at + 3, 9_801),
                ),
            )
        }),
{
    let at = (first + 8 * (ordinal - 1)) as nat;
    let event = pm_event(start, first, base_ts, ordinal);
    lemma_drawn(start, at + 3, 9_801);
    lemma_drawn(start, at + 7, 20);
    lemma_drawn(start, at + 8, 3);
    lemma_binary_fill(
        event,
        drawn(start, at + 2, 10) < 8,
        drawn(start, at + 5, 10) < 8,
        drawn(start, at + 6, 2) == 0,
        100 + drawn(start, at + 3, 9_801),
    );
}

/// Whether every event of a prediction market's feed has a canonical fill under the standard
/// listing.
pub open spec fn pm_all_canonical(feed: Seq<PmEventView>) -> bool {
    forall|i: int|
        0 <= i < feed.len() ==> canonical_of(
            standard_lookup(),
            RawEventView::Pm(#[trigger] feed[i]),
        ) is Ok
}

/// Every event of the prediction market's feed up to its poison has a canonical fill.
pub proof fn law_pm_feed_is_canonical(start: u64, first: nat, base_ts: u64, ordinals: nat)
    ensures
        pm_all_canonical(pm_feed(start, first, base_ts, ordinals)),
    decreases ordinals,
{
    if ordinals > 0 {
        let earlier = pm_feed(start, first, base_ts, (ordinals - 1) as nat);
        let event = pm_event(start, first, base_ts, ordinals);
        let feed = pm_feed(start, first, base_ts, ordinals);
        law_pm_feed_is_canonical(start, first, base_ts, (ordinals - 1) as nat);
        law_pm_event_is_canonical(start, first, base_ts, ordinals);
        assert forall|i: int| 0 <= i < feed.len() implies canonical_of(
            standard_lookup(),
            RawEventView::Pm(#[trigger] feed[i]),
        ) is Ok by {
            lemma_planted(earlier, event, ordinals % 43 == 0, ordinals % 31 == 0, i);
        }
    }
}

/// Whether two events of one name both have a canonical fill, and not the same.
pub open spec fn contradict(lookup: Lookup, first: RawEventView, second: RawEventView) -> bool {
    &&& first.venue() == second.venue()
    &&& first.event_id() == second.event_id()
    &&& canonical_of(lookup, first) is Ok
    &&& canonical_of(lookup, second) is Ok
    &&& canonical_of(lookup, first)->Ok_0 != canonical_of(lookup, second)->Ok_0
}

/// Of two events that contradict each other, whichever arrives second is set aside as Byzantine
/// and raises an alert, whatever became of the one before it and whenever they arrive.
pub proof fn law_contradiction_raises_an_alert(
    state: IngesterView,
    lookup: Lookup,
    first_ts: u64,
    first: RawLineView,
    second_ts: u64,
    second: RawLineView,
)
    requires
        first.parsed is Ok,
        second.parsed is Ok,
        contradict(lookup, first.parsed->Ok_0, second.parsed->Ok_0),
        !state.seen.contains_key((first.parsed->Ok_0.venue(), first.parsed->Ok_0.event_id())),
    ensures
        ({
            let event = second.parsed->Ok_0;
            let before = state.caught(lookup, first_ts, first).0;
            let (after, outcome) = before.caught(lookup, second_ts, second);
            &&& outcome == IngestOutcomeView::DeadLettered(DeadLetterReasonView::Byzantine)
            &&& after.alerts == before.alerts.push(
                AlertView {
                    venue: event.venue(),
                    event_id: event.event_id(),
                    kind: AlertKind::ByzantineDuplicate,
                },
            )
        }),
{
}

/// The decimal texts of the perpetual poison, and the numbers that they stand for.
proof fn lemma_poison_texts()
    ensures
        fixed_value("67412.30"@, 6) == Some(67_412_300_000int),
        fixed_value("67412.50"@, 6) == Some(67_412_500_000int),
        fixed_value("0.0020"@, 9) == Some(2_000_000int),
        fixed_value("0.0040"@, 9) == Some(4_000_000int),
        fixed_value("0.000300"@, 6) == Some(300int),
{
    lemma_powers();
    reveal_strlit("67412.30");
    reveal_strlit("67412.50");
    reveal_strlit("0.0020");
    reveal_strlit("0.0040");
    reveal_strlit("0.000300");
    reveal_with_fuel(padded_decimal, 7);
    assert(scaled_text(6_741_230, 2) =~= "67412.30"@);
    assert(scaled_text(6_741_250, 2) =~= "67412.50"@);
    assert(scaled_text(20, 4) =~= "0.0020"@);
    assert(scaled_text(40, 4) =~= "0.0040"@);
    assert(scaled_text(300, 6) =~= "0.000300"@);
    law_scaled_text_reads_back(6_741_230, 2, 6);
    law_scaled_text_reads_back(6_741_250, 2, 6);
    law_scaled_text_reads_back(20, 4, 9);
    law_scaled_text_reads_back(40, 4, 9);
    law_scaled_text_reads_back(300, 6, 6);
}

/// Of the four events at the end of the perpetual feed the first is refused for its symbol and
/// the second for its price, which is off the grid; the last two contradict each other.
pub proof fn law_hl_poison(base_ts: u64, last_seq: int)
    ensures
        ({
            let poison = hl_poison(base_ts, last_seq);
            let lookup = standard_lookup();
            &&& poison.len() == 4
            &&& canonical_of(lookup, RawEventView::Hl(poison[0])) == Err::<
                FillView,
                RejectReasonView,
            >(RejectReasonView::UnknownSymbol("DOGE-PERP"@))
            &&& canonical_of(lookup, RawEventView::Hl(poison[1])) == Err::<
                FillView,
                RejectReasonView,
            >(RejectReasonView::OffTick { symbol: "BTC-PERP"@, raw: "67412.30"@ })
            &&& contradict(lookup, RawEventView::Hl(poison[2]), RawEventView::Hl(poison[3]))
        }),
{
    reveal(hl_poison);
    let poison = hl_poison(base_ts, last_seq);
    lemma_listed();
    lemma_words();
    lemma_poison_texts();
    assert(67_412_300_000int % 500_000 != 0);
    assert(hl_price(poison[1], perpetual(true)) is Err);
    lemma_perpetual_fill(poison[2], true, true, 134_825, 20, 300);
    lemma_perpetual_fill(poison[3], true, true, 134_825, 40, 300);
}

/// Of the four events at the end of the prediction market's feed the first is refused for its
/// market and the second for its price, which is outside the band; the last two contradict each
/// other.
pub proof fn law_pm_poison(base_ts: u64, last_seq: int)
    ensures
        ({
            let poison = pm_poison(base_ts, last_seq);
            let lookup = standard_lookup();
            &&& poison.len() == 4
            &&& canonical_of(lookup, RawEventView::Pm(poison[0])) == Err::<
                FillView,
                RejectReasonView,
            >(RejectReasonView::UnknownSymbol("UNKNOWN-MKT"@))
            &&& canonical_of(lookup, RawEventView::Pm(poison[1])) == Err::<
                FillView,
                RejectReasonView,
            >(RejectReasonView::PriceOutOfRange { symbol: "FED-CUT-SEP"@, ticks: 50 })
            &&& contradict(lookup, RawEventView::Pm(poison[2]), RawEventView::Pm(poison[3]))
        }),
{
    reveal(pm_poison);
    let poison = pm_poison(base_ts, last_seq);
    lemma_listed();
    lemma_words();
    lemma_binary_price(poison[1], true, 50);
    lemma_binary_fill(poison[2], false, false, true, 3_000);
    lemma_binary_fill(poison[3], false, false, true, 3_000);
}

/// The perpetual feed: every event has a canonical fill but for the two before the last two, and
/// the last two contradict each other.
pub proof fn law_hl_fixture(start: u64, base_ts: u64)
    ensures
        ({
            let feed = hl_fixture(start, base_ts);
            let lookup = standard_lookup();
            &&& feed.len() == 500
            &&& forall|i: int|
                0 <= i < 500 ==> (canonical_of(lookup, RawEventView::Hl(#[trigger] feed[i])) is Ok
                    <==> i != 496 && i != 497)
            &&& contradict(lookup, RawEventView::Hl(feed[498]), RawEventView::Hl(feed[499]))
        }),
{
    let last_seq = 999 + steps(start, 0, 7, hl_ordinals());
    let drawn_feed = hl_feed(start, base_ts, hl_ordinals());
    let poison = hl_poison(base_ts, last_seq);
    let feed = hl_fixture(start, base_ts);
    lemma_hl_feed_len(start, base_ts, hl_ordinals());
    law_hl_feed_is_canonical(start, base_ts, hl_ordinals());
    law_hl_poison(base_ts, last_seq);
    assert(forall|i: int| 0 <= i < 496 ==> #[trigger] feed[i] == drawn_feed[i]);
    assert(feed[496] == poison[0]);
    assert(feed[497] == poison[1]);
    assert(feed[498] == poison[2]);
    assert(feed[499] == poison[3]);
}

/// The prediction market's feed: every event has a canonical fill but for the two before the last
/// two, and the last two contradict each other.
pub proof fn law_pm_fixture(start: u64, first: nat, base_ts: u64)
    ensures
        ({
            let feed = pm_fixture(start, first, base_ts);
            let lookup = standard_lookup();
            &&& feed.len() == 500
            &&& forall|i: int|
                0 <= i < 500 ==> (canonical_of(lookup, RawEventView::Pm(#[trigger] feed[i])) is Ok
                    <==> i != 496 && i != 497)
            &&& contradict(lookup, RawEventView::Pm(feed[498]), RawEventView::Pm(feed[499]))
        }),
{
    let last_seq = 87_999 + steps(start, first, 8, pm_ordinals());
    let drawn_feed = pm_feed(start, first, base_ts, pm_ordinals());
    let poison = pm_poison(base_ts, last_seq);
    let feed = pm_fixture(start, first, base_ts);
    lemma_pm_feed_len(start, first, base_ts, pm_ordinals());
    law_pm_feed_is_canonical(start, first, base_ts, pm_ordinals());
    law_pm_poison(base_ts, last_seq);
    assert(forall|i: int| 0 <= i < 496 ==> #[trigger] feed[i] == drawn_feed[i]);
    assert(feed[496] == poison[0]);
    assert(feed[497] == poison[1]);
    assert(feed[498] == poison[2]);
    assert(feed[499] == poison[3]);
}

/// The events of the perpetual venue are numbered and stamped in a row: each moves the sequence
/// number on by one or two, as drawn, and the time by eleven milliseconds. They are named by
/// their ordinals, and are of one of three accounts.
pub proof fn law_hl_events_move_on(start: u64, base_ts: u64, ordinal: nat)
    requires
        1 <= ordinal <= 1_000_000,
        base_ts + 11 * ordinal + 11 <= u64::MAX,
    ensures
        ({
            let event = hl_event(start, base_ts, ordinal);
            let next = hl_event(start, base_ts, ordinal + 1);
            let first = hl_event(start, base_ts, 1);
            let at = (7 * (ordinal - 1)) as nat;
            &&& next.seq == event.seq + 1 + drawn(start, at + 8, 2)
            &&& next.ts == event.ts + 11
            &&& first.seq == 1_000 + drawn(start, 1, 2)
            &&& first.ts == base_ts + 11
            &&& event.event_id == "hl-"@ + padded_decimal(ordinal, 4)
            &&& event.account == "acct-"@ + padded_decimal(
                (drawn(start, at + 5, 3) + 1) as nat,
                0,
            )
            &&& event.symbol == "BTC-PERP"@ || event.symbol == "ETH-PERP"@
            &&& event.symbol == "BTC-PERP"@ <==> drawn(start, at + 2, 10) < 8
        }),
{
    lemma_steps(start, 0, 7, ordinal);
    lemma_steps(start, 0, 7, ordinal + 1);
    lemma_steps(start, 0, 7, 1);
    assert(steps(start, 0, 7, 0) == 0);
    assert(steps(start, 0, 7, 1) == steps(start, 0, 7, 0) + drawn(start, 1, 2) + 1);
    assert(0 + 7 * ordinal + 1 == (7 * (ordinal - 1)) as nat + 8);
    lemma_drawn(start, 1, 2);
    lemma_standard_names_differ();
}

/// The events of the prediction market are numbered and stamped in a row: each moves the sequence
/// number on by one or two, as drawn, and the time by thirteen milliseconds. They are named by
/// their ordinals, and are of one of three accounts.
pub proof fn law_pm_events_move_on(start: u64, first: nat, base_ts: u64, ordinal: nat)
    requires
        1 <= ordinal <= 1_000_000,
        base_ts + 13 * ordinal + 16 <= u64::MAX,
    ensures
        ({
            let event = pm_event(start, first, base_ts, ordinal);
            let next = pm_event(start, first, base_ts, ordinal + 1);
            let opening = pm_event(start, first, base_ts, 1);
            let at = (first + 8 * (ordinal - 1)) as nat;
            &&& next.sequence == event.sequence + 1 + drawn(start, at + 9, 2)
            &&& next.timestamp_ms == event.timestamp_ms + 13
            &&& opening.sequence == 88_000 + drawn(start, first + 1, 2)
            &&& opening.timestamp_ms == base_ts + 16
            &&& event.id == "pm-"@ + padded_decimal(ordinal, 4)
            &&& event.user == "acct-"@ + padded_decimal((drawn(start, at + 4, 3) + 1) as nat, 0)
            &&& event.market == "FED-CUT-SEP"@ || event.market == "CPI-ABOVE-AUG"@
            &&& event.market == "FED-CUT-SEP"@ <==> drawn(start, at + 2, 10) < 8
            &&& event.size == drawn(start, at + 7, 20) + 1
            &&& event.fee_bps == 10 * (drawn(start, at + 8, 3) + 1)
        }),
{
    let at = (first + 8 * (ordinal - 1)) as nat;
    lemma_steps(start, first, 8, ordinal);
    lemma_steps(start, first, 8, ordinal + 1);
    lemma_steps(start, first, 8, 1);
    assert(steps(start, first, 8, 0) == 0);
    assert(steps(start, first, 8, 1) == steps(start, first, 8, 0) + drawn(start, first + 1, 2)
        + 1);
    assert(first + 8 * ordinal + 1 == at + 9);
    lemma_drawn(start, first + 1, 2);
    lemma_drawn(start, at + 7, 20);
    lemma_drawn(start, at + 8, 3);
    lemma_standard_names_differ();
}

/// An event goes to the end of the perpetual feed; every 37th is sent twice, and every 41st goes
/// before the event before it.
pub proof fn law_defects_are_planted_in_the_hl_feed(start: u64, base_ts: u64, ordinal: nat)
    requires
        ordinal > 0,
    ensures
        ({
            let earlier = hl_feed(start, base_ts, (ordinal - 1) as nat);
            let event = hl_event(start, base_ts, ordinal);
            let feed = hl_feed(start, base_ts, ordinal);
            &&& hl_feed(start, base_ts, 0).len() == 0
            &&& ordinal % 41 != 0 && ordinal % 37 != 0 ==> feed == earlier.push(event)
            &&& ordinal % 41 != 0 && ordinal % 37 == 0 ==> feed == earlier.push(event).push(event)
            &&& ordinal % 41 == 0 && ordinal % 37 != 0 ==> feed == earlier.drop_last().push(
                event,
            ).push(earlier.last())
        }),
{
    lemma_hl_feed_len(start, base_ts, (ordinal - 1) as nat);
}

/// An event goes to the end of the prediction market's feed; every 31st is sent twice, and every
/// 43rd goes before the event before it.
pub proof fn law_defects_are_planted_in_the_pm_feed(
    start: u64,
    first: nat,
    base_ts: u64,
    ordinal: nat,
)
    requires
        ordinal > 0,
    ensures
        ({
            let earlier = pm_feed(start, first, base_ts, (ordinal - 1) as nat);
            let event = pm_event(start, first, base_ts, ordinal);
            let feed = pm_feed(start, first, base_ts, ordinal);
            &&& pm_feed(start, first, base_ts, 0).len() == 0
            &&& ordinal % 43 != 0 && ordinal % 31 != 0 ==> feed == earlier.push(event)
            &&& ordinal % 43 != 0 && ordinal % 31 == 0 ==> feed == earlier.push(event).push(event)
            &&& ordinal % 43 == 0 && ordinal % 31 != 0 ==> feed == earlier.drop_last().push(
                event,
            ).push(earlier.last())
        }),
{
    lemma_pm_feed_len(start, first, base_ts, (ordinal - 1) as nat);
}

/// The matched events are numbered and stamped in a row, named by round and leg, and are of the
/// two accounts in turn.
pub proof fn law_matched_events_move_on(base_ts: u64, i: int)
    requires
        0 <= i < 100,
        base_ts + 200_099 <= u64::MAX,
    ensures
        ({
            let event = matched_event(base_ts, i);
            &&& matched_fixture(base_ts, 100)[i] == event
            &&& event.seq == 200_000 + i
            &&& event.ts == base_ts + 200_000 + i
            &&& event.event_id == "matched-"@ + padded_decimal((i / 4) as nat, 2) + seq!['-']
                + padded_decimal((i % 4) as nat, 0)
            &&& i % 2 == 0 ==> event.account == "mm-A"@
            &&& i % 2 == 1 ==> event.account == "mm-B"@
        }),
{
}

} // verus!
