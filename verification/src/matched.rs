//! What the matched feed comes to: two accounts trade with each other, and back, and nothing is
//! won or lost but the fees.

use vstd::arithmetic::power::pow;
use vstd::prelude::*;

use crate::canonical::{FillView, RejectReasonView, Side};
use crate::convert::{hl_fee, hl_fill, hl_price, hl_qty};
use crate::fixed::{Lots, Micro, Ticks};
use crate::fixtures::{
    law_scaled_text_reads_back, lemma_matched_fees, matched_event, matched_fees, matched_fixture,
    scaled_text,
};
use crate::ingester::Lookup;
use crate::instrument::{
    law_standard_listing_is_sound, lemma_standard_names_differ, listed_as, standard_listing,
    InstrumentSpecView, Kind, Venue,
};
use crate::keeper::{
    after_fill, applied, fill_fault, held, key_of, magnitude, settle, settles, transitioned,
    value_of,
};
use crate::ledger::{
    all_applied, are_matched, books, fees_number, grand_totals, is_pairing,
    law_matched_fills_conserve_money, law_sound_listing_is_scaled, lookup_in, realized_number,
    scale_in, total,
};
use crate::position::{Position, PositionKeyView, Positions};
use crate::rounding::{half_even, law_half_even_is_nearest};

verus! {

/// Where the standard instruments are looked up.
pub open spec fn standard_lookup() -> Lookup {
    lookup_in(standard_listing())
}

/// The price of the `i`-th of the matched fills, in ticks.
pub open spec fn matched_ticks(i: int) -> int {
    let open = 133_000 + i / 4 * 4;
    if i % 4 < 2 {
        open
    } else {
        open + 2 + (i / 4) % 5
    }
}

/// The quantity of the `i`-th of the matched fills, in lots.
pub open spec fn matched_lots(i: int) -> int {
    10 + (i / 4) % 21
}

/// The canonical fill of the `i`-th of the matched events.
pub open spec fn matched_fill(base_ts: u64, i: int) -> FillView {
    let event = matched_event(base_ts, i);
    FillView {
        venue: Venue::Hl,
        event_id: event.event_id,
        seq: event.seq,
        ts_ms: event.ts,
        account: event.account,
        instrument: "BTC-PERP"@,
        symbol: "BTC-PERP"@,
        kind: Kind::Perp,
        side: if i % 4 == 0 || i % 4 == 3 {
            Side::Buy
        } else {
            Side::Sell
        },
        price: Ticks(matched_ticks(i) as i64),
        qty: Lots(matched_lots(i) as i64),
        fee: Micro((100 + i) as i128),
    }
}

/// The canonical fills of the first of the matched events.
pub open spec fn matched_fills(base_ts: u64, count: nat) -> Seq<FillView> {
    Seq::new(count, |i: int| matched_fill(base_ts, i))
}

/// How the standard listing has the instrument of the matched fills.
spec fn btc() -> InstrumentSpecView {
    listed_as("BTC-PERP"@, Venue::Hl, Kind::Perp, 500_000, 100_000, 50)
}

proof fn lemma_btc_is_listed()
    ensures
        standard_lookup()(Venue::Hl, "BTC-PERP"@) == Some(btc()),
{
    lemma_standard_names_differ();
}

proof fn lemma_powers()
    ensures
        pow(10, 0) == 1,
        pow(10, 5) == 100_000,
{
    reveal_with_fuel(pow, 6);
}

/// Each of the matched events has the canonical fill that it was made from.
proof fn lemma_matched_event_is_canonical(base_ts: u64, i: int)
    requires
        0 <= i < 100,
    ensures
        hl_fill(matched_event(base_ts, i), Some(btc())) == Ok::<FillView, RejectReasonView>(
            matched_fill(base_ts, i),
        ),
{
    let event = matched_event(base_ts, i);
    let ticks = matched_ticks(i);
    let lots = matched_lots(i);
    lemma_powers();
    law_scaled_text_reads_back(ticks * 5, 1, 6);
    law_scaled_text_reads_back(lots, 4, 9);
    law_scaled_text_reads_back(100 + i, 6, 6);
    assert(event.px == scaled_text(ticks * 5, 1));
    assert(event.qty == scaled_text(lots, 4));
    assert(hl_price(event, btc()) == Ok::<Ticks, RejectReasonView>(Ticks(ticks as i64)));
    assert(hl_qty(event, btc()) == Ok::<Lots, RejectReasonView>(Lots(lots as i64)));
    assert(hl_fee(event) == Ok::<Micro, RejectReasonView>(Micro((100 + i) as i128)));
    reveal_strlit("buy");
    reveal_strlit("sell");
    assert("buy"@.len() != "sell"@.len());
}

/// Whether what a position has realized and paid is small.
spec fn is_modest(position: Position, count: int) -> bool {
    &&& -10_000 * count <= position.realized_pnl.0 <= 10_000 * count
    &&& 0 <= position.fees.0 <= 1_000 * count
}

/// Whether a position is flat.
spec fn is_idle(position: Position, count: int) -> bool {
    &&& position.net_qty.0 == 0
    &&& position.open_cost.0 == 0
    &&& position.avg_entry_price is None
    &&& is_modest(position, count)
}

/// Whether a position holds `net_qty` lots that were entered at `ticks`.
spec fn is_open(position: Position, net_qty: int, ticks: int, count: int) -> bool {
    &&& position.net_qty.0 == net_qty
    &&& position.open_cost.0 == value_of(ticks, magnitude(net_qty), 50)
    &&& position.avg_entry_price == Some(Ticks(ticks as i64))
    &&& is_modest(position, count)
}

proof fn lemma_exact_division(n: int, d: int)
    requires
        d > 0,
    ensures
        half_even(n * d, d) == n,
        (n * d) % d == 0,
{
    law_half_even_is_nearest(n * d, d, n);
    vstd::arithmetic::div_mod::lemma_mod_multiples_basic(n, d);
}

proof fn lemma_value_is_modest(ticks: int, lots: int)
    requires
        0 < ticks <= 200_000,
        0 < lots <= 100,
    ensures
        0 < value_of(ticks, lots, 50) <= 1_000_000_000,
        value_of(ticks, lots, 50) == ticks * (lots * 50),
{
    assert(0 < ticks * lots <= 20_000_000) by (nonlinear_arith)
        requires
            0 < ticks <= 200_000,
            0 < lots <= 100,
    ;
    assert(ticks * lots * 50 == ticks * (lots * 50)) by (nonlinear_arith);
}

/// Whether a fill is one of those that the accounts trade.
spec fn is_small(fill: FillView) -> bool {
    &&& 0 < fill.price.0 <= 200_000
    &&& 0 < fill.qty.0 <= 100
    &&& 0 <= fill.fee.0 <= 1_000
}

/// A small fill opens a flat position.
proof fn lemma_opens(key: PositionKeyView, before: Position, fill: FillView, count: int)
    requires
        is_idle(before, count),
        is_small(fill),
        0 <= count <= 100,
    ensures
        transitioned(key, before, fill, 50) is Ok,
        ({
            let after = transitioned(key, before, fill, 50)->Ok_0.after;
            let lots = fill.qty.0 as int;
            is_open(
                after,
                if fill.side == Side::Buy {
                    lots
                } else {
                    -lots
                },
                fill.price.0 as int,
                count + 1,
            )
        }),
{
    let ticks = fill.price.0 as int;
    let lots = fill.qty.0 as int;
    lemma_value_is_modest(ticks, lots);
    lemma_exact_division(ticks, lots * 50);
    let s = settle(before, fill, 50);
    assert(s.open_cost == ticks * (lots * 50));
    assert(magnitude(s.net_qty) * 50 == lots * 50);
    assert(settles(before, fill, 50));
}

/// A small fill of the same size on the other side closes an open position, for a small gain or
/// loss.
proof fn lemma_closes(
    key: PositionKeyView,
    before: Position,
    fill: FillView,
    ticks: int,
    count: int,
)
    requires
        is_small(fill),
        is_open(
            before,
            if fill.side == Side::Buy {
                -(fill.qty.0 as int)
            } else {
                fill.qty.0 as int
            },
            ticks,
            count,
        ),
        0 < ticks <= 200_000,
        fill.qty.0 <= 30,
        -6 <= fill.price.0 - ticks <= 6,
        0 <= count <= 100,
    ensures
        transitioned(key, before, fill, 50) is Ok,
        is_idle(transitioned(key, before, fill, 50)->Ok_0.after, count + 1),
{
    let price = fill.price.0 as int;
    let lots = fill.qty.0 as int;
    lemma_value_is_modest(ticks, lots);
    lemma_value_is_modest(price, lots);
    let s = settle(before, fill, 50);
    let gain = value_of(price, lots, 50) - value_of(ticks, lots, 50);
    assert(-9_000 <= gain <= 9_000) by (nonlinear_arith)
        requires
            gain == price * lots * 50 - ticks * lots * 50,
            -6 <= price - ticks <= 6,
            0 < lots <= 30,
    ;
    assert(s.closed == lots && s.opened == 0);
    assert(value_of(price, 0, 50) == 0) by (nonlinear_arith)
        requires
            value_of(price, 0, 50) == price * 0 * 50,
    ;
    assert(s.net_qty == 0 && s.open_cost == 0);
    assert(settles(before, fill, 50));
}

/// The position of the first of the two accounts, or of the second.
pub open spec fn matched_key(first: bool) -> PositionKeyView {
    PositionKeyView {
        account: if first {
            "mm-A"@
        } else {
            "mm-B"@
        },
        instrument: "BTC-PERP"@,
    }
}

/// Where the accounts stand after a number of the matched fills. In each round the first account
/// opens, the second opens against it, the first closes and the second closes.
spec fn is_underway(positions: Positions, count: int) -> bool {
    let first = held(positions, matched_key(true));
    let second = held(positions, matched_key(false));
    let lots = matched_lots(count);
    let open = 133_000 + count / 4 * 4;
    let leg = count % 4;
    &&& forall|key: PositionKeyView| #[trigger]
        positions.contains_key(key) ==> key == matched_key(true) || key == matched_key(false)
    &&& if leg == 1 || leg == 2 {
        is_open(first, lots, open, count)
    } else {
        is_idle(first, count)
    }
    &&& if leg == 2 || leg == 3 {
        is_open(second, -lots, open, count)
    } else {
        is_idle(second, count)
    }
}

/// Whether the first account trades the `i`-th of the matched fills.
spec fn is_first(i: int) -> bool {
    i % 4 == 0 || i % 4 == 2
}

proof fn lemma_matched_fill(base_ts: u64, i: int)
    requires
        0 <= i < 100,
    ensures
        ({
            let fill = matched_fill(base_ts, i);
            &&& is_small(fill)
            &&& fill.qty.0 == matched_lots(i)
            &&& fill.qty.0 <= 30
            &&& fill.price.0 == matched_ticks(i)
            &&& key_of(fill) == matched_key(is_first(i))
            &&& fill_fault(fill, btc()) is None
            &&& fill.fee.0 == 100 + i
        }),
        matched_key(true) != matched_key(false),
{
    reveal_strlit("mm-A");
    reveal_strlit("mm-B");
    assert("mm-A"@[3] != "mm-B"@[3]);
    assert(133_000 <= matched_ticks(i) <= 133_200);
    assert(10 <= matched_lots(i) <= 30);
}

/// The `i`-th of the matched fills is applied, and leaves its account open or flat.
proof fn lemma_matched_fill_is_applied(base_ts: u64, before: Positions, i: int)
    requires
        0 <= i < 100,
        is_underway(before, i),
    ensures
        ({
            let fill = matched_fill(base_ts, i);
            let outcome = applied(before, fill, Some(btc()));
            let lots = matched_lots(i);
            let open = 133_000 + i / 4 * 4;
            &&& outcome is Ok
            &&& outcome->Ok_0.key == matched_key(is_first(i))
            &&& i % 4 == 0 ==> is_open(outcome->Ok_0.after, lots, open, i + 1)
            &&& i % 4 == 1 ==> is_open(outcome->Ok_0.after, -lots, open, i + 1)
            &&& i % 4 >= 2 ==> is_idle(outcome->Ok_0.after, i + 1)
        }),
{
    let fill = matched_fill(base_ts, i);
    let key = matched_key(is_first(i));
    lemma_matched_fill(base_ts, i);
    if i % 4 < 2 {
        lemma_opens(key, held(before, key), fill, i);
    } else {
        lemma_closes(key, held(before, key), fill, 133_000 + i / 4 * 4, i);
    }
}

proof fn lemma_step(base_ts: u64, before: Positions, i: int)
    requires
        0 <= i < 100,
        is_underway(before, i),
    ensures
        applied(before, matched_fill(base_ts, i), Some(btc())) is Ok,
        is_underway(
            after_fill(before, applied(before, matched_fill(base_ts, i), Some(btc()))),
            i + 1,
        ),
{
    let outcome = applied(before, matched_fill(base_ts, i), Some(btc()));
    let key = matched_key(is_first(i));
    let other = matched_key(!is_first(i));
    lemma_matched_fill(base_ts, i);
    lemma_matched_fill_is_applied(base_ts, before, i);
    let after = before.insert(key, outcome->Ok_0.after);
    assert(held(after, key) == outcome->Ok_0.after);
    assert(held(after, other) == held(before, other));
    if i % 4 != 3 {
        assert((i + 1) / 4 == i / 4);
    }
}

proof fn lemma_underway(base_ts: u64, count: nat)
    requires
        count <= 100,
    ensures
        all_applied(standard_lookup(), matched_fills(base_ts, count)),
        is_underway(books(standard_lookup(), matched_fills(base_ts, count)), count as int),
        grand_totals(standard_lookup(), matched_fills(base_ts, count)).fees == matched_fees(count),
    decreases count,
{
    let lookup = standard_lookup();
    let fills = matched_fills(base_ts, count);
    if count > 0 {
        let i = count - 1;
        let earlier = matched_fills(base_ts, i as nat);
        lemma_underway(base_ts, i as nat);
        lemma_btc_is_listed();
        assert(fills.drop_last() =~= earlier);
        assert(fills.last() == matched_fill(base_ts, i));
        lemma_step(base_ts, books(lookup, earlier), i);
        lemma_matched_fill(base_ts, i);
    }
}

/// The matched feed conserves money: each of its events has a canonical fill, every fill is
/// applied, both accounts end flat, what they realize sums to nothing, and their fees are 14950
/// micro-dollars.
pub proof fn law_matched_feed_conserves_money(base_ts: u64)
    ensures
        forall|i: int|
            #![trigger matched_fixture(base_ts, 100)[i]]
            0 <= i < 100 ==> hl_fill(
                matched_fixture(base_ts, 100)[i],
                standard_lookup()(Venue::Hl, matched_fixture(base_ts, 100)[i].symbol),
            ) == Ok::<FillView, RejectReasonView>(matched_fills(base_ts, 100)[i]),
        all_applied(standard_lookup(), matched_fills(base_ts, 100)),
        ({
            let positions = books(standard_lookup(), matched_fills(base_ts, 100));
            &&& forall|key: PositionKeyView| #[trigger]
                positions.contains_key(key) ==> positions[key].net_qty.0 == 0
            &&& total(positions, realized_number()) == 0
            &&& total(positions, fees_number()) == 14_950
        }),
{
    let lookup = standard_lookup();
    let fills = matched_fills(base_ts, 100);
    let positions = books(lookup, fills);
    assert forall|i: int|
        #![trigger matched_fixture(base_ts, 100)[i]]
        0 <= i < 100 implies hl_fill(
        matched_fixture(base_ts, 100)[i],
        lookup(Venue::Hl, matched_fixture(base_ts, 100)[i].symbol),
    ) == Ok::<FillView, RejectReasonView>(fills[i]) by {
        lemma_btc_is_listed();
        lemma_matched_event_is_canonical(base_ts, i);
    }
    lemma_underway(base_ts, 100);
    assert forall|key: PositionKeyView| #[trigger]
        positions.contains_key(key) implies positions[key].net_qty.0 == 0 by {
        assert(key == matched_key(true) || key == matched_key(false));
    }
    law_standard_listing_is_sound();
    law_sound_listing_is_scaled(standard_listing());
    let partners = Seq::new(
        100,
        |i: int|
            if i % 2 == 0 {
                i + 1
            } else {
                i - 1
            },
    );
    assert(is_pairing(fills, partners)) by {
        assert forall|i: int|
            #![trigger partners[i]]
            0 <= i < fills.len() implies {
            &&& 0 <= partners[i] < fills.len()
            &&& partners[partners[i]] == i
            &&& are_matched(fills[i], fills[partners[i]])
        } by {
            let j = partners[i];
            assert(i / 4 == j / 4);
        }
    }
    law_matched_fills_conserve_money(lookup, scale_in(standard_listing()), fills, partners);
    lemma_matched_fees(100);
}

} // verus!
