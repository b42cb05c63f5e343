//! What holds of the positions after any tape of fills.

use vstd::prelude::*;
use vstd::set_lib::{lemma_int_range, set_int_range};

use crate::arrivals::{
    accepted_fill, entry_fills, law_ingester_drives_a_sequencer,
    law_stamps_do_not_decide_what_is_accepted, lines_of, never_goes_back, no_flush,
    sequencer_calls, Action, IngestRun,
};
use crate::canonical::{opposite, FillView, RejectReasonView, Side};
use crate::convert::{
    event_symbol, law_fill_repeats_its_event, payout_ticks, pm_price, raw_fill,
};
use crate::decimal::{fixed_value, lemma_fixed_value_fits};
use crate::fixed::{Lots, Micro};
use crate::ingester::{canonical_of, Ingester, Lookup};
use crate::instrument::{
    law_instrument_trades_on_one_venue, same_economics, sound, tradable, InstrumentSource,
    InstrumentSpecView, Kind, Listing, Registry, Venue,
};
use crate::keeper::{
    adds_to, after_fill, all_valid, applied, averages, fill_fault, held, key_of, magnitude, position_fault,
    settle, settled, settles, signed_qty, transitioned, value_of,
};
use crate::position::{flat, Position, PositionDeltaView, PositionKeyView, Positions};
use crate::rounding::{half_even, law_half_even_is_nearest, lemma_half_even_bounds};
use crate::sequencer::{Entry, SequencedFillView};
use crate::stream::RawEventView;
use crate::tape::{
    law_pushes_are_in_lane_order, law_tape_is_the_merge, lemma_entry_is_of_a_lane, merged,
    numbered, of_venue, Call, Run,
};

verus! {

/// The positions after a tape of fills.
pub open spec fn books(lookup: Lookup, fills: Seq<FillView>) -> Positions
    decreases fills.len(),
{
    if fills.len() == 0 {
        Map::empty()
    } else {
        let before = books(lookup, fills.drop_last());
        let fill = fills.last();
        after_fill(before, applied(before, fill, lookup(fill.venue, fill.symbol)))
    }
}

/// What becomes of the last fill of a tape.
pub open spec fn last_outcome(lookup: Lookup, fills: Seq<FillView>) -> Result<
    PositionDeltaView,
    RejectReasonView,
> {
    let fill = fills.last();
    applied(books(lookup, fills.drop_last()), fill, lookup(fill.venue, fill.symbol))
}

/// Whether every fill of a tape is applied.
pub open spec fn all_applied(lookup: Lookup, fills: Seq<FillView>) -> bool
    decreases fills.len(),
{
    fills.len() > 0 ==> all_applied(lookup, fills.drop_last()) && last_outcome(lookup, fills) is Ok
}

/// What a position is on the books for: its open cost, negative for a short position.
pub open spec fn signed_cost(position: Position) -> int {
    if position.net_qty.0 < 0 {
        -(position.open_cost.0 as int)
    } else {
        position.open_cost.0 as int
    }
}

/// What a fill pays out: the value of what it sells, or less the value of what it buys.
pub open spec fn cash(lookup: Lookup, fill: FillView) -> int {
    match lookup(fill.venue, fill.symbol) {
        Some(spec) => -value_of(fill.price.0 as int, signed_qty(fill), spec.micro_per_tick_lot),
        None => 0,
    }
}

proof fn lemma_value_splits(price: int, a: int, b: int, scale: int)
    ensures
        value_of(price, a + b, scale) == value_of(price, a, scale) + value_of(price, b, scale),
        value_of(price, -a, scale) == -value_of(price, a, scale),
        value_of(price, 0, scale) == 0,
{
    assert(price * (a + b) * scale == price * a * scale + price * b * scale) by (nonlinear_arith);
    assert(price * (-a) * scale == -(price * a * scale)) by (nonlinear_arith);
    assert(price * 0 * scale == 0) by (nonlinear_arith);
}

/// A fill moves the net quantity by what it trades and the fees by its fee. What it realizes is
/// what it pays out and what it adds to the books: no money appears or vanishes, whatever is
/// rounded. Each lot of it closes or opens a lot.
pub proof fn law_transition_conserves_money(
    key: PositionKeyView,
    before: Position,
    fill: FillView,
    scale: int,
)
    requires
        transitioned(key, before, fill, scale) is Ok,
        fill.qty.0 > 0,
    ensures
        ({
            let delta = transitioned(key, before, fill, scale)->Ok_0;
            let after = delta.after;
            &&& after.net_qty.0 == before.net_qty.0 + signed_qty(fill)
            &&& after.fees.0 == before.fees.0 + fill.fee.0
            &&& after.realized_pnl.0 == before.realized_pnl.0 + delta.realized_pnl_delta.0
            &&& delta.realized_pnl_delta.0 == -value_of(
                fill.price.0 as int,
                signed_qty(fill),
                scale,
            ) + signed_cost(after) - signed_cost(before)
            &&& delta.closed_qty.0 + delta.opened_qty.0 == fill.qty.0
            &&& delta.fee_delta == fill.fee
            &&& delta.before == before
            &&& delta.key == key
        }),
{
    let s = settle(before, fill, scale);
    let price = fill.price.0 as int;
    lemma_value_splits(price, s.closed, s.opened, scale);
    lemma_value_splits(price, fill.qty.0 as int, 0, scale);
}

/// What a fill does whatever it does to the size of a position: it moves the net quantity by its
/// lots, up for a purchase and down for a sale, adds its fee to the fees and what it realizes to
/// the profit, and leaves a position that is flat without cost and average, or open with both.
pub proof fn law_a_fill_moves_every_total(
    key: PositionKeyView,
    before: Position,
    fill: FillView,
    scale: int,
)
    requires
        transitioned(key, before, fill, scale) is Ok,
        fill.qty.0 > 0,
        fill.fee.0 >= 0,
        scale > 0,
    ensures
        ({
            let delta = transitioned(key, before, fill, scale)->Ok_0;
            let after = delta.after;
            &&& delta.key == key
            &&& delta.before == before
            &&& fill.side == Side::Buy ==> after.net_qty.0 == before.net_qty.0 + fill.qty.0
            &&& fill.side == Side::Sell ==> after.net_qty.0 == before.net_qty.0 - fill.qty.0
            &&& after.fees.0 == before.fees.0 + fill.fee.0
            &&& delta.fee_delta.0 == fill.fee.0
            &&& after.realized_pnl.0 == before.realized_pnl.0 + delta.realized_pnl_delta.0
            &&& delta.closed_qty.0 + delta.opened_qty.0 == fill.qty.0
            &&& delta.closed_qty.0 >= 0 && delta.opened_qty.0 >= 0
            &&& before.fees.0 >= 0 && after.fees.0 >= 0
            &&& after.net_qty.0 == 0 <==> after.avg_entry_price is None
            &&& after.net_qty.0 == 0 <==> after.open_cost.0 == 0
            &&& after.net_qty.0 != 0 ==> after.open_cost.0 > 0 && (after.avg_entry_price->0).0 > 0
        }),
{
    law_transition_conserves_money(key, before, fill, scale);
}

/// The share of a cost that belongs to some of its lots is no more than the cost.
proof fn lemma_share_fits(cost: int, closed: int, lots: int)
    requires
        cost > 0,
        0 < closed < lots,
    ensures
        0 <= half_even(cost * closed, lots) <= cost,
{
    let share = half_even(cost * closed, lots);
    law_half_even_is_nearest(cost * closed, lots, share);
    assert(0 < cost * closed <= cost * lots - cost) by (nonlinear_arith)
        requires
            cost > 0,
            0 < closed < lots,
    ;
    assert(share >= 0) by (nonlinear_arith)
        requires
            2 * (cost * closed - share * lots) <= lots,
            cost * closed > 0,
            lots > 0,
    ;
    assert(share <= cost) by (nonlinear_arith)
        requires
            2 * (cost * closed - share * lots) >= -lots,
            cost * closed <= cost * lots - cost,
            cost >= 1,
            lots > 0,
    ;
}

/// The average entry price of an open position is the number of ticks nearest to its cost per
/// lot, the even one of two that are equally near, for a long position and for a short one.
pub proof fn law_average_is_the_cost_per_lot(
    key: PositionKeyView,
    before: Position,
    fill: FillView,
    scale: int,
)
    requires
        transitioned(key, before, fill, scale) is Ok,
        transitioned(key, before, fill, scale)->Ok_0.after.net_qty.0 != 0,
        fill.qty.0 > 0,
        scale > 0,
    ensures
        ({
            let after = transitioned(key, before, fill, scale)->Ok_0.after;
            let lots = if after.net_qty.0 < 0 {
                -(after.net_qty.0 as int)
            } else {
                after.net_qty.0 as int
            };
            let average = (after.avg_entry_price->0).0 as int;
            let gap = after.open_cost.0 - average * (lots * scale);
            &&& after.avg_entry_price is Some
            &&& -(lots * scale) <= 2 * gap <= lots * scale
            &&& 2 * gap == lots * scale || 2 * gap == -(lots * scale) ==> average % 2 == 0
        }),
{
    let s = settle(before, fill, scale);
    let after = transitioned(key, before, fill, scale)->Ok_0.after;
    let lots = magnitude(s.net_qty);
    let size = magnitude(before.net_qty.0 as int);
    if !adds_to(before.net_qty.0 as int, signed_qty(fill)) && s.closed < size {
        lemma_share_fits(before.open_cost.0 as int, s.closed, size);
    }
    assert(lots * scale > 0) by (nonlinear_arith)
        requires
            lots > 0,
            scale > 0,
    ;
    law_half_even_is_nearest(s.open_cost, lots * scale, (after.avg_entry_price->0).0 as int);
}

/// A purchase on a flat or long position and a sale on a flat or short one realize nothing: they
/// open all their lots, and add to the cost what those lots are worth at the price of the fill.
pub proof fn law_adding_to_a_position_realizes_nothing(
    key: PositionKeyView,
    before: Position,
    fill: FillView,
    scale: int,
)
    requires
        transitioned(key, before, fill, scale) is Ok,
        fill.qty.0 > 0,
        fill.side == Side::Buy ==> before.net_qty.0 >= 0,
        fill.side == Side::Sell ==> before.net_qty.0 <= 0,
    ensures
        ({
            let delta = transitioned(key, before, fill, scale)->Ok_0;
            &&& delta.realized_pnl_delta.0 == 0
            &&& delta.closed_qty.0 == 0
            &&& delta.opened_qty.0 == fill.qty.0
            &&& delta.after.open_cost.0 == before.open_cost.0 + fill.price.0 * fill.qty.0 * scale
        }),
{
}

/// Closing some of the lots of a position, and not all, whatever the kind of the instrument. The
/// closed lots take their share of the cost with them, to the nearest micro-dollar and the even
/// one of two: the cost that is left does not depend on the price of the fill. What is realized
/// is what the closed lots trade at now against that share, for a short position the other way
/// round.
pub proof fn law_reducing_a_position_closes_its_share(
    key: PositionKeyView,
    before: Position,
    fill: FillView,
    scale: int,
)
    requires
        transitioned(key, before, fill, scale) is Ok,
        fill.qty.0 > 0,
        fill.side == Side::Sell ==> before.net_qty.0 > fill.qty.0,
        fill.side == Side::Buy ==> -before.net_qty.0 > fill.qty.0,
    ensures
        ({
            let delta = transitioned(key, before, fill, scale)->Ok_0;
            let lots = if before.net_qty.0 < 0 {
                -(before.net_qty.0 as int)
            } else {
                before.net_qty.0 as int
            };
            let share = before.open_cost.0 - delta.after.open_cost.0;
            let gap = before.open_cost.0 * fill.qty.0 - share * lots;
            let exit = fill.price.0 * fill.qty.0 * scale;
            &&& delta.closed_qty.0 == fill.qty.0
            &&& delta.opened_qty.0 == 0
            &&& -lots <= 2 * gap <= lots
            &&& 2 * gap == lots || 2 * gap == -lots ==> share % 2 == 0
            &&& fill.side == Side::Sell ==> delta.realized_pnl_delta.0 == exit - share
            &&& fill.side == Side::Buy ==> delta.realized_pnl_delta.0 == share - exit
        }),
{
    let s = settle(before, fill, scale);
    let lots = magnitude(before.net_qty.0 as int);
    let share = before.open_cost.0 - s.open_cost;
    law_half_even_is_nearest(before.open_cost.0 * fill.qty.0, lots, share);
}

/// What is left of a position after closing some of its lots does not depend on the price at which
/// they were closed.
pub proof fn law_the_rest_of_a_position_is_not_repriced(
    key: PositionKeyView,
    before: Position,
    fill: FillView,
    other: FillView,
    scale: int,
)
    requires
        transitioned(key, before, fill, scale) is Ok,
        transitioned(key, before, other, scale) is Ok,
        fill.qty == other.qty && fill.side == other.side,
        fill.qty.0 > 0,
        fill.side == Side::Sell ==> before.net_qty.0 > fill.qty.0,
        fill.side == Side::Buy ==> -before.net_qty.0 > fill.qty.0,
    ensures
        ({
            let a = transitioned(key, before, fill, scale)->Ok_0.after;
            let b = transitioned(key, before, other, scale)->Ok_0.after;
            &&& a.net_qty == b.net_qty
            &&& a.open_cost == b.open_cost
            &&& a.avg_entry_price == b.avg_entry_price
        }),
{
}

/// Closing all the lots of a position realizes what they trade at now against the whole cost, for
/// a short position the other way round. What is left of the fill opens a position on the other
/// side that costs what its lots are worth at the price of the fill.
pub proof fn law_closing_a_position_takes_its_whole_cost(
    key: PositionKeyView,
    before: Position,
    fill: FillView,
    scale: int,
)
    requires
        transitioned(key, before, fill, scale) is Ok,
        fill.side == Side::Sell ==> 0 < before.net_qty.0 <= fill.qty.0,
        fill.side == Side::Buy ==> 0 < -before.net_qty.0 <= fill.qty.0,
    ensures
        ({
            let delta = transitioned(key, before, fill, scale)->Ok_0;
            let lots = if before.net_qty.0 < 0 {
                -(before.net_qty.0 as int)
            } else {
                before.net_qty.0 as int
            };
            let exit = fill.price.0 * lots * scale;
            &&& delta.closed_qty.0 == lots
            &&& delta.opened_qty.0 == fill.qty.0 - lots
            &&& delta.after.open_cost.0 == fill.price.0 * (fill.qty.0 - lots) * scale
            &&& fill.side == Side::Sell ==> delta.realized_pnl_delta.0 == exit
                - before.open_cost.0
            &&& fill.side == Side::Buy ==> delta.realized_pnl_delta.0 == before.open_cost.0
                - exit
        }),
{
}

/// A keeper that is given one fill after the other keeps the books of the tape.
pub proof fn law_a_fill_extends_the_books(lookup: Lookup, fills: Seq<FillView>, fill: FillView)
    ensures
        books(lookup, fills.push(fill)) == after_fill(
            books(lookup, fills),
            applied(books(lookup, fills), fill, lookup(fill.venue, fill.symbol)),
        ),
{
    assert(fills.push(fill).drop_last() =~= fills);
}

/// A long position is the mirror of a short one: where the net quantity changes its sign and the
/// fill its side, what is held afterwards and what is realized change their sign, and nothing
/// else changes.
pub proof fn law_transition_mirrors(
    key: PositionKeyView,
    before: Position,
    fill: FillView,
    mirrored: Position,
    flipped: FillView,
    scale: int,
)
    requires
        mirrored == (Position { net_qty: mirrored.net_qty, ..before }),
        mirrored.net_qty.0 == -before.net_qty.0,
        flipped == (FillView { side: opposite(fill.side), ..fill }),
        fill.qty.0 > 0,
        transitioned(key, before, fill, scale) is Ok,
        transitioned(key, mirrored, flipped, scale) is Ok,
    ensures
        ({
            let a = transitioned(key, before, fill, scale)->Ok_0;
            let b = transitioned(key, mirrored, flipped, scale)->Ok_0;
            &&& b.after.net_qty.0 == -a.after.net_qty.0
            &&& b.realized_pnl_delta.0 == -a.realized_pnl_delta.0
            &&& b.after.realized_pnl.0 - before.realized_pnl.0 == -(a.after.realized_pnl.0
                - before.realized_pnl.0)
            &&& b.after.open_cost == a.after.open_cost
            &&& b.after.avg_entry_price == a.after.avg_entry_price
            &&& b.after.fees == a.after.fees
            &&& b.closed_qty == a.closed_qty
            &&& b.opened_qty == a.opened_qty
            &&& b.fee_delta == a.fee_delta
        }),
{
    let a = settle(before, fill, scale);
    let b = settle(mirrored, flipped, scale);
    assert(b.net_qty == -a.net_qty);
    assert(b.open_cost == a.open_cost);
    assert(b.realized == -a.realized);
}

/// Every position on the books makes sense.
pub proof fn law_books_are_valid(lookup: Lookup, fills: Seq<FillView>)
    ensures
        all_valid(books(lookup, fills)),
    decreases fills.len(),
{
    if fills.len() > 0 {
        law_books_are_valid(lookup, fills.drop_last());
    }
}

/// What the fills of a tape that are applied come to.
pub struct Totals {
    pub qty: int,
    pub fees: int,
    pub cash: int,
}

/// What the applied fills of one position come to.
pub open spec fn totals_of(lookup: Lookup, fills: Seq<FillView>, key: PositionKeyView) -> Totals
    decreases fills.len(),
{
    if fills.len() == 0 {
        Totals { qty: 0, fees: 0, cash: 0 }
    } else {
        let earlier = totals_of(lookup, fills.drop_last(), key);
        let fill = fills.last();
        if last_outcome(lookup, fills) is Ok && key_of(fill) == key {
            Totals {
                qty: earlier.qty + signed_qty(fill),
                fees: earlier.fees + fill.fee.0,
                cash: earlier.cash + cash(lookup, fill),
            }
        } else {
            earlier
        }
    }
}

/// A position is the sum of its fills: its net quantity is what they bought less what they sold,
/// its fees are their fees, and what it realized is what they paid out and what it is still on
/// the books for.
pub proof fn law_position_is_the_sum_of_its_fills(
    lookup: Lookup,
    fills: Seq<FillView>,
    key: PositionKeyView,
)
    ensures
        ({
            let position = held(books(lookup, fills), key);
            let totals = totals_of(lookup, fills, key);
            &&& position.net_qty.0 == totals.qty
            &&& position.fees.0 == totals.fees
            &&& position.realized_pnl.0 == totals.cash + signed_cost(position)
        }),
    decreases fills.len(),
{
    if fills.len() > 0 {
        let before = books(lookup, fills.drop_last());
        let fill = fills.last();
        law_position_is_the_sum_of_its_fills(lookup, fills.drop_last(), key);
        if last_outcome(lookup, fills) is Ok && key_of(fill) == key {
            law_transition_conserves_money(
                key,
                held(before, key),
                fill,
                lookup(fill.venue, fill.symbol)->0.micro_per_tick_lot,
            );
        }
    }
}

/// The sum of a number over all positions.
pub open spec fn total(positions: Positions, number: spec_fn(Position) -> int) -> int
    decreases positions.dom().len(),
    when positions.dom().finite()
{
    if positions.dom().len() == 0 {
        0
    } else {
        let key = positions.dom().choose();
        number(positions[key]) + total(positions.remove(key), number)
    }
}

/// Any position can be counted first.
proof fn lemma_total_of_one(
    positions: Positions,
    number: spec_fn(Position) -> int,
    key: PositionKeyView,
)
    requires
        positions.dom().finite(),
        positions.contains_key(key),
    ensures
        total(positions, number) == number(positions[key]) + total(positions.remove(key), number),
    decreases positions.dom().len(),
{
    let first = positions.dom().choose();
    assert(positions.dom().contains(first)) by {
        if positions.dom().len() == 0 {
            assert(positions.dom() =~= Set::empty());
        }
    }
    if first != key {
        lemma_total_of_one(positions.remove(first), number, key);
        lemma_total_of_one(positions.remove(key), number, first);
        assert(positions.remove(first).remove(key) =~= positions.remove(key).remove(first));
    }
}

/// A position that moves changes a sum by as much as it moves itself.
proof fn lemma_total_after(
    positions: Positions,
    number: spec_fn(Position) -> int,
    key: PositionKeyView,
    after: Position,
)
    requires
        positions.dom().finite(),
        number(flat()) == 0,
    ensures
        total(positions.insert(key, after), number) == total(positions, number) - number(
            held(positions, key),
        ) + number(after),
{
    lemma_total_of_one(positions.insert(key, after), number, key);
    if positions.contains_key(key) {
        lemma_total_of_one(positions, number, key);
        assert(positions.insert(key, after).remove(key) =~= positions.remove(key));
    } else {
        assert(positions.insert(key, after).remove(key) =~= positions);
    }
}

/// What all applied fills come to.
pub open spec fn grand_totals(lookup: Lookup, fills: Seq<FillView>) -> Totals
    decreases fills.len(),
{
    if fills.len() == 0 {
        Totals { qty: 0, fees: 0, cash: 0 }
    } else {
        let earlier = grand_totals(lookup, fills.drop_last());
        let fill = fills.last();
        if last_outcome(lookup, fills) is Ok {
            Totals {
                qty: earlier.qty + signed_qty(fill),
                fees: earlier.fees + fill.fee.0,
                cash: earlier.cash + cash(lookup, fill),
            }
        } else {
            earlier
        }
    }
}

/// The realized profit of a position.
pub open spec fn realized_number() -> spec_fn(Position) -> int {
    |position: Position| position.realized_pnl.0 as int
}

/// The fees of a position.
pub open spec fn fees_number() -> spec_fn(Position) -> int {
    |position: Position| position.fees.0 as int
}

/// What a position is on the books for.
pub open spec fn cost_number() -> spec_fn(Position) -> int {
    |position: Position| signed_cost(position)
}

/// Over all positions, too, what is realized is what was paid out and what is still on the books,
/// and the fees are the fees of the fills.
pub proof fn law_books_conserve_money(lookup: Lookup, fills: Seq<FillView>)
    ensures
        books(lookup, fills).dom().finite(),
        total(books(lookup, fills), realized_number()) == grand_totals(lookup, fills).cash + total(
            books(lookup, fills),
            cost_number(),
        ),
        total(books(lookup, fills), fees_number()) == grand_totals(lookup, fills).fees,
    decreases fills.len(),
{
    if fills.len() > 0 {
        let before = books(lookup, fills.drop_last());
        let fill = fills.last();
        let key = key_of(fill);
        law_books_conserve_money(lookup, fills.drop_last());
        if last_outcome(lookup, fills) is Ok {
            let delta = last_outcome(lookup, fills)->Ok_0;
            law_transition_conserves_money(
                key,
                held(before, key),
                fill,
                lookup(fill.venue, fill.symbol)->0.micro_per_tick_lot,
            );
            lemma_total_after(before, realized_number(), key, delta.after);
            lemma_total_after(before, fees_number(), key, delta.after);
            lemma_total_after(before, cost_number(), key, delta.after);
        }
    } else {
        assert(books(lookup, fills).dom() =~= Set::empty());
    }
}

/// Whether two fills trade the same quantity of an instrument at the same price on the two sides.
pub open spec fn are_matched(a: FillView, b: FillView) -> bool {
    &&& a.instrument == b.instrument
    &&& a.price == b.price && a.qty == b.qty
    &&& a.side != b.side
}

/// Whether `partners` pairs the fills of a tape, wherever they stand on it: each has a partner,
/// is the partner of its partner, and is matched by it.
pub open spec fn is_pairing(fills: Seq<FillView>, partners: Seq<int>) -> bool {
    &&& partners.len() == fills.len()
    &&& forall|i: int|
        #![trigger partners[i]]
        0 <= i < fills.len() ==> {
            &&& 0 <= partners[i] < fills.len()
            &&& partners[partners[i]] == i
            &&& are_matched(fills[i], fills[partners[i]])
        }
}

/// The sum of a number over places.
spec fn sum_over(places: Set<int>, number: spec_fn(int) -> int) -> int
    decreases places.len(),
    when places.finite()
{
    if places.len() == 0 {
        0
    } else {
        let place = places.choose();
        number(place) + sum_over(places.remove(place), number)
    }
}

/// Any place can be counted first.
proof fn lemma_sum_of_one(places: Set<int>, number: spec_fn(int) -> int, place: int)
    requires
        places.finite(),
        places.contains(place),
    ensures
        sum_over(places, number) == number(place) + sum_over(places.remove(place), number),
    decreases places.len(),
{
    let first = places.choose();
    assert(places.contains(first));
    if first != place {
        lemma_sum_of_one(places.remove(first), number, place);
        lemma_sum_of_one(places.remove(place), number, first);
        assert(places.remove(first).remove(place) =~= places.remove(place).remove(first));
    }
}

/// Where each place has a partner that holds the opposite number, the sum is nothing.
proof fn lemma_sum_of_pairs(places: Set<int>, number: spec_fn(int) -> int, partners: Seq<int>)
    requires
        places.finite(),
        forall|i: int| #[trigger]
            places.contains(i) ==> {
                &&& places.contains(partners[i])
                &&& partners[i] != i
                &&& partners[partners[i]] == i
                &&& number(i) + number(partners[i]) == 0
            },
    ensures
        sum_over(places, number) == 0,
    decreases places.len(),
{
    if places.len() > 0 {
        let a = places.choose();
        assert(places.contains(a));
        let b = partners[a];
        assert(places.contains(b));
        let rest = places.remove(a).remove(b);
        lemma_sum_of_one(places, number, a);
        lemma_sum_of_one(places.remove(a), number, b);
        assert forall|i: int| #[trigger] rest.contains(i) implies {
            &&& rest.contains(partners[i])
            &&& partners[i] != i
            &&& partners[partners[i]] == i
            &&& number(i) + number(partners[i]) == 0
        } by {
            assert(places.contains(i));
            assert(places.contains(partners[i]));
        }
        lemma_sum_of_pairs(rest, number, partners);
    }
}

/// What a fill pays out, by its place on a tape.
spec fn cash_at(lookup: Lookup, fills: Seq<FillView>) -> spec_fn(int) -> int {
    |i: int| cash(lookup, fills[i])
}

/// Where all fills are applied, what they pay out is the sum over their places, and each is of
/// the instrument that its symbol is listed for.
proof fn lemma_applied_cash(lookup: Lookup, fills: Seq<FillView>, n: int)
    requires
        0 <= n <= fills.len(),
        all_applied(lookup, fills.take(n)),
    ensures
        set_int_range(0, n).finite(),
        grand_totals(lookup, fills.take(n)).cash == sum_over(
            set_int_range(0, n),
            cash_at(lookup, fills),
        ),
        forall|i: int|
            #![trigger fills[i]]
            0 <= i < n ==> {
                &&& lookup(fills[i].venue, fills[i].symbol) is Some
                &&& lookup(fills[i].venue, fills[i].symbol)->0.instrument == fills[i].instrument
            },
    decreases n,
{
    lemma_int_range(0, n);
    if n > 0 {
        let tape = fills.take(n);
        assert(tape.drop_last() =~= fills.take(n - 1));
        assert(tape.last() == fills[n - 1]);
        lemma_applied_cash(lookup, fills, n - 1);
        lemma_sum_of_one(set_int_range(0, n), cash_at(lookup, fills), n - 1);
        assert(set_int_range(0, n).remove(n - 1) =~= set_int_range(0, n - 1));
    }
}

proof fn lemma_matched_pair(
    lookup: Lookup,
    scale: spec_fn(Seq<char>) -> int,
    a: FillView,
    b: FillView,
)
    requires
        is_scaled(lookup, scale),
        are_matched(a, b),
        lookup(a.venue, a.symbol) is Some,
        lookup(a.venue, a.symbol)->0.instrument == a.instrument,
        lookup(b.venue, b.symbol) is Some,
        lookup(b.venue, b.symbol)->0.instrument == b.instrument,
    ensures
        cash(lookup, a) + cash(lookup, b) == 0,
{
    lemma_value_splits(a.price.0 as int, a.qty.0 as int, 0, scale(a.instrument));
}

proof fn lemma_matched_cash(
    lookup: Lookup,
    scale: spec_fn(Seq<char>) -> int,
    fills: Seq<FillView>,
    partners: Seq<int>,
)
    requires
        is_scaled(lookup, scale),
        is_pairing(fills, partners),
        all_applied(lookup, fills),
    ensures
        grand_totals(lookup, fills).cash == 0,
{
    let n = fills.len() as int;
    let places = set_int_range(0, n);
    let number = cash_at(lookup, fills);
    assert(fills.take(n) =~= fills);
    lemma_applied_cash(lookup, fills, n);
    assert forall|i: int| #[trigger] places.contains(i) implies {
        &&& places.contains(partners[i])
        &&& partners[i] != i
        &&& partners[partners[i]] == i
        &&& number(i) + number(partners[i]) == 0
    } by {
        let j = partners[i];
        assert(are_matched(fills[i], fills[j]));
        lemma_matched_pair(lookup, scale, fills[i], fills[j]);
    }
    lemma_sum_of_pairs(places, number, partners);
}

/// Where each fill is matched by one on the other side, wherever the two stand on the tape, what
/// is realized over all positions is what is still on the books, so that it comes to nothing once
/// all positions are flat. Each instrument has to trade on one grid, as a sound listing sees to.
pub proof fn law_matched_fills_conserve_money(
    lookup: Lookup,
    scale: spec_fn(Seq<char>) -> int,
    fills: Seq<FillView>,
    partners: Seq<int>,
)
    requires
        is_scaled(lookup, scale),
        is_pairing(fills, partners),
        all_applied(lookup, fills),
    ensures
        total(books(lookup, fills), realized_number()) == total(
            books(lookup, fills),
            cost_number(),
        ),
        (forall|key: PositionKeyView| #[trigger]
            books(lookup, fills).contains_key(key) ==> books(lookup, fills)[key].net_qty.0 == 0)
            ==> total(books(lookup, fills), realized_number()) == 0,
        total(books(lookup, fills), fees_number()) == grand_totals(lookup, fills).fees,
{
    let positions = books(lookup, fills);
    law_books_conserve_money(lookup, fills);
    lemma_matched_cash(lookup, scale, fills, partners);
    law_books_are_valid(lookup, fills);
    if forall|key: PositionKeyView| #[trigger]
        positions.contains_key(key) ==> positions[key].net_qty.0 == 0 {
        assert forall|key: PositionKeyView| #[trigger]
            positions.contains_key(key) implies signed_cost(positions[key]) == 0 by {
            assert(position_fault(positions[key]) is None);
        }
        lemma_total_of_nothing(positions, cost_number());
    }
}

proof fn lemma_total_of_nothing(positions: Positions, number: spec_fn(Position) -> int)
    requires
        positions.dom().finite(),
        forall|key: PositionKeyView| #[trigger]
            positions.contains_key(key) ==> number(positions[key]) == 0,
    ensures
        total(positions, number) == 0,
    decreases positions.dom().len(),
{
    if positions.dom().len() > 0 {
        let key = positions.dom().choose();
        assert(positions.contains_key(key));
        let rest = positions.remove(key);
        assert forall|other: PositionKeyView| #[trigger] rest.contains_key(other) implies number(
            rest[other],
        ) == 0 by {
            assert(positions.contains_key(other));
        }
        lemma_total_of_nothing(rest, number);
    }
}

/// Whether a fill belongs to a position.
pub open spec fn belongs_to(key: PositionKeyView) -> spec_fn(FillView) -> bool {
    |fill: FillView| key_of(fill) == key
}

/// Whether a fill is of a venue.
pub open spec fn comes_from(venue: Venue) -> spec_fn(FillView) -> bool {
    |fill: FillView| fill.venue == venue
}

/// What becomes of a fill depends on its own position alone.
proof fn lemma_outcome_is_local(
    a: Positions,
    b: Positions,
    fill: FillView,
    lookup: Lookup,
)
    requires
        held(a, key_of(fill)) == held(b, key_of(fill)),
    ensures
        applied(a, fill, lookup(fill.venue, fill.symbol)) == applied(
            b,
            fill,
            lookup(fill.venue, fill.symbol),
        ),
{
}

/// A position is what its own fills make of it: the fills of other positions do not matter.
pub proof fn law_positions_are_independent(
    lookup: Lookup,
    fills: Seq<FillView>,
    key: PositionKeyView,
)
    ensures
        ({
            let own = fills.filter(belongs_to(key));
            &&& books(lookup, fills).contains_key(key) == books(lookup, own).contains_key(key)
            &&& held(books(lookup, fills), key) == held(books(lookup, own), key)
        }),
    decreases fills.len(),
{
    reveal(Seq::filter);
    if fills.len() > 0 {
        let shorter = fills.drop_last();
        let fill = fills.last();
        let own = shorter.filter(belongs_to(key));
        law_positions_are_independent(lookup, shorter, key);
        if key_of(fill) == key {
            lemma_outcome_is_local(books(lookup, shorter), books(lookup, own), fill, lookup);
        }
        assert(own.push(fill).drop_last() =~= own);
    }
}

proof fn lemma_filter_twice(fills: Seq<FillView>, venue: Venue, key: PositionKeyView)
    requires
        forall|i: int|
            0 <= i < fills.len() && key_of(#[trigger] fills[i]) == key ==> fills[i].venue == venue,
    ensures
        fills.filter(comes_from(venue)).filter(belongs_to(key)) == fills.filter(belongs_to(key)),
    decreases fills.len(),
{
    reveal(Seq::filter);
    if fills.len() > 0 {
        let shorter = fills.drop_last();
        let fill = fills.last();
        assert(fill == fills[fills.len() - 1]);
        assert forall|i: int| 0 <= i < shorter.len() && key_of(#[trigger] shorter[i])
            == key implies shorter[i].venue == venue by {
            assert(shorter[i] == fills[i]);
        }
        lemma_filter_twice(shorter, venue, key);
        let of_venue = shorter.filter(comes_from(venue));
        assert(of_venue.push(fill).drop_last() =~= of_venue);
    }
}

/// How the fills of the venues interleave does not change the positions, where each instrument
/// trades on one venue: two tapes with the same fills of each venue in the same order give the
/// same positions.
pub proof fn law_interleave_does_not_change_positions(
    lookup: Lookup,
    home: spec_fn(Seq<char>) -> Venue,
    fills: Seq<FillView>,
    others: Seq<FillView>,
)
    requires
        forall|i: int|
            0 <= i < fills.len() ==> (#[trigger] fills[i]).venue == home(fills[i].instrument),
        forall|i: int|
            0 <= i < others.len() ==> (#[trigger] others[i]).venue == home(others[i].instrument),
        fills.filter(comes_from(Venue::Hl)) == others.filter(comes_from(Venue::Hl)),
        fills.filter(comes_from(Venue::Pm)) == others.filter(comes_from(Venue::Pm)),
    ensures
        books(lookup, fills) == books(lookup, others),
{
    let a = books(lookup, fills);
    let b = books(lookup, others);
    assert forall|key: PositionKeyView| a.contains_key(key) == b.contains_key(key) && held(a, key)
        == held(b, key) by {
        let venue = home(key.instrument);
        lemma_filter_twice(fills, venue, key);
        lemma_filter_twice(others, venue, key);
        law_positions_are_independent(lookup, fills, key);
        law_positions_are_independent(lookup, others, key);
    }
    assert(a =~= b) by {
        assert forall|key: PositionKeyView| a.dom().contains(key) == b.dom().contains(key) by {
            assert(a.contains_key(key) == b.contains_key(key) && held(a, key) == held(b, key));
        }
        assert(a.dom() =~= b.dom());
        assert forall|key: PositionKeyView| a.dom().contains(key) implies a[key] == b[key] by {
            assert(held(a, key) == held(b, key));
        }
    }
}

/// The fills of a tape.
pub open spec fn tape_fills(tape: Seq<SequencedFillView>) -> Seq<FillView> {
    tape.map_values(|entry: SequencedFillView| entry.fill)
}

proof fn lemma_fills_of_venue(entries: Seq<Entry>, venue: Venue)
    ensures
        entry_fills(entries).filter(comes_from(venue)) == entry_fills(
            entries.filter(of_venue(venue)),
        ),
    decreases entries.len(),
{
    reveal(Seq::filter);
    if entries.len() > 0 {
        let shorter = entries.drop_last();
        lemma_fills_of_venue(shorter, venue);
        assert(entry_fills(entries).drop_last() =~= entry_fills(shorter));
        let own = shorter.filter(of_venue(venue));
        assert(entry_fills(own.push(entries.last())) =~= entry_fills(own).push(entries.last().1));
    } else {
        assert(entry_fills(entries) =~= Seq::empty());
    }
}

proof fn lemma_tape_of_venue(lookup: Lookup, actions: Seq<Action>)
    ensures
        ({
            let run = IngestRun::of(lookup, actions);
            let fills = tape_fills(run.step(lookup, Action::Flush).tape);
            &&& fills == entry_fills(merged(run.hl, run.pm))
            &&& fills.filter(comes_from(Venue::Hl)) == entry_fills(run.hl)
            &&& fills.filter(comes_from(Venue::Pm)) == entry_fills(run.pm)
        }),
{
    let run = IngestRun::of(lookup, actions);
    let calls = sequencer_calls(lookup, actions);
    law_ingester_drives_a_sequencer(lookup, actions);
    law_tape_is_the_merge(calls);
    law_pushes_are_in_lane_order(calls);
    let order = merged(run.hl, run.pm);
    let tape = run.step(lookup, Action::Flush).tape;
    assert(tape == Run::of(calls).step(Call::Flush).tape);
    assert(tape_fills(numbered(order, 1)) =~= entry_fills(order));
    lemma_fills_of_venue(order, Venue::Hl);
    lemma_fills_of_venue(order, Venue::Pm);
}

/// From arrival to position: where each instrument trades on one venue, two runs that accept the
/// same fills of each venue come to the same positions, however the venues interleave and
/// whenever their fills were stamped.
pub proof fn law_final_positions_ignore_the_interleave(
    lookup: Lookup,
    home: spec_fn(Seq<char>) -> Venue,
    actions: Seq<Action>,
    others: Seq<Action>,
)
    requires
        entry_fills(IngestRun::of(lookup, actions).hl) == entry_fills(
            IngestRun::of(lookup, others).hl,
        ),
        entry_fills(IngestRun::of(lookup, actions).pm) == entry_fills(
            IngestRun::of(lookup, others).pm,
        ),
        forall|fill: FillView| #[trigger]
            tape_fills(
                IngestRun::of(lookup, actions).step(lookup, Action::Flush).tape,
            ).contains(fill) ==> fill.venue == home(fill.instrument),
        forall|fill: FillView| #[trigger]
            tape_fills(
                IngestRun::of(lookup, others).step(lookup, Action::Flush).tape,
            ).contains(fill) ==> fill.venue == home(fill.instrument),
    ensures
        books(
            lookup,
            tape_fills(IngestRun::of(lookup, actions).step(lookup, Action::Flush).tape),
        ) == books(
            lookup,
            tape_fills(IngestRun::of(lookup, others).step(lookup, Action::Flush).tape),
        ),
{
    let a = tape_fills(IngestRun::of(lookup, actions).step(lookup, Action::Flush).tape);
    let b = tape_fills(IngestRun::of(lookup, others).step(lookup, Action::Flush).tape);
    lemma_tape_of_venue(lookup, actions);
    lemma_tape_of_venue(lookup, others);
    assert forall|i: int| 0 <= i < a.len() implies (#[trigger] a[i]).venue == home(
        a[i].instrument,
    ) by {
        assert(a.contains(a[i]));
    }
    assert forall|i: int| 0 <= i < b.len() implies (#[trigger] b[i]).venue == home(
        b[i].instrument,
    ) by {
        assert(b.contains(b[i]));
    }
    law_interleave_does_not_change_positions(lookup, home, a, b);
}

/// A fill that an event was made into is one that its instrument admits: the keeper turns none
/// away for its venue, kind, price, quantity or fee.
pub proof fn law_canonical_fill_fits_its_instrument(event: RawEventView, spec: InstrumentSpecView)
    requires
        tradable(event_symbol(event), spec),
        raw_fill(event, Some(spec)) is Ok,
    ensures
        fill_fault(raw_fill(event, Some(spec))->Ok_0, spec) is None,
{
    match event {
        RawEventView::Hl(event) => {
            let fill = raw_fill(RawEventView::Hl(event), Some(spec))->Ok_0;
            lemma_whole_quotient(fixed_value(event.px, 6)->0, spec.tick_micro);
            lemma_whole_quotient(fixed_value(event.qty, 9)->0, spec.lot_qty_e9);
            lemma_fixed_value_fits(event.fee, 6);
            assert(fill.price.0 > 0 && fill.qty.0 > 0 && fill.fee.0 >= 0);
        },
        RawEventView::Pm(event) => {
            let fill = raw_fill(RawEventView::Pm(event), Some(spec))->Ok_0;
            let full = payout_ticks(spec);
            let ticks = pm_price(event, spec)->Ok_0;
            let value = ticks * event.size * spec.micro_per_tick_lot;
            lemma_whole_quotient(1_000_000, spec.tick_micro);
            assert(full >= 100);
            assert(value * event.fee_bps >= 0) by (nonlinear_arith)
                requires
                    value == ticks * event.size * spec.micro_per_tick_lot,
                    ticks >= 0,
                    event.size >= 0,
                    spec.micro_per_tick_lot >= 0,
                    event.fee_bps >= 0,
            ;
            assert(fill.price.0 > 0 && fill.qty.0 > 0 && fill.fee.0 >= 0);
        },
    }
}

proof fn lemma_whole_quotient(n: int, d: int)
    requires
        n > 0,
        d > 0,
        n % d == 0,
    ensures
        n / d > 0,
{
    vstd::arithmetic::div_mod::lemma_fundamental_div_mod(n, d);
    assert(n / d > 0) by (nonlinear_arith)
        requires
            n == d * (n / d) + n % d,
            n % d == 0,
            n > 0,
            d > 0,
    ;
}

/// Whether the open lots of a position cost a tick each at least, where a tick on a lot is worth
/// `scale`.
pub open spec fn is_covered(position: Position, scale: int) -> bool {
    position.open_cost.0 >= magnitude(position.net_qty.0 as int) * scale
}

/// Closing a part of a covered position leaves the rest covered, however the basis is rounded.
proof fn lemma_rest_is_covered(cost: int, closed: int, size: int, scale: int)
    requires
        0 < closed < size,
        cost >= size * scale,
        scale > 0,
    ensures
        cost - half_even(cost * closed, size) >= (size - closed) * scale,
{
    let basis = half_even(cost * closed, size);
    let rest = size - closed;
    let spare = cost - basis - rest * scale;
    law_half_even_is_nearest(cost * closed, size, basis);
    let rounded = basis * size;
    assert(-size <= 2 * (cost * closed - rounded));
    assert(cost * closed == cost * size - cost * rest) by (nonlinear_arith)
        requires
            rest == size - closed,
    ;
    assert(cost * rest >= size * (rest * scale)) by (nonlinear_arith)
        requires
            cost >= size * scale,
            rest > 0,
    ;
    assert(spare * size == cost * size - rounded - size * (rest * scale)) by (nonlinear_arith)
        requires
            spare == cost - basis - rest * scale,
            rounded == basis * size,
    ;
    assert(2 * (spare * size) >= -size);
    assert(spare >= 0) by (nonlinear_arith)
        requires
            2 * (spare * size) >= -size,
            size > 0,
    ;
}

proof fn lemma_value_covers(price: int, qty: int, scale: int)
    requires
        price >= 1,
        qty >= 0,
        scale > 0,
    ensures
        value_of(price, qty, scale) >= qty * scale,
{
    assert(price * qty * scale >= qty * scale) by (nonlinear_arith)
        requires
            price >= 1,
            qty >= 0,
            scale > 0,
    ;
}

/// The average price of a covered position is a tick at least.
proof fn lemma_average_is_positive(cost: int, size: int, scale: int)
    requires
        size > 0,
        scale > 0,
        cost >= size * scale,
    ensures
        cost > 0,
        half_even(cost, size * scale) >= 1,
{
    let d = size * scale;
    assert(d > 0) by (nonlinear_arith)
        requires
            d == size * scale,
            size > 0,
            scale > 0,
    ;
    lemma_half_even_bounds(cost, d);
    assert(cost / d >= 1) by (nonlinear_arith)
        requires
            cost >= d,
            d > 0,
    ;
}

/// A sound fill on a sound position is turned away for one reason only: that a number does not
/// fit. Where every number fits it is applied, and the position stays sound.
pub proof fn law_only_overflow_stops_a_sound_fill(
    key: PositionKeyView,
    before: Position,
    fill: FillView,
    scale: int,
)
    requires
        position_fault(before) is None,
        is_covered(before, scale),
        scale > 0,
        fill.price.0 > 0,
        fill.qty.0 > 0,
        fill.fee.0 >= 0,
    ensures
        transitioned(key, before, fill, scale) is Ok <==> settles(before, fill, scale),
        transitioned(key, before, fill, scale) is Err ==> transitioned(key, before, fill, scale)
            == Err::<PositionDeltaView, RejectReasonView>(RejectReasonView::ArithmeticOverflow),
        transitioned(key, before, fill, scale) is Ok ==> is_covered(
            transitioned(key, before, fill, scale)->Ok_0.after,
            scale,
        ),
{
    let s = settle(before, fill, scale);
    let after = settled(before, fill, scale);
    let held_qty = before.net_qty.0 as int;
    let size = magnitude(held_qty);
    let cost = before.open_cost.0 as int;
    let price = fill.price.0 as int;
    let qty = fill.qty.0 as int;
    let open = magnitude(s.net_qty);
    if settles(before, fill, scale) {
        lemma_value_covers(price, qty, scale);
        lemma_value_covers(price, s.opened, scale);
        if adds_to(held_qty, signed_qty(fill)) {
            assert(open == size + qty);
            assert((size + qty) * scale == size * scale + qty * scale) by (nonlinear_arith);
        } else if s.closed < size {
            assert(open == size - s.closed);
            lemma_rest_is_covered(cost, s.closed, size, scale);
        } else {
            assert(open == s.opened);
        }
        assert(s.open_cost >= open * scale);
        if open > 0 {
            lemma_average_is_positive(s.open_cost, open, scale);
        } else {
            assert(s.net_qty == 0);
            lemma_value_splits(price, 0, 0, scale);
        }
        assert(position_fault(after) is None);
    }
}

/// A ratio rounds to a number of ticks that fits if and only if it is below half a tick more than
/// the largest one.
proof fn lemma_average_fits(n: int, d: int)
    requires
        n >= 0,
        d > 0,
    ensures
        half_even(n, d) >= 0,
        half_even(n, d) <= i64::MAX <==> 2 * n < 18_446_744_073_709_551_615 * d,
{
    let q = half_even(n, d);
    let gap = n - q * d;
    lemma_half_even_bounds(n, d);
    law_half_even_is_nearest(n, d, q);
    assert(2 * n == 2 * (q * d) + 2 * gap);
    if q <= i64::MAX {
        let room = 9_223_372_036_854_775_807 - q;
        assert(18_446_744_073_709_551_615 * d == 2 * (q * d) + d + 2 * (room * d))
            by (nonlinear_arith)
            requires
                room == 9_223_372_036_854_775_807 - q,
        ;
        assert(room * d >= room) by (nonlinear_arith)
            requires
                room >= 0,
                d >= 1,
        ;
        if room == 0 {
            assert(q % 2 == 1);
        }
    } else {
        let excess = q - 9_223_372_036_854_775_808;
        assert(18_446_744_073_709_551_615 * d == 2 * (q * d) - d - 2 * (excess * d))
            by (nonlinear_arith)
            requires
                excess == q - 9_223_372_036_854_775_808,
        ;
        assert(excess * d >= 0) by (nonlinear_arith)
            requires
                excess >= 0,
                d > 0,
        ;
    }
}

/// Whether an average can be taken of `cost` over `lots` lots and kept: twice the remainder and
/// the number of ticks fit.
pub open spec fn average_fits(cost: int, lots: int, scale: int) -> bool {
    &&& lots * scale <= i128::MAX
    &&& 2 * (cost % (lots * scale)) <= i128::MAX
    &&& 2 * cost < 18_446_744_073_709_551_615 * (lots * scale)
}

proof fn lemma_averages(cost: int, net_qty: int, scale: int)
    requires
        cost >= 0,
        net_qty != 0,
        scale > 0,
    ensures
        averages(cost, net_qty, scale) <==> -i64::MAX <= net_qty <= i64::MAX && average_fits(
            cost,
            magnitude(net_qty),
            scale,
        ),
{
    let lots = magnitude(net_qty);
    assert(lots * scale > 0) by (nonlinear_arith)
        requires
            lots > 0,
            scale > 0,
    ;
    lemma_average_fits(cost, lots * scale);
}

/// A sound fill that adds to a sound position is applied if and only if every number fits: the
/// lots, their value, the new cost, the average and the fees. Otherwise the only reason is that
/// one does not.
pub proof fn law_adding_is_applied_where_numbers_fit(
    key: PositionKeyView,
    before: Position,
    fill: FillView,
    scale: int,
)
    requires
        before.fees.0 >= 0,
        before.net_qty.0 == 0 ==> before.open_cost.0 == 0 && before.avg_entry_price is None,
        before.net_qty.0 != 0 ==> before.avg_entry_price is Some && (
        before.avg_entry_price->0).0 > 0,
        before.open_cost.0 >= scale * if before.net_qty.0 < 0 {
            -(before.net_qty.0 as int)
        } else {
            before.net_qty.0 as int
        },
        scale > 0,
        fill.price.0 > 0,
        fill.qty.0 > 0,
        fill.fee.0 >= 0,
        fill.side == Side::Buy ==> before.net_qty.0 >= 0,
        fill.side == Side::Sell ==> before.net_qty.0 <= 0,
    ensures
        ({
            let outcome = transitioned(key, before, fill, scale);
            let lots = fill.qty.0 + if before.net_qty.0 < 0 {
                -(before.net_qty.0 as int)
            } else {
                before.net_qty.0 as int
            };
            let value = fill.price.0 * fill.qty.0 * scale;
            let cost = before.open_cost.0 + value;
            &&& outcome is Ok <==> {
                &&& lots <= i64::MAX
                &&& cost <= i128::MAX
                &&& average_fits(cost, lots, scale)
                &&& before.fees.0 + fill.fee.0 <= i128::MAX
            }
            &&& outcome is Err ==> outcome == Err::<PositionDeltaView, RejectReasonView>(
                RejectReasonView::ArithmeticOverflow,
            )
        }),
{
    let s = settle(before, fill, scale);
    let value = fill.price.0 * fill.qty.0 * scale;
    let lots = magnitude(before.net_qty.0 as int);
    assert(scale * lots == lots * scale) by (nonlinear_arith);
    assert(lots * scale >= 0 && (lots > 0 ==> lots * scale > 0)) by (nonlinear_arith)
        requires
            lots >= 0,
            scale > 0,
    ;
    lemma_value_covers(fill.price.0 as int, fill.qty.0 as int, scale);
    assert(fill.qty.0 * scale > 0) by (nonlinear_arith)
        requires
            fill.qty.0 > 0,
            scale > 0,
    ;
    assert(position_fault(before) is None);
    law_only_overflow_stops_a_sound_fill(key, before, fill, scale);
    lemma_averages(s.open_cost, s.net_qty, scale);
}

/// A sound fill that closes some of the lots of a sound position, and not all, is applied if and
/// only if every number fits: the value of what is closed, the cost times its lots, what is
/// realized, the average of the rest, and the totals. `share` is the part of the cost that goes
/// with the closed lots.
pub proof fn law_reducing_is_applied_where_numbers_fit(
    key: PositionKeyView,
    before: Position,
    fill: FillView,
    scale: int,
    share: int,
)
    requires
        before.fees.0 >= 0,
        before.avg_entry_price is Some && (before.avg_entry_price->0).0 > 0,
        scale > 0,
        fill.price.0 > 0,
        fill.qty.0 > 0,
        fill.fee.0 >= 0,
        fill.side == Side::Sell ==> before.net_qty.0 > fill.qty.0,
        fill.side == Side::Buy ==> -before.net_qty.0 > fill.qty.0,
        ({
            let lots = if before.net_qty.0 < 0 {
                -(before.net_qty.0 as int)
            } else {
                before.net_qty.0 as int
            };
            let gap = before.open_cost.0 * fill.qty.0 - share * lots;
            &&& before.open_cost.0 >= lots * scale
            &&& -lots <= 2 * gap <= lots
            &&& 2 * gap == lots || 2 * gap == -lots ==> share % 2 == 0
        }),
    ensures
        ({
            let outcome = transitioned(key, before, fill, scale);
            let lots = if before.net_qty.0 < 0 {
                -(before.net_qty.0 as int)
            } else {
                before.net_qty.0 as int
            };
            let value = fill.price.0 * fill.qty.0 * scale;
            let realized = if fill.side == Side::Sell {
                value - share
            } else {
                share - value
            };
            &&& outcome is Ok <==> {
                &&& lots <= i64::MAX
                &&& value <= i128::MAX
                &&& before.open_cost.0 * fill.qty.0 <= i128::MAX
                &&& average_fits(before.open_cost.0 - share, lots - fill.qty.0, scale)
                &&& i128::MIN <= before.realized_pnl.0 + realized <= i128::MAX
                &&& before.fees.0 + fill.fee.0 <= i128::MAX
            }
            &&& outcome is Err ==> outcome == Err::<PositionDeltaView, RejectReasonView>(
                RejectReasonView::ArithmeticOverflow,
            )
        }),
{
    let s = settle(before, fill, scale);
    let lots = magnitude(before.net_qty.0 as int);
    let value = fill.price.0 * fill.qty.0 * scale;
    let cost = before.open_cost.0 as int;
    assert(lots * scale > 0) by (nonlinear_arith)
        requires
            lots > 0,
            scale > 0,
    ;
    law_half_even_is_nearest(cost * fill.qty.0, lots, share);
    lemma_share_fits(cost, fill.qty.0 as int, lots);
    lemma_value_covers(fill.price.0 as int, fill.qty.0 as int, scale);
    assert(fill.qty.0 * scale > 0 && cost * fill.qty.0 > 0) by (nonlinear_arith)
        requires
            fill.qty.0 > 0,
            scale > 0,
            cost > 0,
    ;
    assert(position_fault(before) is None);
    law_only_overflow_stops_a_sound_fill(key, before, fill, scale);
    lemma_averages(s.open_cost, s.net_qty, scale);
}

/// A sound fill that closes all the lots of a sound position, and opens whatever is left of it on
/// the other side, is applied if and only if every number fits: the value of what is closed and
/// of what is opened, what is realized, the average of a new position, and the totals.
pub proof fn law_closing_is_applied_where_numbers_fit(
    key: PositionKeyView,
    before: Position,
    fill: FillView,
    scale: int,
)
    requires
        before.fees.0 >= 0,
        before.avg_entry_price is Some && (before.avg_entry_price->0).0 > 0,
        before.open_cost.0 >= scale * if before.net_qty.0 < 0 {
            -(before.net_qty.0 as int)
        } else {
            before.net_qty.0 as int
        },
        scale > 0,
        fill.price.0 > 0,
        fill.fee.0 >= 0,
        fill.side == Side::Sell ==> 0 < before.net_qty.0 <= fill.qty.0,
        fill.side == Side::Buy ==> 0 < -before.net_qty.0 <= fill.qty.0,
    ensures
        ({
            let outcome = transitioned(key, before, fill, scale);
            let lots = if before.net_qty.0 < 0 {
                -(before.net_qty.0 as int)
            } else {
                before.net_qty.0 as int
            };
            let closed = fill.price.0 * lots * scale;
            let opened = fill.price.0 * (fill.qty.0 - lots) * scale;
            let realized = if fill.side == Side::Sell {
                closed - before.open_cost.0
            } else {
                before.open_cost.0 - closed
            };
            &&& outcome is Ok <==> {
                &&& lots <= i64::MAX
                &&& closed <= i128::MAX
                &&& opened <= i128::MAX
                &&& lots < fill.qty.0 ==> average_fits(opened, fill.qty.0 - lots, scale)
                &&& i128::MIN <= before.realized_pnl.0 + realized <= i128::MAX
                &&& before.fees.0 + fill.fee.0 <= i128::MAX
            }
            &&& outcome is Err ==> outcome == Err::<PositionDeltaView, RejectReasonView>(
                RejectReasonView::ArithmeticOverflow,
            )
        }),
{
    let s = settle(before, fill, scale);
    let lots = magnitude(before.net_qty.0 as int);
    let rest = fill.qty.0 - lots;
    assert(scale * lots == lots * scale) by (nonlinear_arith);
    assert(lots * scale > 0 && rest * scale >= 0) by (nonlinear_arith)
        requires
            lots > 0,
            rest >= 0,
            scale > 0,
    ;
    lemma_value_covers(fill.price.0 as int, lots, scale);
    lemma_value_covers(fill.price.0 as int, rest, scale);
    assert(position_fault(before) is None);
    law_only_overflow_stops_a_sound_fill(key, before, fill, scale);
    if rest > 0 {
        lemma_averages(s.open_cost, s.net_qty, scale);
    }
}

/// A position that makes no sense is left alone, and what is wrong with it is said: negative fees,
/// a flat position with a cost or an average, or an open one without a positive cost and average.
pub proof fn law_a_senseless_position_takes_no_fill(
    key: PositionKeyView,
    before: Position,
    fill: FillView,
    scale: int,
)
    ensures
        ({
            let outcome = transitioned(key, before, fill, scale);
            let open = before.net_qty.0 != 0;
            let priced = before.avg_entry_price is Some && (before.avg_entry_price->0).0 > 0;
            &&& before.fees.0 < 0 ==> outcome == Err::<PositionDeltaView, RejectReasonView>(
                RejectReasonView::InvalidPosition("negative fees"@),
            )
            &&& before.fees.0 >= 0 && !open && (before.open_cost.0 != 0
                || before.avg_entry_price is Some) ==> outcome == Err::<
                PositionDeltaView,
                RejectReasonView,
            >(RejectReasonView::InvalidPosition("flat position has open cost"@))
            &&& before.fees.0 >= 0 && open && (before.open_cost.0 <= 0 || !priced) ==> outcome
                == Err::<PositionDeltaView, RejectReasonView>(
                RejectReasonView::InvalidPosition("open position has invalid cost"@),
            )
        }),
{
}

/// A fill is held against its instrument before it is held against its position: an unknown symbol
/// is refused, then a fill of another venue, kind or instrument, then one without a positive
/// price and quantity or with a negative fee, then an instrument without a grid, and then a
/// binary that is priced outside one to ninety-nine percent of the payout. A fill that passes is
/// applied to the position of its account in its instrument, or to a flat one where there is
/// none.
pub proof fn law_a_fill_is_held_against_its_instrument(
    positions: Positions,
    fill: FillView,
    listed: Option<InstrumentSpecView>,
)
    ensures
        ({
            let outcome = applied(positions, fill, listed);
            let spec = listed->0;
            let own = fill.venue == spec.venue && fill.kind == spec.kind && fill.instrument
                == spec.instrument;
            let sound = fill.price.0 > 0 && fill.qty.0 > 0 && fill.fee.0 >= 0;
            let gridded = spec.tick_micro > 0 && spec.lot_qty_e9 > 0 && spec.micro_per_tick_lot
                > 0;
            let whole = spec.kind == Kind::Perp || 1_000_000int % spec.tick_micro == 0;
            let full = 1_000_000int / spec.tick_micro;
            let banded = spec.kind == Kind::Perp || (full / 100 <= fill.price.0
                && fill.price.0 <= full - full / 100);
            let key = PositionKeyView { account: fill.account, instrument: fill.instrument };
            let none = Position {
                net_qty: Lots(0),
                avg_entry_price: None,
                open_cost: Micro(0),
                realized_pnl: Micro(0),
                fees: Micro(0),
            };
            let before = if positions.contains_key(key) {
                positions[key]
            } else {
                none
            };
            if listed is None {
                outcome == Err::<PositionDeltaView, RejectReasonView>(
                    RejectReasonView::UnknownSymbol(fill.symbol),
                )
            } else if !own {
                outcome == Err::<PositionDeltaView, RejectReasonView>(
                    RejectReasonView::InvalidFill(fill.symbol),
                )
            } else if !sound {
                outcome == Err::<PositionDeltaView, RejectReasonView>(
                    RejectReasonView::InvalidFill(fill.event_id),
                )
            } else if !gridded || !whole {
                outcome == Err::<PositionDeltaView, RejectReasonView>(
                    RejectReasonView::InvalidFill(spec.symbol),
                )
            } else if !banded {
                outcome == Err::<PositionDeltaView, RejectReasonView>(
                    RejectReasonView::PriceOutOfRange {
                        symbol: fill.symbol,
                        ticks: fill.price.0,
                    },
                )
            } else {
                outcome == transitioned(key, before, fill, spec.micro_per_tick_lot)
            }
        }),
{
}

/// A fill that is applied moves the position of its account in its instrument to what was made of
/// it, and no other; a fill that is refused moves none.
pub proof fn law_a_fill_moves_one_position(
    positions: Positions,
    fill: FillView,
    listed: Option<InstrumentSpecView>,
    other: PositionKeyView,
)
    ensures
        ({
            let outcome = applied(positions, fill, listed);
            let next = after_fill(positions, outcome);
            let key = PositionKeyView { account: fill.account, instrument: fill.instrument };
            &&& outcome is Err ==> next == positions
            &&& outcome is Ok ==> next.contains_key(key) && next[key] == outcome->Ok_0.after
            &&& outcome is Ok && other != key ==> next.contains_key(other)
                == positions.contains_key(other)
            &&& outcome is Ok && other != key && positions.contains_key(other) ==> next[other]
                == positions[other]
        }),
{
}

/// Whether every instrument trades at one value of a tick on a lot, a positive one.
pub open spec fn is_scaled(lookup: Lookup, scale: spec_fn(Seq<char>) -> int) -> bool {
    forall|venue: Venue, symbol: Seq<char>|
        (#[trigger] lookup(venue, symbol)) is Some ==> {
            let spec = lookup(venue, symbol)->0;
            spec.micro_per_tick_lot == scale(spec.instrument) && scale(spec.instrument) > 0
        }
}

/// No fill ever finds or leaves a position that makes no sense: on the books of instruments that
/// trade on one grid each, every position is covered, and no fill is turned away for the state
/// of its position.
pub proof fn law_books_are_covered(
    lookup: Lookup,
    scale: spec_fn(Seq<char>) -> int,
    fills: Seq<FillView>,
)
    requires
        is_scaled(lookup, scale),
    ensures
        forall|key: PositionKeyView| #[trigger]
            books(lookup, fills).contains_key(key) ==> is_covered(
                books(lookup, fills)[key],
                scale(key.instrument),
            ),
        fills.len() > 0 ==> !(last_outcome(lookup, fills) matches Err(
            RejectReasonView::InvalidPosition(_),
        )),
    decreases fills.len(),
{
    if fills.len() > 0 {
        let shorter = fills.drop_last();
        let before = books(lookup, shorter);
        let fill = fills.last();
        let key = key_of(fill);
        law_books_are_covered(lookup, scale, shorter);
        law_books_are_valid(lookup, shorter);
        if lookup(fill.venue, fill.symbol) is Some {
            let spec = lookup(fill.venue, fill.symbol)->0;
            if fill_fault(fill, spec) is None {
                assert(0 * spec.micro_per_tick_lot == 0) by (nonlinear_arith);
                assert(is_covered(flat(), spec.micro_per_tick_lot));
                law_only_overflow_stops_a_sound_fill(
                    key,
                    held(before, key),
                    fill,
                    spec.micro_per_tick_lot,
                );
            }
        }
    }
}

/// The lowest and the highest price of the fills that were applied to a position, if there are
/// any.
pub open spec fn price_range(lookup: Lookup, fills: Seq<FillView>, key: PositionKeyView) -> Option<
    (int, int),
>
    decreases fills.len(),
{
    if fills.len() == 0 {
        None
    } else {
        let earlier = price_range(lookup, fills.drop_last(), key);
        let price = fills.last().price.0 as int;
        if last_outcome(lookup, fills) is Ok && key_of(fills.last()) == key {
            match earlier {
                None => Some((price, price)),
                Some((low, high)) => Some(
                    (
                        if price < low {
                            price
                        } else {
                            low
                        },
                        if price > high {
                            price
                        } else {
                            high
                        },
                    ),
                ),
            }
        } else {
            earlier
        }
    }
}

/// Whether an open position stands between two prices: its lots cost no less than at the lower
/// and no more than at the higher one, and so does its average.
pub open spec fn stands_between(position: Position, low: int, high: int, scale: int) -> bool {
    let lots = magnitude(position.net_qty.0 as int);
    lots > 0 ==> {
        &&& low * lots * scale <= position.open_cost.0 <= high * lots * scale
        &&& match position.avg_entry_price {
            Some(average) => low <= average.0 <= high,
            None => false,
        }
    }
}

/// Closing a part of a position that cost `unit` a lot at most leaves a rest that does, however
/// the basis is rounded.
proof fn lemma_rest_is_capped(cost: int, closed: int, size: int, unit: int)
    requires
        0 < closed < size,
        cost <= size * unit,
    ensures
        cost - half_even(cost * closed, size) <= (size - closed) * unit,
{
    let basis = half_even(cost * closed, size);
    let rest = size - closed;
    let spare = rest * unit - (cost - basis);
    law_half_even_is_nearest(cost * closed, size, basis);
    let rounded = basis * size;
    assert(2 * (cost * closed - rounded) <= size);
    assert(cost * closed == cost * size - cost * rest) by (nonlinear_arith)
        requires
            rest == size - closed,
    ;
    assert(cost * rest <= size * (rest * unit)) by (nonlinear_arith)
        requires
            cost <= size * unit,
            rest > 0,
    ;
    assert(spare * size == size * (rest * unit) - cost * size + rounded) by (nonlinear_arith)
        requires
            spare == rest * unit - (cost - basis),
            rounded == basis * size,
    ;
    assert(2 * (spare * size) >= -size);
    assert(spare >= 0) by (nonlinear_arith)
        requires
            2 * (spare * size) >= -size,
            size > 0,
    ;
}

/// Rounding to the nearest never leaves the bounds of what is rounded.
proof fn lemma_rounding_stays_between(n: int, d: int, low: int, high: int)
    requires
        d > 0,
        low * d <= n <= high * d,
    ensures
        low <= half_even(n, d) <= high,
{
    let q = half_even(n, d);
    law_half_even_is_nearest(n, d, q);
    assert(low <= q) by (nonlinear_arith)
        requires
            2 * (n - q * d) <= d,
            low * d <= n,
            d > 0,
    ;
    assert(q <= high) by (nonlinear_arith)
        requires
            2 * (n - q * d) >= -d,
            n <= high * d,
            d > 0,
    ;
}

proof fn lemma_lots_between(low: int, price: int, high: int, lots: int, scale: int)
    requires
        low <= price <= high,
        lots >= 0,
        scale > 0,
    ensures
        low * lots * scale <= value_of(price, lots, scale) <= high * lots * scale,
{
    let worth = lots * scale;
    assert(worth >= 0) by (nonlinear_arith)
        requires
            worth == lots * scale,
            lots >= 0,
            scale > 0,
    ;
    assert(low * worth <= price * worth <= high * worth) by (nonlinear_arith)
        requires
            low <= price <= high,
            worth >= 0,
    ;
    assert(low * lots * scale == low * worth) by (nonlinear_arith)
        requires
            worth == lots * scale,
    ;
    assert(price * lots * scale == price * worth) by (nonlinear_arith)
        requires
            worth == lots * scale,
    ;
    assert(high * lots * scale == high * worth) by (nonlinear_arith)
        requires
            worth == lots * scale,
    ;
}

/// Where a position stands between two prices and a fill trades between them, the position after
/// it stands between them too.
proof fn lemma_fill_keeps_between(
    key: PositionKeyView,
    before: Position,
    fill: FillView,
    low: int,
    high: int,
    scale: int,
)
    requires
        transitioned(key, before, fill, scale) is Ok,
        fill.qty.0 > 0,
        scale > 0,
        0 < low <= fill.price.0 <= high,
        stands_between(before, low, high, scale),
    ensures
        stands_between(transitioned(key, before, fill, scale)->Ok_0.after, low, high, scale),
{
    let s = settle(before, fill, scale);
    let held_qty = before.net_qty.0 as int;
    let size = magnitude(held_qty);
    let cost = before.open_cost.0 as int;
    let price = fill.price.0 as int;
    let qty = fill.qty.0 as int;
    let open = magnitude(s.net_qty);
    if open > 0 {
        lemma_lots_between(low, price, high, qty, scale);
        lemma_lots_between(low, price, high, s.opened, scale);
        if adds_to(held_qty, signed_qty(fill)) {
            assert(open == size + qty);
            lemma_value_splits(low, size, qty, scale);
            lemma_value_splits(high, size, qty, scale);
        } else if s.closed < size {
            let rest = size - s.closed;
            assert(open == rest);
            assert(low * size * scale == size * (low * scale)) by (nonlinear_arith);
            assert(high * size * scale == size * (high * scale)) by (nonlinear_arith);
            assert(low * rest * scale == rest * (low * scale)) by (nonlinear_arith);
            assert(high * rest * scale == rest * (high * scale)) by (nonlinear_arith);
            assert(low * scale > 0) by (nonlinear_arith)
                requires
                    low > 0,
                    scale > 0,
            ;
            lemma_rest_is_covered(cost, s.closed, size, low * scale);
            lemma_rest_is_capped(cost, s.closed, size, high * scale);
        } else {
            assert(open == s.opened);
        }
        assert(low * open * scale <= s.open_cost <= high * open * scale);
        let d = open * scale;
        assert(d > 0) by (nonlinear_arith)
            requires
                d == open * scale,
                open > 0,
                scale > 0,
        ;
        assert(low * open * scale == low * d) by (nonlinear_arith)
            requires
                d == open * scale,
        ;
        assert(high * open * scale == high * d) by (nonlinear_arith)
            requires
                d == open * scale,
        ;
        lemma_rounding_stays_between(s.open_cost, d, low, high);
    }
}

/// Bounds that are further apart hold too.
proof fn lemma_between_widens(
    position: Position,
    low: int,
    high: int,
    lower: int,
    higher: int,
    scale: int,
)
    requires
        stands_between(position, low, high, scale),
        lower <= low,
        high <= higher,
        scale > 0,
    ensures
        stands_between(position, lower, higher, scale),
{
    let lots = magnitude(position.net_qty.0 as int);
    if low <= high {
        lemma_lots_between(lower, low, higher, lots, scale);
        lemma_lots_between(lower, high, higher, lots, scale);
    }
}

/// What a position costs and its average stay between the lowest and the highest price of the
/// fills that were applied to it: rounding on partial closes never pushes them outside the traded
/// prices. Where no fill was applied there is no position.
pub proof fn law_average_stays_between_traded_prices(
    lookup: Lookup,
    scale: spec_fn(Seq<char>) -> int,
    fills: Seq<FillView>,
    key: PositionKeyView,
)
    requires
        is_scaled(lookup, scale),
    ensures
        match price_range(lookup, fills, key) {
            Some((low, high)) => {
                &&& 0 < low <= high
                &&& books(lookup, fills).contains_key(key)
                &&& stands_between(
                    books(lookup, fills)[key],
                    low,
                    high,
                    scale(key.instrument),
                )
            },
            None => !books(lookup, fills).contains_key(key),
        },
    decreases fills.len(),
{
    if fills.len() > 0 {
        let shorter = fills.drop_last();
        let before = books(lookup, shorter);
        let fill = fills.last();
        law_average_stays_between_traded_prices(lookup, scale, shorter, key);
        if last_outcome(lookup, fills) is Ok && key_of(fill) == key {
            let spec = lookup(fill.venue, fill.symbol)->0;
            let unit = spec.micro_per_tick_lot;
            assert(unit == scale(key.instrument) && unit > 0);
            let (low, high) = price_range(lookup, fills, key)->0;
            let position = held(before, key);
            match price_range(lookup, shorter, key) {
                Some((earlier_low, earlier_high)) => {
                    lemma_between_widens(position, earlier_low, earlier_high, low, high, unit);
                },
                None => {
                    assert(position == flat());
                },
            }
            lemma_fill_keeps_between(key, position, fill, low, high, unit);
        }
    }
}

/// Where a listing is looked up.
pub open spec fn lookup_in(listing: Listing) -> Lookup {
    |venue: Venue, symbol: Seq<char>|
        if listing.contains_key((venue, symbol)) {
            Some(listing[(venue, symbol)])
        } else {
            None
        }
}

/// What a tick on a lot of an instrument is worth, by a listing.
pub open spec fn scale_in(listing: Listing) -> spec_fn(Seq<char>) -> int {
    |instrument: Seq<char>|
        {
            let key = choose|key: (Venue, Seq<char>)| #[trigger]
                listing.contains_key(key) && listing[key].instrument == instrument;
            listing[key].micro_per_tick_lot
        }
}

/// A sound listing trades every instrument at one value of a tick on a lot.
pub proof fn law_sound_listing_is_scaled(listing: Listing)
    requires
        sound(listing),
    ensures
        is_scaled(lookup_in(listing), scale_in(listing)),
{
    assert forall|venue: Venue, symbol: Seq<char>|
        (#[trigger] lookup_in(listing)(venue, symbol)) is Some implies {
        let spec = lookup_in(listing)(venue, symbol)->0;
        spec.micro_per_tick_lot == scale_in(listing)(spec.instrument) && scale_in(listing)(
            spec.instrument,
        ) > 0
    } by {
        let own = (venue, symbol);
        let spec = listing[own];
        assert(listing.contains_key(own) && listing[own].instrument == spec.instrument);
        let key = choose|key: (Venue, Seq<char>)| #[trigger]
            listing.contains_key(key) && listing[key].instrument == spec.instrument;
        assert(listing.contains_key(key));
        assert(same_economics(listing[own], listing[key]));
        assert(tradable(own, spec));
    }
}

/// The venue that an instrument trades on, by a listing.
pub open spec fn home_in(listing: Listing) -> spec_fn(Seq<char>) -> Venue {
    |instrument: Seq<char>|
        {
            let key = choose|key: (Venue, Seq<char>)| #[trigger]
                listing.contains_key(key) && listing[key].instrument == instrument;
            key.0
        }
}

/// A canonical fill over a sound listing is of the venue that its instrument trades on.
proof fn lemma_canonical_fill_is_at_home(listing: Listing, event: RawEventView)
    requires
        sound(listing),
        canonical_of(lookup_in(listing), event) is Ok,
    ensures
        ({
            let fill = canonical_of(lookup_in(listing), event)->Ok_0;
            fill.venue == home_in(listing)(fill.instrument)
        }),
{
    let own = event_symbol(event);
    let fill = canonical_of(lookup_in(listing), event)->Ok_0;
    law_fill_repeats_its_event(event, lookup_in(listing)(own.0, own.1));
    assert(listing.contains_key(own) && listing[own].instrument == fill.instrument);
    let key = choose|key: (Venue, Seq<char>)| #[trigger]
        listing.contains_key(key) && listing[key].instrument == fill.instrument;
    law_instrument_trades_on_one_venue(listing, own, key);
}

spec fn all_at_home(listing: Listing, entries: Seq<Entry>) -> bool {
    forall|i: int|
        0 <= i < entries.len() ==> (#[trigger] entries[i]).1.venue == home_in(listing)(
            entries[i].1.instrument,
        )
}

proof fn lemma_accepted_fills_are_at_home(listing: Listing, actions: Seq<Action>)
    requires
        sound(listing),
    ensures
        all_at_home(listing, IngestRun::of(lookup_in(listing), actions).hl),
        all_at_home(listing, IngestRun::of(lookup_in(listing), actions).pm),
    decreases actions.len(),
{
    if actions.len() > 0 {
        let lookup = lookup_in(listing);
        let before = IngestRun::of(lookup, actions.drop_last());
        lemma_accepted_fills_are_at_home(listing, actions.drop_last());
        match actions.last() {
            Action::Catch { recv_ts, line } => {
                if accepted_fill(before.state, lookup, recv_ts, line) is Some {
                    lemma_canonical_fill_is_at_home(listing, line.parsed->Ok_0);
                }
            },
            _ => {},
        }
    }
}

proof fn lemma_tape_is_at_home(listing: Listing, actions: Seq<Action>)
    requires
        sound(listing),
    ensures
        forall|fill: FillView| #[trigger]
            tape_fills(
                IngestRun::of(lookup_in(listing), actions).step(
                    lookup_in(listing),
                    Action::Flush,
                ).tape,
            ).contains(fill) ==> fill.venue == home_in(listing)(fill.instrument),
{
    let lookup = lookup_in(listing);
    let run = IngestRun::of(lookup, actions);
    let fills = tape_fills(run.step(lookup, Action::Flush).tape);
    let order = merged(run.hl, run.pm);
    lemma_tape_of_venue(lookup, actions);
    lemma_accepted_fills_are_at_home(listing, actions);
    assert forall|fill: FillView| #[trigger] fills.contains(fill) implies fill.venue == home_in(
        listing,
    )(fill.instrument) by {
        let k = fills.index_of(fill);
        assert(order[k].1 == fill);
        lemma_entry_is_of_a_lane(run.hl, run.pm, k);
        if run.hl.contains(order[k]) {
            assert(run.hl[run.hl.index_of(order[k])] == order[k]);
        } else {
            assert(run.pm[run.pm.index_of(order[k])] == order[k]);
        }
    }
}

/// Arrival interleave does not change positions. Over a sound listing, two runs that are sent the
/// same lines by each venue, in the same order, come to the same positions: however the venues
/// interleave, whatever the stamps and ticks, as long as no venue's stamps go back, and however
/// often the tape is drained.
pub proof fn law_arrival_interleave_does_not_change_positions(
    listing: Listing,
    actions: Seq<Action>,
    others: Seq<Action>,
)
    requires
        sound(listing),
        no_flush(actions),
        no_flush(others),
        forall|venue: Venue| #[trigger] never_goes_back(venue, actions),
        forall|venue: Venue| #[trigger] never_goes_back(venue, others),
        forall|venue: Venue| #[trigger] lines_of(venue, actions) == lines_of(venue, others),
    ensures
        ({
            let lookup = lookup_in(listing);
            books(
                lookup,
                tape_fills(IngestRun::of(lookup, actions).step(lookup, Action::Flush).tape),
            ) == books(
                lookup,
                tape_fills(IngestRun::of(lookup, others).step(lookup, Action::Flush).tape),
            )
        }),
{
    let lookup = lookup_in(listing);
    assert(never_goes_back(Venue::Hl, actions) && never_goes_back(Venue::Pm, actions));
    assert(never_goes_back(Venue::Hl, others) && never_goes_back(Venue::Pm, others));
    assert(lines_of(Venue::Hl, actions) == lines_of(Venue::Hl, others));
    assert(lines_of(Venue::Pm, actions) == lines_of(Venue::Pm, others));
    law_stamps_do_not_decide_what_is_accepted(Venue::Hl, lookup, actions, others);
    law_stamps_do_not_decide_what_is_accepted(Venue::Pm, lookup, actions, others);
    lemma_tape_is_at_home(listing, actions);
    lemma_tape_is_at_home(listing, others);
    law_final_positions_ignore_the_interleave(lookup, home_in(listing), actions, others);
}

/// A keeper and an ingester over a registry look instruments up in its listing.
pub proof fn law_registry_is_its_listing(registry: Registry, ingester: Ingester<Registry>)
    ensures
        forall|venue: Venue, symbol: Seq<char>| #[trigger]
            registry.listed(venue, symbol) == lookup_in(registry@)(venue, symbol),
        ingester.lookup() == lookup_in(ingester.source()@),
{
    assert(ingester.lookup() =~= lookup_in(ingester.source()@));
}

} // verus!
