//! Cost-basis accounting: fills in, net positions, realized PnL and fees out.

use vstd::prelude::*;

use crate::canonical::{outcome_view, Fill, FillView, RejectReason, RejectReasonView, Side};
use crate::fixed::{Lots, Micro, Ticks};
use crate::instrument::{InstrumentSource, InstrumentSpec, InstrumentSpecView, Kind};
use crate::position::{
    flat, Position, PositionBook, PositionDelta, PositionDeltaView, PositionKey, PositionKeyView,
    Positions,
};
use crate::rounding::{
    div_round_half_even, divides_half_even, fits_i128, fits_i64, half_even, lemma_half_even_bounds,
    narrow,
};

verus! {

/// The distance of `n` from zero.
pub open spec fn magnitude(n: int) -> int {
    if n < 0 {
        -n
    } else {
        n
    }
}

/// What `qty` lots are worth at `price` ticks.
pub open spec fn value_of(price: int, qty: int, micro_per_tick_lot: int) -> int {
    price * qty * micro_per_tick_lot
}

/// The lots a fill adds to a position, negative for a sale.
pub open spec fn signed_qty(fill: FillView) -> int {
    match fill.side {
        Side::Buy => fill.qty.0 as int,
        Side::Sell => -(fill.qty.0 as int),
    }
}

/// What a fill does to a position, in unbounded integers.
pub struct Settlement {
    pub net_qty: int,
    pub open_cost: int,
    pub closed: int,
    pub opened: int,
    pub realized: int,
}

/// Whether a fill of `signed` lots makes a position of `held` lots larger rather than smaller.
pub open spec fn adds_to(held: int, signed: int) -> bool {
    held == 0 || (held > 0) == (signed > 0)
}

/// The part of the open cost that belongs to `closed` of `held` lots.
pub open spec fn basis_of(open_cost: int, closed: int, held: int) -> int {
    if closed == held {
        open_cost
    } else {
        half_even(open_cost * closed, held)
    }
}

/// Cost-basis accounting. A fill that adds to the position adds its value to the open cost. A
/// fill against it closes lots, realizes the difference between what they trade at now and their
/// part of the open cost, and opens whatever is left of it on the other side.
pub open spec fn settle(before: Position, fill: FillView, micro_per_tick_lot: int) -> Settlement {
    let held = before.net_qty.0 as int;
    let cost = before.open_cost.0 as int;
    let signed = signed_qty(fill);
    let price = fill.price.0 as int;
    let qty = fill.qty.0 as int;
    if adds_to(held, signed) {
        Settlement {
            net_qty: held + signed,
            open_cost: cost + value_of(price, qty, micro_per_tick_lot),
            closed: 0,
            opened: qty,
            realized: 0,
        }
    } else {
        let size = magnitude(held);
        let closed = if size < qty {
            size
        } else {
            qty
        };
        let exit = value_of(price, closed, micro_per_tick_lot);
        let basis = basis_of(cost, closed, size);
        Settlement {
            net_qty: held + signed,
            open_cost: if closed < size {
                cost - basis
            } else {
                value_of(price, qty - closed, micro_per_tick_lot)
            },
            closed,
            opened: qty - closed,
            realized: if held > 0 {
                exit - basis
            } else {
                basis - exit
            },
        }
    }
}

/// The average entry price of `net_qty` open lots that cost `open_cost`.
pub open spec fn average_price(open_cost: int, net_qty: int, micro_per_tick_lot: int) -> int {
    half_even(open_cost, magnitude(net_qty) * micro_per_tick_lot)
}

/// Whether the average entry price can be computed and kept.
pub open spec fn averages(open_cost: int, net_qty: int, micro_per_tick_lot: int) -> bool {
    let denominator = magnitude(net_qty) * micro_per_tick_lot;
    &&& fits_i64(magnitude(net_qty))
    &&& fits_i128(denominator)
    &&& divides_half_even(open_cost, denominator)
    &&& fits_i64(average_price(open_cost, net_qty, micro_per_tick_lot))
}

/// Whether every number on the way from `before` through `fill` fits its type.
pub open spec fn settles(before: Position, fill: FillView, micro_per_tick_lot: int) -> bool {
    let held = before.net_qty.0 as int;
    let cost = before.open_cost.0 as int;
    let price = fill.price.0 as int;
    let s = settle(before, fill, micro_per_tick_lot);
    &&& if adds_to(held, signed_qty(fill)) {
        &&& fits_i64(s.net_qty)
        &&& fits_i128(value_of(price, s.opened, micro_per_tick_lot))
        &&& fits_i128(s.open_cost)
    } else {
        &&& fits_i64(magnitude(held))
        &&& fits_i128(value_of(price, s.closed, micro_per_tick_lot))
        &&& s.closed < magnitude(held) ==> fits_i128(cost * s.closed)
        &&& fits_i128(s.realized)
        &&& s.closed == magnitude(held) ==> fits_i128(
            value_of(price, s.opened, micro_per_tick_lot),
        )
    }
    &&& s.net_qty != 0 ==> averages(s.open_cost, s.net_qty, micro_per_tick_lot)
    &&& fits_i128(before.realized_pnl.0 + s.realized)
    &&& fits_i128(before.fees.0 + fill.fee.0)
}

/// The position after a settlement.
pub open spec fn settled(
    before: Position,
    fill: FillView,
    micro_per_tick_lot: int,
) -> Position {
    let s = settle(before, fill, micro_per_tick_lot);
    Position {
        net_qty: Lots(s.net_qty as i64),
        avg_entry_price: if s.net_qty == 0 {
            None
        } else {
            Some(Ticks(average_price(s.open_cost, s.net_qty, micro_per_tick_lot) as i64))
        },
        open_cost: Micro(s.open_cost as i128),
        realized_pnl: Micro((before.realized_pnl.0 + s.realized) as i128),
        fees: Micro((before.fees.0 + fill.fee.0) as i128),
    }
}

/// Whether there is an average price and it is positive.
pub open spec fn priced(average: Option<Ticks>) -> bool {
    match average {
        Some(price) => price.0 > 0,
        None => false,
    }
}

/// What is wrong with a position, if anything: fees never go negative, a flat position has no
/// cost, and an open one has a positive cost and a positive average price.
pub open spec fn position_fault(position: Position) -> Option<RejectReasonView> {
    if position.fees.0 < 0 {
        Some(RejectReasonView::InvalidPosition("negative fees"@))
    } else if position.net_qty.0 == 0 {
        if position.open_cost.0 != 0 || position.avg_entry_price is Some {
            Some(RejectReasonView::InvalidPosition("flat position has open cost"@))
        } else {
            None
        }
    } else if position.open_cost.0 <= 0 || !priced(position.avg_entry_price) {
        Some(RejectReasonView::InvalidPosition("open position has invalid cost"@))
    } else {
        None
    }
}

/// What is wrong with a fill of the instrument `spec`, if anything.
pub open spec fn fill_fault(fill: FillView, spec: InstrumentSpecView) -> Option<RejectReasonView> {
    let full = 1_000_000int / spec.tick_micro;
    let low = full / 100;
    if fill.venue != spec.venue || fill.kind != spec.kind || fill.instrument != spec.instrument {
        Some(RejectReasonView::InvalidFill(fill.symbol))
    } else if fill.price.0 <= 0 || fill.qty.0 <= 0 || fill.fee.0 < 0 {
        Some(RejectReasonView::InvalidFill(fill.event_id))
    } else if spec.tick_micro <= 0 || spec.lot_qty_e9 <= 0 || spec.micro_per_tick_lot <= 0 {
        Some(RejectReasonView::InvalidFill(spec.symbol))
    } else if spec.kind == Kind::Binary && 1_000_000int % spec.tick_micro != 0 {
        Some(RejectReasonView::InvalidFill(spec.symbol))
    } else if spec.kind == Kind::Binary && !(low <= fill.price.0 <= full - low) {
        Some(RejectReasonView::PriceOutOfRange { symbol: fill.symbol, ticks: fill.price.0 })
    } else {
        None
    }
}

/// What a sound fill does to the position under `key`, or why it cannot be applied.
pub open spec fn transitioned(
    key: PositionKeyView,
    before: Position,
    fill: FillView,
    micro_per_tick_lot: int,
) -> Result<PositionDeltaView, RejectReasonView> {
    let s = settle(before, fill, micro_per_tick_lot);
    let after = settled(before, fill, micro_per_tick_lot);
    if position_fault(before) is Some {
        Err(position_fault(before)->0)
    } else if !settles(before, fill, micro_per_tick_lot) {
        Err(RejectReasonView::ArithmeticOverflow)
    } else if position_fault(after) is Some {
        Err(position_fault(after)->0)
    } else {
        Ok(
            PositionDeltaView {
                key,
                before,
                after,
                closed_qty: Lots(s.closed as i64),
                opened_qty: Lots(s.opened as i64),
                realized_pnl_delta: Micro(s.realized as i128),
                fee_delta: fill.fee,
            },
        )
    }
}

/// The key of the position that a fill belongs to.
pub open spec fn key_of(fill: FillView) -> PositionKeyView {
    PositionKeyView { account: fill.account, instrument: fill.instrument }
}

/// The position under `key`, flat where there is none.
pub open spec fn held(positions: Positions, key: PositionKeyView) -> Position {
    if positions.contains_key(key) {
        positions[key]
    } else {
        flat()
    }
}

/// What `fill` does to `positions` where its venue lists `listed` under its symbol, or why it is
/// rejected.
pub open spec fn applied(
    positions: Positions,
    fill: FillView,
    listed: Option<InstrumentSpecView>,
) -> Result<PositionDeltaView, RejectReasonView> {
    match listed {
        None => Err(RejectReasonView::UnknownSymbol(fill.symbol)),
        Some(spec) => match fill_fault(fill, spec) {
            Some(reason) => Err(reason),
            None => transitioned(
                key_of(fill),
                held(positions, key_of(fill)),
                fill,
                spec.micro_per_tick_lot,
            ),
        },
    }
}

/// The positions after a fill: the one it belongs to moves, a rejected fill moves none.
pub open spec fn after_fill(
    positions: Positions,
    outcome: Result<PositionDeltaView, RejectReasonView>,
) -> Positions {
    match outcome {
        Ok(delta) => positions.insert(delta.key, delta.after),
        Err(_) => positions,
    }
}

/// Whether every position makes sense.
pub open spec fn all_valid(positions: Positions) -> bool {
    forall|key: PositionKeyView| #[trigger]
        positions.contains_key(key) ==> position_fault(positions[key]) is None
}

fn notional(price: Ticks, qty: i64, micro_per_tick_lot: i128) -> (result: Result<
    i128,
    RejectReason,
>)
    ensures
        match result {
            Ok(value) => value == value_of(price.0 as int, qty as int, micro_per_tick_lot as int),
            Err(reason) => !fits_i128(
                value_of(price.0 as int, qty as int, micro_per_tick_lot as int),
            ) && reason == RejectReason::ArithmeticOverflow,
        },
{
    let left: i128 = price.0 as i128;
    let right: i128 = qty as i128;
    proof {
        assert(-0x4000_0000_0000_0000_0000_0000_0000_0000 <= left * right
            <= 0x4000_0000_0000_0000_0000_0000_0000_0000) by (nonlinear_arith)
            requires
                -0x8000_0000_0000_0000 <= left <= 0x7fff_ffff_ffff_ffff,
                -0x8000_0000_0000_0000 <= right <= 0x7fff_ffff_ffff_ffff,
        ;
    }
    let product: i128 = left * right;
    match product.checked_mul(micro_per_tick_lot) {
        Some(value) => Ok(value),
        None => Err(RejectReason::ArithmeticOverflow),
    }
}

fn checked_abs(value: i64) -> (result: Result<i64, RejectReason>)
    ensures
        match result {
            Ok(size) => size == magnitude(value as int),
            Err(reason) => !fits_i64(magnitude(value as int)) && reason
                == RejectReason::ArithmeticOverflow,
        },
{
    if value == i64::MIN {
        Err(RejectReason::ArithmeticOverflow)
    } else if value < 0 {
        Ok(-value)
    } else {
        Ok(value)
    }
}

fn average_entry_price(open_cost: i128, net_qty: i64, micro_per_tick_lot: i128) -> (result: Result<
    Ticks,
    RejectReason,
>)
    ensures
        match result {
            Ok(price) => averages(open_cost as int, net_qty as int, micro_per_tick_lot as int)
                && price.0 == average_price(
                open_cost as int,
                net_qty as int,
                micro_per_tick_lot as int,
            ),
            Err(reason) => !averages(open_cost as int, net_qty as int, micro_per_tick_lot as int)
                && reason == RejectReason::ArithmeticOverflow,
        },
{
    let size: i64 = match checked_abs(net_qty) {
        Ok(size) => size,
        Err(reason) => {
            return Err(reason);
        },
    };
    let denominator: i128 = match (size as i128).checked_mul(micro_per_tick_lot) {
        Some(denominator) => denominator,
        None => {
            return Err(RejectReason::ArithmeticOverflow);
        },
    };
    let rounded: i128 = match div_round_half_even(open_cost, denominator) {
        Ok(rounded) => rounded,
        Err(reason) => {
            return Err(reason);
        },
    };
    match narrow(rounded) {
        Ok(ticks) => Ok(Ticks(ticks)),
        Err(reason) => Err(reason),
    }
}

fn validate_position(position: &Position) -> (result: Result<(), RejectReason>)
    ensures
        match result {
            Ok(()) => position_fault(*position) is None,
            Err(reason) => position_fault(*position) == Some(reason@),
        },
{
    if position.fees.0 < 0 {
        return Err(RejectReason::InvalidPosition("negative fees".to_string()));
    }
    let positive: bool = match position.avg_entry_price {
        Some(price) => price.0 > 0,
        None => false,
    };
    if position.net_qty.0 == 0 {
        if position.open_cost.0 != 0 || position.avg_entry_price.is_some() {
            return Err(RejectReason::InvalidPosition("flat position has open cost".to_string()));
        }
    } else if position.open_cost.0 <= 0 || !positive {
        return Err(RejectReason::InvalidPosition("open position has invalid cost".to_string()));
    }
    Ok(())
}

fn validate_fill(fill: &Fill, spec: &InstrumentSpec) -> (result: Result<(), RejectReason>)
    ensures
        match result {
            Ok(()) => fill_fault(fill@, spec@) is None,
            Err(reason) => fill_fault(fill@, spec@) == Some(reason@),
        },
{
    if fill.venue != spec.venue || fill.kind != spec.kind || fill.instrument != spec.instrument {
        return Err(RejectReason::InvalidFill(fill.symbol.clone()));
    }
    if fill.price.0 <= 0 || fill.qty.0 <= 0 || fill.fee.0 < 0 {
        return Err(RejectReason::InvalidFill(fill.event_id.clone()));
    }
    if spec.tick_micro <= 0 || spec.lot_qty_e9 <= 0 || spec.micro_per_tick_lot <= 0 {
        return Err(RejectReason::InvalidFill(spec.symbol.clone()));
    }
    if spec.kind == Kind::Binary {
        if 1_000_000i128 % spec.tick_micro != 0 {
            return Err(RejectReason::InvalidFill(spec.symbol.clone()));
        }
        let full: i128 = 1_000_000i128 / spec.tick_micro;
        proof {
            vstd::arithmetic::div_mod::lemma_div_is_ordered_by_denominator(
                1_000_000,
                1,
                spec.tick_micro as int,
            );
        }
        let low: i128 = full / 100;
        if (fill.price.0 as i128) < low || (fill.price.0 as i128) > full - low {
            return Err(
                RejectReason::PriceOutOfRange {
                    symbol: fill.symbol.clone(),
                    ticks: fill.price.0,
                },
            );
        }
    }
    Ok(())
}

/// What a position becomes, before prices are averaged and totals are kept.
struct Moved {
    net_qty: i64,
    open_cost: i128,
    closed: i64,
    opened: i64,
    realized: i128,
}

impl Moved {
    spec fn is_settlement(&self, s: Settlement) -> bool {
        &&& self.net_qty == s.net_qty
        &&& self.open_cost == s.open_cost
        &&& self.closed == s.closed
        &&& self.opened == s.opened
        &&& self.realized == s.realized
    }
}

/// Adds the whole fill to the position.
fn enlarge(before: &Position, fill: &Fill, signed: i64, micro_per_tick_lot: i128) -> (result: Result<
    Moved,
    RejectReason,
>)
    requires
        signed == signed_qty(fill@),
        adds_to(before.net_qty.0 as int, signed as int),
    ensures
        ({
            let s = settle(*before, fill@, micro_per_tick_lot as int);
            match result {
                Ok(moved) => moved.is_settlement(s) && fits_i128(
                    value_of(fill.price.0 as int, s.opened, micro_per_tick_lot as int),
                ),
                Err(reason) => reason == RejectReason::ArithmeticOverflow && !settles(
                    *before,
                    fill@,
                    micro_per_tick_lot as int,
                ),
            }
        }),
{
    let net_qty: i64 = match before.net_qty.0.checked_add(signed) {
        Some(net_qty) => net_qty,
        None => {
            return Err(RejectReason::ArithmeticOverflow);
        },
    };
    let added: i128 = match notional(fill.price, fill.qty.0, micro_per_tick_lot) {
        Ok(added) => added,
        Err(reason) => {
            return Err(reason);
        },
    };
    let open_cost: i128 = match before.open_cost.0.checked_add(added) {
        Some(open_cost) => open_cost,
        None => {
            return Err(RejectReason::ArithmeticOverflow);
        },
    };
    Ok(Moved { net_qty, open_cost, closed: 0, opened: fill.qty.0, realized: 0 })
}

/// Closes lots of the position, and opens what is left of the fill on the other side.
fn reduce(before: &Position, fill: &Fill, signed: i64, micro_per_tick_lot: i128) -> (result: Result<
    Moved,
    RejectReason,
>)
    requires
        fill.qty.0 > 0,
        before.open_cost.0 > 0,
        signed == signed_qty(fill@),
        !adds_to(before.net_qty.0 as int, signed as int),
    ensures
        ({
            let s = settle(*before, fill@, micro_per_tick_lot as int);
            let held = before.net_qty.0 as int;
            match result {
                Ok(moved) => {
                    &&& moved.is_settlement(s)
                    &&& fits_i64(magnitude(held))
                    &&& fits_i128(
                        value_of(fill.price.0 as int, s.closed, micro_per_tick_lot as int),
                    )
                    &&& s.closed < magnitude(held) ==> fits_i128(before.open_cost.0 * s.closed)
                    &&& s.closed == magnitude(held) ==> fits_i128(
                        value_of(fill.price.0 as int, s.opened, micro_per_tick_lot as int),
                    )
                },
                Err(reason) => reason == RejectReason::ArithmeticOverflow && !settles(
                    *before,
                    fill@,
                    micro_per_tick_lot as int,
                ),
            }
        }),
{
    let held: i64 = before.net_qty.0;
    let size: i64 = match checked_abs(held) {
        Ok(size) => size,
        Err(reason) => {
            return Err(reason);
        },
    };
    let closed: i64 = if size < fill.qty.0 {
        size
    } else {
        fill.qty.0
    };
    let exit: i128 = match notional(fill.price, closed, micro_per_tick_lot) {
        Ok(exit) => exit,
        Err(reason) => {
            return Err(reason);
        },
    };
    let cost: i128 = before.open_cost.0;
    let ghost s = settle(*before, fill@, micro_per_tick_lot as int);
    assert(s.closed == closed);
    let basis: i128 = if closed == size {
        cost
    } else {
        let numerator: i128 = match cost.checked_mul(closed as i128) {
            Some(numerator) => numerator,
            None => {
                return Err(RejectReason::ArithmeticOverflow);
            },
        };
        proof {
            assert(numerator >= 0) by (nonlinear_arith)
                requires
                    numerator == cost * closed,
                    cost > 0,
                    closed > 0,
            ;
            assert(0 <= (numerator as int) % (size as int) && (numerator as int) % (size as int) < size);
            lemma_half_even_bounds(numerator as int, size as int);
        }
        match div_round_half_even(numerator, size as i128) {
            Ok(basis) => basis,
            Err(reason) => {
                return Err(reason);
            },
        }
    };
    assert(basis == basis_of(cost as int, closed as int, size as int));
    assert(basis >= 0);
    let gain: Option<i128> = if held > 0 {
        exit.checked_sub(basis)
    } else {
        basis.checked_sub(exit)
    };
    let realized: i128 = match gain {
        Some(realized) => realized,
        None => {
            return Err(RejectReason::ArithmeticOverflow);
        },
    };
    let opened: i64 = fill.qty.0 - closed;
    let open_cost: i128 = if closed < size {
        cost - basis
    } else {
        match notional(fill.price, opened, micro_per_tick_lot) {
            Ok(open_cost) => open_cost,
            Err(reason) => {
                return Err(reason);
            },
        }
    };
    Ok(Moved { net_qty: held + signed, open_cost, closed, opened, realized })
}

/// What a sound fill does to the position under `key`, or why it cannot be applied.
pub fn transition(key: PositionKey, before: Position, fill: &Fill, spec: &InstrumentSpec) -> (result:
    Result<PositionDelta, RejectReason>)
    requires
        fill_fault(fill@, spec@) is None,
    ensures
        outcome_view(result) == transitioned(
            key@,
            before,
            fill@,
            spec.micro_per_tick_lot as int,
        ),
{
    match validate_position(&before) {
        Ok(()) => {},
        Err(reason) => {
            return Err(reason);
        },
    }
    let signed: i64 = match fill.side {
        Side::Buy => fill.qty.0,
        Side::Sell => -fill.qty.0,
    };
    let held: i64 = before.net_qty.0;
    let attempt = if held == 0 || (held > 0) == (signed > 0) {
        enlarge(&before, fill, signed, spec.micro_per_tick_lot)
    } else {
        reduce(&before, fill, signed, spec.micro_per_tick_lot)
    };
    let moved: Moved = match attempt {
        Ok(moved) => moved,
        Err(reason) => {
            return Err(reason);
        },
    };
    let avg_entry_price: Option<Ticks> = if moved.net_qty == 0 {
        None
    } else {
        match average_entry_price(moved.open_cost, moved.net_qty, spec.micro_per_tick_lot) {
            Ok(price) => Some(price),
            Err(reason) => {
                return Err(reason);
            },
        }
    };
    let realized_pnl: i128 = match before.realized_pnl.0.checked_add(moved.realized) {
        Some(realized_pnl) => realized_pnl,
        None => {
            return Err(RejectReason::ArithmeticOverflow);
        },
    };
    let fees: i128 = match before.fees.0.checked_add(fill.fee.0) {
        Some(fees) => fees,
        None => {
            return Err(RejectReason::ArithmeticOverflow);
        },
    };
    let after = Position {
        net_qty: Lots(moved.net_qty),
        avg_entry_price,
        open_cost: Micro(moved.open_cost),
        realized_pnl: Micro(realized_pnl),
        fees: Micro(fees),
    };
    assert(after == settled(before, fill@, spec.micro_per_tick_lot as int));
    match validate_position(&after) {
        Ok(()) => {},
        Err(reason) => {
            return Err(reason);
        },
    }
    Ok(
        PositionDelta {
            key,
            before,
            after,
            closed_qty: Lots(moved.closed),
            opened_qty: Lots(moved.opened),
            realized_pnl_delta: Micro(moved.realized),
            fee_delta: fill.fee,
        },
    )
}

/// Something that keeps positions.
pub trait PositionStore {
    /// The positions kept.
    spec fn kept(&self) -> Positions;

    /// Whether the store is in order.
    spec fn in_order(&self) -> bool;

    /// What a fill would do, or why it would be rejected.
    spec fn outcome(&self, fill: FillView) -> Result<PositionDeltaView, RejectReasonView>;

    /// Applies a fill to the position it belongs to.
    fn apply(&mut self, fill: &Fill) -> (result: Result<PositionDelta, RejectReason>)
        requires
            old(self).in_order(),
        ensures
            final(self).in_order(),
            outcome_view(result) == old(self).outcome(fill@),
            final(self).kept() == after_fill(old(self).kept(), old(self).outcome(fill@)),
    ;

    /// The position under `key`.
    fn position(&self, key: &PositionKey) -> (found: Option<&Position>)
        requires
            self.in_order(),
        ensures
            match found {
                Some(position) => self.kept().contains_key(key@) && self.kept()[key@] == *position,
                None => !self.kept().contains_key(key@),
            },
    ;
}

/// Keeps the positions of all accounts in the instruments of `S`.
pub struct PositionKeeper<S> {
    instruments: S,
    positions: PositionBook,
}

impl<S> View for PositionKeeper<S> {
    type V = Positions;

    closed spec fn view(&self) -> Positions {
        self.positions@
    }
}

impl<S: InstrumentSource> PositionKeeper<S> {
    /// Whether the book is in order and every position makes sense.
    pub closed spec fn wf(&self) -> bool {
        self.positions.wf() && all_valid(self.positions@)
    }

    /// The instruments this keeper knows.
    pub closed spec fn source(&self) -> S {
        self.instruments
    }

    /// What `fill` would do here, or why it would be rejected.
    pub open spec fn applies(&self, fill: FillView) -> Result<
        PositionDeltaView,
        RejectReasonView,
    > {
        applied(self@, fill, self.source().listed(fill.venue, fill.symbol))
    }

    /// A keeper without positions.
    pub fn new(instruments: S) -> (keeper: Self)
        ensures
            keeper.wf(),
            keeper@ == Map::<PositionKeyView, Position>::empty(),
            keeper.source() == instruments,
    {
        PositionKeeper { instruments, positions: PositionBook::new() }
    }

    /// Applies a fill to the position it belongs to. A rejected fill changes nothing.
    pub fn apply(&mut self, fill: &Fill) -> (result: Result<PositionDelta, RejectReason>)
        requires
            old(self).wf(),
        ensures
            final(self).wf(),
            final(self).source() == old(self).source(),
            outcome_view(result) == old(self).applies(fill@),
            final(self)@ == after_fill(old(self)@, old(self).applies(fill@)),
    {
        let spec = match self.instruments.lookup(fill.venue, fill.symbol.as_str()) {
            Some(spec) => spec,
            None => {
                return Err(RejectReason::UnknownSymbol(fill.symbol.clone()));
            },
        };
        match validate_fill(fill, spec) {
            Ok(()) => {},
            Err(reason) => {
                return Err(reason);
            },
        }
        let key = PositionKey {
            account: fill.account.clone(),
            instrument: fill.instrument.clone(),
        };
        let before: Position = match self.positions.get(&key) {
            Some(position) => *position,
            None => Position::default(),
        };
        let delta = match transition(key.clone(), before, fill, spec) {
            Ok(delta) => delta,
            Err(reason) => {
                return Err(reason);
            },
        };
        self.positions.insert(key, delta.after);
        Ok(delta)
    }

    /// The position under `key`.
    pub fn position(&self, key: &PositionKey) -> (found: Option<&Position>)
        requires
            self.wf(),
        ensures
            match found {
                Some(position) => self@.contains_key(key@) && self@[key@] == *position,
                None => !self@.contains_key(key@),
            },
    {
        self.positions.get(key)
    }

    /// All positions, in the canonical order of their keys.
    pub fn positions(&self) -> (book: &PositionBook)
        requires
            self.wf(),
        ensures
            book.wf(),
            book@ == self@,
    {
        &self.positions
    }

    /// How many positions there are.
    pub fn len(&self) -> (count: usize)
        requires
            self.wf(),
        ensures
            count == self@.len(),
    {
        self.positions.len()
    }

    /// Whether there are no positions.
    pub fn is_empty(&self) -> (empty: bool)
        requires
            self.wf(),
        ensures
            empty == self@.is_empty(),
    {
        self.positions.is_empty()
    }

    /// Gives the positions away.
    pub fn into_positions(self) -> (book: PositionBook)
        requires
            self.wf(),
        ensures
            book.wf(),
            book@ == self@,
    {
        self.positions
    }
}

impl<S: InstrumentSource> PositionStore for PositionKeeper<S> {
    open spec fn kept(&self) -> Positions {
        self@
    }

    open spec fn in_order(&self) -> bool {
        self.wf()
    }

    open spec fn outcome(&self, fill: FillView) -> Result<PositionDeltaView, RejectReasonView> {
        self.applies(fill)
    }

    fn apply(&mut self, fill: &Fill) -> (result: Result<PositionDelta, RejectReason>) {
        PositionKeeper::apply(self, fill)
    }

    fn position(&self, key: &PositionKey) -> (found: Option<&Position>) {
        PositionKeeper::position(self, key)
    }
}

/// A keeper looks a fill up under its own venue and symbol, and applies it to the positions it
/// keeps; a store that it stands for does the same.
pub proof fn law_a_keeper_looks_a_fill_up_by_its_symbol<S: InstrumentSource>(
    keeper: PositionKeeper<S>,
    fill: FillView,
)
    ensures
        keeper.applies(fill) == applied(
            keeper@,
            fill,
            keeper.source().listed(fill.venue, fill.symbol),
        ),
        keeper.outcome(fill) == keeper.applies(fill),
        keeper.kept() == keeper@,
        keeper.in_order() == keeper.wf(),
{
}

} // verus!
