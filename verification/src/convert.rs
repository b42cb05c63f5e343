//! From a venue's report to the canonical fill.

use vstd::prelude::*;

use crate::binary64::{
    is_positive, nearest, nearest_double, number, number_of, over, positive, times, to_whole,
    too_large, whole_of, Double, Whole, LEAST_DIGITS,
};
use crate::boundary::{HlEvent, HlEventView, PmEvent, PmEventView, WirePrice, WirePriceView};
use crate::canonical::{
    opposite, outcome_view, Fill, FillView, RejectReason, RejectReasonView, Side,
};
use crate::decimal::{fixed_value, lemma_fixed_value_fits, parse_fixed};
use crate::fixed::{Lots, Micro, Ticks};
use crate::instrument::{InstrumentSource, InstrumentSpec, InstrumentSpecView, Venue};
use crate::rounding::{fits_i128, narrow};
use crate::stream::{RawEvent, RawEventView};
use crate::text::{decimal_text, same_text, signed_decimal};

verus! {

/// A price on a grid of `tick_micro` micro-dollars, in ticks, as double-precision arithmetic
/// finds it: the price times a million over the tick, each step rounded. It has to come out as
/// an integer, up to rounding error.
pub open spec fn ticks_of(price: WirePriceView, tick_micro: int, symbol: Seq<char>) -> Result<
    i64,
    RejectReasonView,
> {
    let micro = times(number(price.bits), 1_000_000);
    if !is_positive(price.bits) || tick_micro <= 0 || too_large(micro) {
        Err(RejectReasonView::MalformedDecimal(price.text))
    } else {
        match to_whole(over(micro, nearest(tick_micro, 1))) {
            Whole::Between => Err(RejectReasonView::OffTick { symbol, raw: price.text }),
            Whole::TooLarge => Err(RejectReasonView::ArithmeticOverflow),
            Whole::Near(ticks) => Ok(ticks),
        }
    }
}

/// Puts a price on a grid of `tick_micro` micro-dollars.
pub fn price_to_ticks(price: &WirePrice, tick_micro: i128, symbol: &str) -> (result: Result<
    i64,
    RejectReason,
>)
    ensures
        match result {
            Ok(ticks) => ticks_of(price@, tick_micro as int, symbol@) == Ok::<
                i64,
                RejectReasonView,
            >(ticks),
            Err(reason) => ticks_of(price@, tick_micro as int, symbol@) == Err::<
                i64,
                RejectReasonView,
            >(reason@),
        },
{
    if !positive(price.bits) || tick_micro <= 0 {
        return Err(RejectReason::MalformedDecimal(price.text.clone()));
    }
    let dollars: Double = number_of(price.bits);
    let product: Double = nearest_double(dollars.digits * 1_000_000, 1);
    let exponent: i64 = product.exponent + dollars.exponent;
    if exponent >= 972 || (exponent == 971 && product.digits >= 2 * LEAST_DIGITS) {
        return Err(RejectReason::MalformedDecimal(price.text.clone()));
    }
    let tick: Double = nearest_double(tick_micro as u128, 1);
    let quotient: Double = nearest_double(product.digits, tick.digits);
    let scaled = Double {
        digits: quotient.digits,
        exponent: quotient.exponent + exponent - tick.exponent,
    };
    assert(scaled@ == over(times(number(price.bits), 1_000_000), nearest(tick_micro as int, 1)));
    match whole_of(scaled) {
        Whole::Near(ticks) => Ok(ticks),
        Whole::TooLarge => Err(RejectReason::ArithmeticOverflow),
        Whole::Between => Err(
            RejectReason::OffTick { symbol: symbol.to_string(), raw: price.text.clone() },
        ),
    }
}

/// The instrument that `venue` lists under `symbol`, or why nothing can trade under it.
pub open spec fn usable(
    listed: Option<InstrumentSpecView>,
    venue: Venue,
    symbol: Seq<char>,
) -> Result<InstrumentSpecView, RejectReasonView> {
    match listed {
        None => Err(RejectReasonView::UnknownSymbol(symbol)),
        Some(spec) => if spec.venue != venue {
            Err(RejectReasonView::UnknownSymbol(symbol))
        } else if spec.tick_micro <= 0 || spec.lot_qty_e9 <= 0 || spec.micro_per_tick_lot <= 0 {
            Err(RejectReasonView::InvalidFill(symbol))
        } else {
            Ok(spec)
        },
    }
}

fn usable_spec<'a, S: InstrumentSource>(
    instruments: &'a S,
    venue: Venue,
    symbol: &String,
) -> (found: Result<&'a InstrumentSpec, RejectReason>)
    ensures
        match found {
            Ok(spec) => usable(instruments.listed(venue, symbol@), venue, symbol@) == Ok::<
                InstrumentSpecView,
                RejectReasonView,
            >(spec@),
            Err(reason) => usable(instruments.listed(venue, symbol@), venue, symbol@) == Err::<
                InstrumentSpecView,
                RejectReasonView,
            >(reason@),
        },
{
    match instruments.lookup(venue, symbol.as_str()) {
        None => Err(RejectReason::UnknownSymbol(symbol.clone())),
        Some(spec) => if spec.venue != venue {
            Err(RejectReason::UnknownSymbol(symbol.clone()))
        } else if spec.tick_micro <= 0 || spec.lot_qty_e9 <= 0 || spec.micro_per_tick_lot <= 0 {
            Err(RejectReason::InvalidFill(symbol.clone()))
        } else {
            Ok(spec)
        },
    }
}

/// The side that one of two words names.
pub open spec fn side_named(word: Seq<char>, buy: Seq<char>, sell: Seq<char>) -> Result<
    Side,
    RejectReasonView,
> {
    if word == buy {
        Ok(Side::Buy)
    } else if word == sell {
        Ok(Side::Sell)
    } else {
        Err(RejectReasonView::UnknownSide(word))
    }
}

fn parse_side(word: &String, buy: &str, sell: &str) -> (result: Result<Side, RejectReason>)
    ensures
        match result {
            Ok(side) => side_named(word@, buy@, sell@) == Ok::<Side, RejectReasonView>(side),
            Err(reason) => side_named(word@, buy@, sell@) == Err::<Side, RejectReasonView>(reason@),
        },
{
    if same_text(word.as_str(), buy) {
        Ok(Side::Buy)
    } else if same_text(word.as_str(), sell) {
        Ok(Side::Sell)
    } else {
        Err(RejectReason::UnknownSide(word.clone()))
    }
}

/// The price of a perpetual fill in ticks: a positive decimal of micro-dollars, on the grid.
pub open spec fn hl_price(event: HlEventView, spec: InstrumentSpecView) -> Result<
    Ticks,
    RejectReasonView,
> {
    match fixed_value(event.px, 6) {
        None => Err(RejectReasonView::MalformedDecimal(event.px)),
        Some(micro) => if micro <= 0 {
            Err(RejectReasonView::MalformedDecimal(event.px))
        } else if micro % spec.tick_micro != 0 {
            Err(RejectReasonView::OffTick { symbol: event.symbol, raw: event.px })
        } else if micro / spec.tick_micro > i64::MAX {
            Err(RejectReasonView::ArithmeticOverflow)
        } else {
            Ok(Ticks((micro / spec.tick_micro) as i64))
        },
    }
}

fn parse_price(event: &HlEvent, spec: &InstrumentSpec) -> (result: Result<Ticks, RejectReason>)
    requires
        spec.tick_micro > 0,
    ensures
        match result {
            Ok(price) => hl_price(event@, spec@) == Ok::<Ticks, RejectReasonView>(price),
            Err(reason) => hl_price(event@, spec@) == Err::<Ticks, RejectReasonView>(reason@),
        },
{
    let micro: i128 = match parse_fixed(event.px.as_str(), 6) {
        Ok(micro) => micro,
        Err(reason) => {
            return Err(reason);
        },
    };
    if micro <= 0 {
        return Err(RejectReason::MalformedDecimal(event.px.clone()));
    }
    if micro % spec.tick_micro != 0 {
        return Err(RejectReason::OffTick { symbol: event.symbol.clone(), raw: event.px.clone() });
    }
    proof {
        vstd::arithmetic::div_mod::lemma_div_pos_is_pos(micro as int, spec.tick_micro as int);
    }
    match narrow(micro / spec.tick_micro) {
        Ok(ticks) => Ok(Ticks(ticks)),
        Err(reason) => Err(reason),
    }
}

/// The quantity of a perpetual fill in lots: a positive decimal of billionths, on the grid.
pub open spec fn hl_qty(event: HlEventView, spec: InstrumentSpecView) -> Result<
    Lots,
    RejectReasonView,
> {
    match fixed_value(event.qty, 9) {
        None => Err(RejectReasonView::MalformedDecimal(event.qty)),
        Some(billionths) => if billionths <= 0 {
            Err(RejectReasonView::InvalidQuantity(event.qty))
        } else if billionths % spec.lot_qty_e9 != 0 {
            Err(RejectReasonView::OffLot { symbol: event.symbol, raw: event.qty })
        } else if billionths / spec.lot_qty_e9 > i64::MAX {
            Err(RejectReasonView::ArithmeticOverflow)
        } else {
            Ok(Lots((billionths / spec.lot_qty_e9) as i64))
        },
    }
}

fn parse_qty(event: &HlEvent, spec: &InstrumentSpec) -> (result: Result<Lots, RejectReason>)
    requires
        spec.lot_qty_e9 > 0,
    ensures
        match result {
            Ok(qty) => hl_qty(event@, spec@) == Ok::<Lots, RejectReasonView>(qty),
            Err(reason) => hl_qty(event@, spec@) == Err::<Lots, RejectReasonView>(reason@),
        },
{
    let billionths: i128 = match parse_fixed(event.qty.as_str(), 9) {
        Ok(billionths) => billionths,
        Err(reason) => {
            return Err(reason);
        },
    };
    if billionths <= 0 {
        return Err(RejectReason::InvalidQuantity(event.qty.clone()));
    }
    if billionths % spec.lot_qty_e9 != 0 {
        return Err(RejectReason::OffLot { symbol: event.symbol.clone(), raw: event.qty.clone() });
    }
    proof {
        vstd::arithmetic::div_mod::lemma_div_pos_is_pos(billionths as int, spec.lot_qty_e9 as int);
    }
    match narrow(billionths / spec.lot_qty_e9) {
        Ok(lots) => Ok(Lots(lots)),
        Err(reason) => Err(reason),
    }
}

/// The fee of a perpetual fill: a decimal of micro-dollars that is not negative.
pub open spec fn hl_fee(event: HlEventView) -> Result<Micro, RejectReasonView> {
    match fixed_value(event.fee, 6) {
        None => Err(RejectReasonView::MalformedDecimal(event.fee)),
        Some(micro) => if micro < 0 {
            Err(RejectReasonView::MalformedDecimal(event.fee))
        } else {
            Ok(Micro(micro as i128))
        },
    }
}

/// The canonical fill of a perpetual event where its venue lists `listed` under its symbol, or
/// why there is none. The first thing that is wrong decides.
pub open spec fn hl_fill(event: HlEventView, listed: Option<InstrumentSpecView>) -> Result<
    FillView,
    RejectReasonView,
> {
    match usable(listed, Venue::Hl, event.symbol) {
        Err(reason) => Err(reason),
        Ok(spec) => match side_named(event.side, "buy"@, "sell"@) {
            Err(reason) => Err(reason),
            Ok(side) => match hl_price(event, spec) {
                Err(reason) => Err(reason),
                Ok(price) => match hl_qty(event, spec) {
                    Err(reason) => Err(reason),
                    Ok(qty) => match hl_fee(event) {
                        Err(reason) => Err(reason),
                        Ok(fee) => Ok(
                            FillView {
                                venue: Venue::Hl,
                                event_id: event.event_id,
                                seq: event.seq,
                                ts_ms: event.ts,
                                account: event.account,
                                instrument: spec.instrument,
                                symbol: event.symbol,
                                kind: spec.kind,
                                side,
                                price,
                                qty,
                                fee,
                            },
                        ),
                    },
                },
            },
        },
    }
}

/// What can become a canonical fill.
pub trait Canonicalize: Sized {
    /// The venue and the symbol that this event is about.
    spec fn traded(&self) -> (Venue, Seq<char>);

    /// The canonical fill of this event where its venue lists `listed` under its symbol, or why
    /// there is none.
    spec fn canonical(&self, listed: Option<InstrumentSpecView>) -> Result<
        FillView,
        RejectReasonView,
    >;

    /// Makes the canonical fill of this event.
    fn canonicalize<S: InstrumentSource>(self, instruments: &S) -> (result: Result<
        Fill,
        RejectReason,
    >)
        ensures
            outcome_view(result) == self.canonical(
                instruments.listed(self.traded().0, self.traded().1),
            ),
    ;
}

impl Canonicalize for HlEvent {
    open spec fn traded(&self) -> (Venue, Seq<char>) {
        (Venue::Hl, self.symbol@)
    }

    open spec fn canonical(&self, listed: Option<InstrumentSpecView>) -> Result<
        FillView,
        RejectReasonView,
    > {
        hl_fill(self@, listed)
    }

    fn canonicalize<S: InstrumentSource>(self, instruments: &S) -> (result: Result<
        Fill,
        RejectReason,
    >) {
        let spec = match usable_spec(instruments, Venue::Hl, &self.symbol) {
            Ok(spec) => spec,
            Err(reason) => {
                return Err(reason);
            },
        };
        let side = match parse_side(&self.side, "buy", "sell") {
            Ok(side) => side,
            Err(reason) => {
                return Err(reason);
            },
        };
        let price = match parse_price(&self, spec) {
            Ok(price) => price,
            Err(reason) => {
                return Err(reason);
            },
        };
        let qty = match parse_qty(&self, spec) {
            Ok(qty) => qty,
            Err(reason) => {
                return Err(reason);
            },
        };
        let fee: i128 = match parse_fixed(self.fee.as_str(), 6) {
            Ok(fee) => fee,
            Err(reason) => {
                return Err(reason);
            },
        };
        if fee < 0 {
            return Err(RejectReason::MalformedDecimal(self.fee.clone()));
        }
        Ok(
            Fill {
                venue: Venue::Hl,
                event_id: self.event_id,
                seq: self.seq,
                ts_ms: self.ts,
                account: self.account,
                instrument: spec.instrument.clone(),
                symbol: self.symbol,
                kind: spec.kind,
                side,
                price,
                qty,
                fee: Micro(fee),
            },
        )
    }
}

/// How many ticks make up the one-dollar payout of a binary.
pub open spec fn payout_ticks(spec: InstrumentSpecView) -> int {
    1_000_000int / spec.tick_micro
}

/// The price of a binary in ticks: on the grid, and a probability from one to ninety-nine
/// percent.
pub open spec fn pm_price(event: PmEventView, spec: InstrumentSpecView) -> Result<
    i64,
    RejectReasonView,
> {
    let low = payout_ticks(spec) / 100;
    match ticks_of(event.price, spec.tick_micro, event.market) {
        Err(reason) => Err(reason),
        Ok(ticks) => if ticks < low || ticks > payout_ticks(spec) - low {
            Err(RejectReasonView::PriceOutOfRange { symbol: event.market, ticks })
        } else {
            Ok(ticks)
        },
    }
}

fn parse_probability(event: &PmEvent, spec: &InstrumentSpec) -> (result: Result<i64, RejectReason>)
    requires
        spec.tick_micro > 0,
    ensures
        match result {
            Ok(ticks) => pm_price(event@, spec@) == Ok::<i64, RejectReasonView>(ticks) && 0
                <= ticks <= payout_ticks(spec@),
            Err(reason) => pm_price(event@, spec@) == Err::<i64, RejectReasonView>(reason@),
        },
{
    let ticks: i64 = match price_to_ticks(&event.price, spec.tick_micro, event.market.as_str()) {
        Ok(ticks) => ticks,
        Err(reason) => {
            return Err(reason);
        },
    };
    let full: i64 = payout(spec);
    let low: i64 = full / 100;
    if ticks < low || ticks > full - low {
        return Err(RejectReason::PriceOutOfRange { symbol: event.market.clone(), ticks });
    }
    Ok(ticks)
}

fn payout(spec: &InstrumentSpec) -> (full: i64)
    requires
        spec.tick_micro > 0,
    ensures
        full == payout_ticks(spec@),
        0 <= full <= 1_000_000,
{
    proof {
        vstd::arithmetic::div_mod::lemma_div_is_ordered_by_denominator(
            1_000_000,
            1,
            spec.tick_micro as int,
        );
        vstd::arithmetic::div_mod::lemma_div_pos_is_pos(1_000_000, spec.tick_micro as int);
    }
    (1_000_000i128 / spec.tick_micro) as i64
}

/// The fee of a binary fill: its value at the reported price times the rate in basis points,
/// rounded to the nearest micro-dollar, halves up.
pub open spec fn pm_fee(ticks: i64, event: PmEventView, spec: InstrumentSpecView) -> Result<
    Micro,
    RejectReasonView,
> {
    let value = ticks * event.size * spec.micro_per_tick_lot;
    let scaled = value * event.fee_bps + 5_000;
    if !fits_i128(value) || !fits_i128(scaled) {
        Err(RejectReasonView::ArithmeticOverflow)
    } else {
        Ok(Micro((scaled / 10_000) as i128))
    }
}

fn compute_fee(ticks: i64, event: &PmEvent, spec: &InstrumentSpec) -> (result: Result<
    Micro,
    RejectReason,
>)
    requires
        ticks >= 0,
        event.size > 0,
        event.fee_bps >= 0,
        spec.micro_per_tick_lot > 0,
    ensures
        match result {
            Ok(fee) => pm_fee(ticks, event@, spec@) == Ok::<Micro, RejectReasonView>(fee) && fee.0
                >= 0,
            Err(reason) => pm_fee(ticks, event@, spec@) == Err::<Micro, RejectReasonView>(reason@),
        },
{
    assert(0 <= ticks * event.size <= 0x4000_0000_0000_0000_0000_0000_0000_0000)
        by (nonlinear_arith)
        requires
            0 <= ticks <= 0x7fff_ffff_ffff_ffff,
            0 <= event.size <= 0x7fff_ffff_ffff_ffff,
    ;
    let lots: i128 = (ticks as i128) * (event.size as i128);
    let value: i128 = match lots.checked_mul(spec.micro_per_tick_lot) {
        Some(value) => value,
        None => {
            return Err(RejectReason::ArithmeticOverflow);
        },
    };
    assert(value >= 0) by (nonlinear_arith)
        requires
            value == lots * spec.micro_per_tick_lot,
            lots >= 0,
            spec.micro_per_tick_lot > 0,
    ;
    let product: i128 = match value.checked_mul(event.fee_bps as i128) {
        Some(product) => product,
        None => {
            assert(value * event.fee_bps >= 0) by (nonlinear_arith)
                requires
                    value >= 0,
                    event.fee_bps >= 0,
            ;
            return Err(RejectReason::ArithmeticOverflow);
        },
    };
    assert(product >= 0) by (nonlinear_arith)
        requires
            product == value * event.fee_bps,
            value >= 0,
            event.fee_bps >= 0,
    ;
    let scaled: i128 = match product.checked_add(5_000) {
        Some(scaled) => scaled,
        None => {
            return Err(RejectReason::ArithmeticOverflow);
        },
    };
    Ok(Micro(scaled / 10_000))
}

/// Which way a binary fill trades the YES side, and at what price. Buying NO at a price is selling
/// YES at what is missing to the payout.
pub open spec fn yes_side(
    outcome: Seq<char>,
    action: Side,
    ticks: i64,
    spec: InstrumentSpecView,
) -> Result<(Side, Ticks), RejectReasonView> {
    if outcome == "YES"@ {
        Ok((action, Ticks(ticks)))
    } else if outcome == "NO"@ {
        Ok((opposite(action), Ticks((payout_ticks(spec) - ticks) as i64)))
    } else {
        Err(RejectReasonView::UnknownOutcome(outcome))
    }
}

/// The canonical fill of a prediction-market event where its venue lists `listed` under its
/// market, or why there is none. The first thing that is wrong decides.
pub open spec fn pm_fill(event: PmEventView, listed: Option<InstrumentSpecView>) -> Result<
    FillView,
    RejectReasonView,
> {
    match usable(listed, Venue::Pm, event.market) {
        Err(reason) => Err(reason),
        Ok(spec) => match side_named(event.action, "BUY"@, "SELL"@) {
            Err(reason) => Err(reason),
            Ok(action) => if event.size <= 0 {
                Err(RejectReasonView::InvalidQuantity(signed_decimal(event.size as int)))
            } else if event.fee_bps < 0 {
                Err(RejectReasonView::InvalidFee(signed_decimal(event.fee_bps as int)))
            } else {
                match pm_price(event, spec) {
                    Err(reason) => Err(reason),
                    Ok(ticks) => match pm_fee(ticks, event, spec) {
                        Err(reason) => Err(reason),
                        Ok(fee) => match yes_side(event.outcome, action, ticks, spec) {
                            Err(reason) => Err(reason),
                            Ok((side, price)) => Ok(
                                FillView {
                                    venue: Venue::Pm,
                                    event_id: event.id,
                                    seq: event.sequence,
                                    ts_ms: event.timestamp_ms,
                                    account: event.user,
                                    instrument: spec.instrument,
                                    symbol: event.market,
                                    kind: spec.kind,
                                    side,
                                    price,
                                    qty: Lots(event.size),
                                    fee,
                                },
                            ),
                        },
                    },
                }
            },
        },
    }
}

impl Canonicalize for PmEvent {
    open spec fn traded(&self) -> (Venue, Seq<char>) {
        (Venue::Pm, self.market@)
    }

    open spec fn canonical(&self, listed: Option<InstrumentSpecView>) -> Result<
        FillView,
        RejectReasonView,
    > {
        pm_fill(self@, listed)
    }

    fn canonicalize<S: InstrumentSource>(self, instruments: &S) -> (result: Result<
        Fill,
        RejectReason,
    >) {
        let spec = match usable_spec(instruments, Venue::Pm, &self.market) {
            Ok(spec) => spec,
            Err(reason) => {
                return Err(reason);
            },
        };
        let action = match parse_side(&self.action, "BUY", "SELL") {
            Ok(action) => action,
            Err(reason) => {
                return Err(reason);
            },
        };
        if self.size <= 0 {
            return Err(RejectReason::InvalidQuantity(decimal_text(self.size as i128)));
        }
        if self.fee_bps < 0 {
            return Err(RejectReason::InvalidFee(decimal_text(self.fee_bps as i128)));
        }
        let ticks: i64 = match parse_probability(&self, spec) {
            Ok(ticks) => ticks,
            Err(reason) => {
                return Err(reason);
            },
        };
        let fee = match compute_fee(ticks, &self, spec) {
            Ok(fee) => fee,
            Err(reason) => {
                return Err(reason);
            },
        };
        let (side, price) = if same_text(self.outcome.as_str(), "YES") {
            (action, Ticks(ticks))
        } else if same_text(self.outcome.as_str(), "NO") {
            (action.flip(), Ticks(payout(spec) - ticks))
        } else {
            return Err(RejectReason::UnknownOutcome(self.outcome.clone()));
        };
        Ok(
            Fill {
                venue: Venue::Pm,
                event_id: self.id,
                seq: self.sequence,
                ts_ms: self.timestamp_ms,
                account: self.user,
                instrument: spec.instrument.clone(),
                symbol: self.market,
                kind: spec.kind,
                side,
                price,
                qty: Lots(self.size),
                fee,
            },
        )
    }
}

/// The venue and the symbol that an event is about.
pub open spec fn event_symbol(event: RawEventView) -> (Venue, Seq<char>) {
    match event {
        RawEventView::Hl(event) => (Venue::Hl, event.symbol),
        RawEventView::Pm(event) => (Venue::Pm, event.market),
    }
}

/// The canonical fill of an event where its venue lists `listed` under its symbol, or why there
/// is none.
pub open spec fn raw_fill(event: RawEventView, listed: Option<InstrumentSpecView>) -> Result<
    FillView,
    RejectReasonView,
> {
    match event {
        RawEventView::Hl(event) => hl_fill(event, listed),
        RawEventView::Pm(event) => pm_fill(event, listed),
    }
}

impl Canonicalize for RawEvent {
    open spec fn traded(&self) -> (Venue, Seq<char>) {
        event_symbol(self@)
    }

    open spec fn canonical(&self, listed: Option<InstrumentSpecView>) -> Result<
        FillView,
        RejectReasonView,
    > {
        raw_fill(self@, listed)
    }

    fn canonicalize<S: InstrumentSource>(self, instruments: &S) -> (result: Result<
        Fill,
        RejectReason,
    >) {
        match self {
            RawEvent::Hl(event) => event.canonicalize(instruments),
            RawEvent::Pm(event) => event.canonicalize(instruments),
        }
    }
}

/// The canonical fill of an event keeps the venue, the name, the sequence number and the symbol
/// of the event.
pub proof fn law_fill_repeats_its_event(event: RawEventView, listed: Option<InstrumentSpecView>)
    requires
        raw_fill(event, listed) is Ok,
    ensures
        raw_fill(event, listed)->Ok_0.venue == event.venue(),
        raw_fill(event, listed)->Ok_0.event_id == event.event_id(),
        raw_fill(event, listed)->Ok_0.seq == event.seq(),
        raw_fill(event, listed)->Ok_0.symbol == event_symbol(event).1,
{
}

/// A number that divides evenly is what it is divided by, as often as it goes in.
proof fn lemma_divides(n: int, d: int)
    requires
        d > 0,
        n > 0,
        n % d == 0,
    ensures
        n / d * d == n,
        n / d > 0,
{
    vstd::arithmetic::div_mod::lemma_fundamental_div_mod(n, d);
    assert(n / d * d == d * (n / d)) by (nonlinear_arith);
    assert(n / d > 0) by (nonlinear_arith)
        requires
            n == d * (n / d),
            n > 0,
            d > 0,
    ;
}

/// The canonical fill of a perpetual report says what was reported, on any listing and at any
/// size: the price in ticks, the quantity in lots and the fee in micro-dollars are the numbers
/// that the three texts stand for, the side is the one that is named, and everything else is
/// carried over.
pub proof fn law_perpetual_fill_says_what_was_reported(
    event: HlEventView,
    listed: Option<InstrumentSpecView>,
)
    requires
        hl_fill(event, listed) is Ok,
    ensures
        ({
            let fill = hl_fill(event, listed)->Ok_0;
            let spec = listed->0;
            &&& listed is Some
            &&& fixed_value(event.px, 6) == Some(fill.price.0 * spec.tick_micro)
            &&& fixed_value(event.qty, 9) == Some(fill.qty.0 * spec.lot_qty_e9)
            &&& fixed_value(event.fee, 6) == Some(fill.fee.0 as int)
            &&& fill.price.0 > 0 && fill.qty.0 > 0 && fill.fee.0 >= 0
            &&& event.side == "buy"@ || event.side == "sell"@
            &&& event.side == "buy"@ ==> fill.side == Side::Buy
            &&& event.side == "sell"@ ==> fill.side == Side::Sell
            &&& fill.venue == Venue::Hl
            &&& fill.event_id == event.event_id
            &&& fill.seq == event.seq
            &&& fill.ts_ms == event.ts
            &&& fill.account == event.account
            &&& fill.symbol == event.symbol
            &&& fill.instrument == spec.instrument
            &&& fill.kind == spec.kind
        }),
{
    let spec = listed->0;
    reveal_strlit("buy");
    reveal_strlit("sell");
    assert("buy"@.len() != "sell"@.len());
    lemma_divides(fixed_value(event.px, 6)->0, spec.tick_micro);
    lemma_divides(fixed_value(event.qty, 9)->0, spec.lot_qty_e9);
    lemma_fixed_value_fits(event.fee, 6);
}

/// A perpetual report is refused for the first thing that is wrong with it, and for nothing else:
/// the symbol, the instrument's grid, the side, the price, the quantity, the fee, in this order.
pub proof fn law_perpetual_report_is_judged_in_order(
    event: HlEventView,
    listed: Option<InstrumentSpecView>,
)
    ensures
        ({
            let outcome = hl_fill(event, listed);
            let spec = listed->0;
            let px = fixed_value(event.px, 6);
            let qty = fixed_value(event.qty, 9);
            let fee = fixed_value(event.fee, 6);
            if listed is None || spec.venue != Venue::Hl {
                outcome == Err::<FillView, RejectReasonView>(
                    RejectReasonView::UnknownSymbol(event.symbol),
                )
            } else if spec.tick_micro <= 0 || spec.lot_qty_e9 <= 0 || spec.micro_per_tick_lot
                <= 0 {
                outcome == Err::<FillView, RejectReasonView>(
                    RejectReasonView::InvalidFill(event.symbol),
                )
            } else if event.side != "buy"@ && event.side != "sell"@ {
                outcome == Err::<FillView, RejectReasonView>(
                    RejectReasonView::UnknownSide(event.side),
                )
            } else if px is None || px->0 <= 0 {
                outcome == Err::<FillView, RejectReasonView>(
                    RejectReasonView::MalformedDecimal(event.px),
                )
            } else if px->0 % spec.tick_micro != 0 {
                outcome == Err::<FillView, RejectReasonView>(
                    RejectReasonView::OffTick { symbol: event.symbol, raw: event.px },
                )
            } else if px->0 / spec.tick_micro > i64::MAX {
                outcome == Err::<FillView, RejectReasonView>(RejectReasonView::ArithmeticOverflow)
            } else if qty is None {
                outcome == Err::<FillView, RejectReasonView>(
                    RejectReasonView::MalformedDecimal(event.qty),
                )
            } else if qty->0 <= 0 {
                outcome == Err::<FillView, RejectReasonView>(
                    RejectReasonView::InvalidQuantity(event.qty),
                )
            } else if qty->0 % spec.lot_qty_e9 != 0 {
                outcome == Err::<FillView, RejectReasonView>(
                    RejectReasonView::OffLot { symbol: event.symbol, raw: event.qty },
                )
            } else if qty->0 / spec.lot_qty_e9 > i64::MAX {
                outcome == Err::<FillView, RejectReasonView>(RejectReasonView::ArithmeticOverflow)
            } else if fee is None || fee->0 < 0 {
                outcome == Err::<FillView, RejectReasonView>(
                    RejectReasonView::MalformedDecimal(event.fee),
                )
            } else {
                outcome is Ok
            }
        }),
{
}

/// The canonical fill of a market report says what was reported, on any listing, at any size and
/// at any rate. The fee is the micro-dollar nearest to the value at the reported price times the
/// rate in basis points, the larger one of two that are equally near. A YES trades as it is
/// reported; a NO trades the other way at what is missing to the payout. Everything else is
/// carried over.
pub proof fn law_market_fill_says_what_was_reported(
    event: PmEventView,
    listed: Option<InstrumentSpecView>,
)
    requires
        pm_fill(event, listed) is Ok,
    ensures
        ({
            let fill = pm_fill(event, listed)->Ok_0;
            let spec = listed->0;
            let full = 1_000_000int / spec.tick_micro;
            let ticks = ticks_of(event.price, spec.tick_micro, event.market)->Ok_0;
            let value = ticks * event.size * spec.micro_per_tick_lot;
            &&& listed is Some
            &&& ticks_of(event.price, spec.tick_micro, event.market) is Ok
            &&& full / 100 <= ticks <= full - full / 100
            &&& -5_000 < 10_000 * fill.fee.0 - value * event.fee_bps <= 5_000
            &&& fill.fee.0 >= 0
            &&& event.outcome == "YES"@ || event.outcome == "NO"@
            &&& event.action == "BUY"@ || event.action == "SELL"@
            &&& event.outcome == "YES"@ ==> fill.price.0 == ticks
            &&& event.outcome == "NO"@ ==> fill.price.0 == full - ticks
            &&& fill.side == Side::Buy <==> (event.outcome == "YES"@ && event.action == "BUY"@)
                || (event.outcome == "NO"@ && event.action == "SELL"@)
            &&& fill.qty.0 == event.size && event.size > 0
            &&& fill.venue == Venue::Pm
            &&& fill.event_id == event.id
            &&& fill.seq == event.sequence
            &&& fill.ts_ms == event.timestamp_ms
            &&& fill.account == event.user
            &&& fill.symbol == event.market
            &&& fill.instrument == spec.instrument
            &&& fill.kind == spec.kind
        }),
{
    let spec = listed->0;
    let ticks = ticks_of(event.price, spec.tick_micro, event.market)->Ok_0;
    let value = ticks * event.size * spec.micro_per_tick_lot;
    reveal_strlit("YES");
    reveal_strlit("NO");
    reveal_strlit("BUY");
    reveal_strlit("SELL");
    assert("YES"@.len() != "NO"@.len());
    assert("BUY"@.len() != "SELL"@.len());
    vstd::arithmetic::div_mod::lemma_div_is_ordered_by_denominator(1_000_000, 1, spec.tick_micro);
    vstd::arithmetic::div_mod::lemma_div_pos_is_pos(1_000_000, spec.tick_micro);
    assert(value * event.fee_bps >= 0) by (nonlinear_arith)
        requires
            value == ticks * event.size * spec.micro_per_tick_lot,
            ticks >= 0,
            event.size > 0,
            spec.micro_per_tick_lot > 0,
            event.fee_bps >= 0,
    ;
}

/// A market report is refused for the first thing that is wrong with it, and for nothing else: the
/// market, the instrument's grid, the action, the size, the rate, the price, the band from one to
/// ninety-nine percent of the payout, a value or fee that does not fit, the outcome, in this
/// order.
pub proof fn law_market_report_is_judged_in_order(
    event: PmEventView,
    listed: Option<InstrumentSpecView>,
)
    ensures
        ({
            let outcome = pm_fill(event, listed);
            let spec = listed->0;
            let full = 1_000_000int / spec.tick_micro;
            let price = ticks_of(event.price, spec.tick_micro, event.market);
            let value = price->Ok_0 * event.size * spec.micro_per_tick_lot;
            if listed is None || spec.venue != Venue::Pm {
                outcome == Err::<FillView, RejectReasonView>(
                    RejectReasonView::UnknownSymbol(event.market),
                )
            } else if spec.tick_micro <= 0 || spec.lot_qty_e9 <= 0 || spec.micro_per_tick_lot
                <= 0 {
                outcome == Err::<FillView, RejectReasonView>(
                    RejectReasonView::InvalidFill(event.market),
                )
            } else if event.action != "BUY"@ && event.action != "SELL"@ {
                outcome == Err::<FillView, RejectReasonView>(
                    RejectReasonView::UnknownSide(event.action),
                )
            } else if event.size <= 0 {
                outcome == Err::<FillView, RejectReasonView>(
                    RejectReasonView::InvalidQuantity(signed_decimal(event.size as int)),
                )
            } else if event.fee_bps < 0 {
                outcome == Err::<FillView, RejectReasonView>(
                    RejectReasonView::InvalidFee(signed_decimal(event.fee_bps as int)),
                )
            } else if price is Err {
                outcome == Err::<FillView, RejectReasonView>(price->Err_0)
            } else if price->Ok_0 < full / 100 || price->Ok_0 > full - full / 100 {
                outcome == Err::<FillView, RejectReasonView>(
                    RejectReasonView::PriceOutOfRange {
                        symbol: event.market,
                        ticks: price->Ok_0,
                    },
                )
            } else if value > i128::MAX || value * event.fee_bps + 5_000 > i128::MAX {
                outcome == Err::<FillView, RejectReasonView>(RejectReasonView::ArithmeticOverflow)
            } else if event.outcome != "YES"@ && event.outcome != "NO"@ {
                outcome == Err::<FillView, RejectReasonView>(
                    RejectReasonView::UnknownOutcome(event.outcome),
                )
            } else {
                outcome is Ok
            }
        }),
{
    let spec = listed->0;
    let price = ticks_of(event.price, spec.tick_micro, event.market);
    if spec.tick_micro > 0 && spec.micro_per_tick_lot > 0 && event.size > 0 && event.fee_bps >= 0
        && price is Ok {
        let ticks = price->Ok_0 as int;
        let value = ticks * event.size * spec.micro_per_tick_lot;
        vstd::arithmetic::div_mod::lemma_div_pos_is_pos(1_000_000, spec.tick_micro);
        if ticks >= 0 {
            assert(value >= 0) by (nonlinear_arith)
                requires
                    value == ticks * event.size * spec.micro_per_tick_lot,
                    ticks >= 0,
                    event.size > 0,
                    spec.micro_per_tick_lot > 0,
            ;
            assert(value * event.fee_bps >= 0) by (nonlinear_arith)
                requires
                    value >= 0,
                    event.fee_bps >= 0,
            ;
        }
    }
}

/// An event of either venue becomes the fill that its own venue's report becomes, under the symbol
/// that the report is about.
pub proof fn law_an_event_is_judged_by_its_venue(
    hl: HlEventView,
    pm: PmEventView,
    listed: Option<InstrumentSpecView>,
)
    ensures
        raw_fill(RawEventView::Hl(hl), listed) == hl_fill(hl, listed),
        raw_fill(RawEventView::Pm(pm), listed) == pm_fill(pm, listed),
        event_symbol(RawEventView::Hl(hl)) == (Venue::Hl, hl.symbol),
        event_symbol(RawEventView::Pm(pm)) == (Venue::Pm, pm.market),
{
}

/// NO is the other side of YES: trading NO at a price is the opposite trade of YES at what is
/// missing to the payout. Only the fee goes by the price as it was reported.
pub proof fn law_no_is_minus_yes(no: PmEventView, yes: PmEventView, spec: InstrumentSpecView)
    requires
        pm_fill(no, Some(spec)) is Ok,
        pm_fill(yes, Some(spec)) is Ok,
        no.outcome == "NO"@,
        yes.outcome == "YES"@,
        side_named(no.action, "BUY"@, "SELL"@)->Ok_0 == opposite(
            side_named(yes.action, "BUY"@, "SELL"@)->Ok_0,
        ),
        pm_price(no, spec)->Ok_0 + pm_price(yes, spec)->Ok_0 == payout_ticks(spec),
        no.size == yes.size,
    ensures
        ({
            let a = pm_fill(no, Some(spec))->Ok_0;
            let b = pm_fill(yes, Some(spec))->Ok_0;
            &&& a.side == b.side
            &&& a.price == b.price
            &&& a.qty == b.qty
            &&& a.instrument == b.instrument
        }),
{
    reveal_strlit("NO");
    reveal_strlit("YES");
    assert("NO"@.len() != "YES"@.len());
}

/// The same report with the outcome flipped is the opposite trade, at what is missing to the
/// payout: the same size, fee and instrument, the other side.
pub proof fn law_flipped_outcome_is_the_opposite_trade(
    yes: PmEventView,
    no: PmEventView,
    spec: InstrumentSpecView,
)
    requires
        yes.outcome == "YES"@,
        no == (PmEventView { outcome: "NO"@, ..yes }),
        pm_fill(yes, Some(spec)) is Ok,
    ensures
        ({
            let a = pm_fill(yes, Some(spec))->Ok_0;
            pm_fill(no, Some(spec)) == Ok::<FillView, RejectReasonView>(
                FillView {
                    side: opposite(a.side),
                    price: Ticks((payout_ticks(spec) - a.price.0) as i64),
                    ..a
                },
            )
        }),
{
    reveal_strlit("NO");
    reveal_strlit("YES");
    assert("NO"@.len() != "YES"@.len());
}

/// A report is judged as its venue's reports are, under the symbol that it is about.
pub proof fn law_a_report_is_judged_under_its_symbol(
    hl: HlEvent,
    pm: PmEvent,
    raw: RawEvent,
    listed: Option<InstrumentSpecView>,
)
    ensures
        hl.traded() == (Venue::Hl, hl@.symbol),
        hl.canonical(listed) == hl_fill(hl@, listed),
        pm.traded() == (Venue::Pm, pm@.market),
        pm.canonical(listed) == pm_fill(pm@, listed),
        raw.traded() == event_symbol(raw@),
        raw.canonical(listed) == raw_fill(raw@, listed),
{
}

} // verus!
