//! The canonical fill, and the reasons for which a fill is turned away.

use vstd::prelude::*;

use crate::fixed::{Lots, Micro, Ticks};
use crate::instrument::{InstrumentId, Kind, Venue};

verus! {

/// Which way a fill trades.
#[derive(Clone, Copy, PartialEq, Eq, PartialOrd, Ord, Debug, Structural)]
pub enum Side {
    Buy,
    Sell,
}

/// The side opposite to `side`.
pub open spec fn opposite(side: Side) -> Side {
    match side {
        Side::Buy => Side::Sell,
        Side::Sell => Side::Buy,
    }
}

impl Side {
    /// The opposite side.
    pub fn flip(self) -> (flipped: Side)
        ensures
            flipped == opposite(self),
    {
        match self {
            Side::Buy => Side::Sell,
            Side::Sell => Side::Buy,
        }
    }
}

/// Flipping a side twice gives it back, and flipping it once never does.
pub proof fn law_flip_is_an_involution(side: Side)
    ensures
        opposite(opposite(side)) == side,
        opposite(side) != side,
{
}

/// A fill in the one shape that both venues share.
#[derive(Eq, PartialOrd, Ord, Debug)]
pub struct Fill {
    pub venue: Venue,
    pub event_id: String,
    /// The venue's own sequence number.
    pub seq: u64,
    /// The venue's timestamp; never a sort key.
    pub ts_ms: u64,
    pub account: String,
    pub instrument: InstrumentId,
    pub symbol: String,
    pub kind: Kind,
    pub side: Side,
    pub price: Ticks,
    pub qty: Lots,
    pub fee: Micro,
}

/// The contents of a [`Fill`].
#[verifier::ext_equal]
pub struct FillView {
    pub venue: Venue,
    pub event_id: Seq<char>,
    pub seq: u64,
    pub ts_ms: u64,
    pub account: Seq<char>,
    pub instrument: Seq<char>,
    pub symbol: Seq<char>,
    pub kind: Kind,
    pub side: Side,
    pub price: Ticks,
    pub qty: Lots,
    pub fee: Micro,
}

impl View for Fill {
    type V = FillView;

    open spec fn view(&self) -> FillView {
        FillView {
            venue: self.venue,
            event_id: self.event_id@,
            seq: self.seq,
            ts_ms: self.ts_ms,
            account: self.account@,
            instrument: self.instrument@,
            symbol: self.symbol@,
            kind: self.kind,
            side: self.side,
            price: self.price,
            qty: self.qty,
            fee: self.fee,
        }
    }
}

impl Clone for Fill {
    fn clone(&self) -> (copy: Self)
        ensures
            copy == *self,
    {
        Fill {
            venue: self.venue,
            event_id: self.event_id.clone(),
            seq: self.seq,
            ts_ms: self.ts_ms,
            account: self.account.clone(),
            instrument: self.instrument.clone(),
            symbol: self.symbol.clone(),
            kind: self.kind,
            side: self.side,
            price: self.price,
            qty: self.qty,
            fee: self.fee,
        }
    }
}

impl PartialEq for Fill {
    fn eq(&self, other: &Fill) -> (same: bool) {
        self.venue == other.venue && self.event_id == other.event_id && self.seq == other.seq
            && self.ts_ms == other.ts_ms && self.account == other.account && self.instrument
            == other.instrument && self.symbol == other.symbol && self.kind == other.kind
            && self.side == other.side && self.price == other.price && self.qty == other.qty
            && self.fee == other.fee
    }
}

impl vstd::std_specs::cmp::PartialEqSpecImpl for Fill {
    open spec fn obeys_eq_spec() -> bool {
        true
    }

    open spec fn eq_spec(&self, other: &Fill) -> bool {
        self@ == other@
    }
}

/// Why an event or a fill is turned away.
#[derive(PartialEq, Eq, Debug)]
pub enum RejectReason {
    /// No venue lists the symbol.
    UnknownSymbol(String),
    /// The price lies between two ticks.
    OffTick { symbol: String, raw: String },
    /// The quantity lies between two lots.
    OffLot { symbol: String, raw: String },
    /// The probability is outside what a binary can trade at.
    PriceOutOfRange { symbol: String, ticks: i64 },
    /// Not a decimal number, or not one that can stand here.
    MalformedDecimal(String),
    /// Neither a buy nor a sell.
    UnknownSide(String),
    /// Neither YES nor NO.
    UnknownOutcome(String),
    /// The quantity is not positive.
    InvalidQuantity(String),
    /// The fee rate is negative.
    InvalidFee(String),
    /// The fill does not fit its instrument.
    InvalidFill(String),
    /// The position would make no sense.
    InvalidPosition(String),
    /// A number does not fit its type.
    ArithmeticOverflow,
}

/// The contents of a [`RejectReason`].
#[verifier::ext_equal]
pub enum RejectReasonView {
    UnknownSymbol(Seq<char>),
    OffTick { symbol: Seq<char>, raw: Seq<char> },
    OffLot { symbol: Seq<char>, raw: Seq<char> },
    PriceOutOfRange { symbol: Seq<char>, ticks: i64 },
    MalformedDecimal(Seq<char>),
    UnknownSide(Seq<char>),
    UnknownOutcome(Seq<char>),
    InvalidQuantity(Seq<char>),
    InvalidFee(Seq<char>),
    InvalidFill(Seq<char>),
    InvalidPosition(Seq<char>),
    ArithmeticOverflow,
}

impl View for RejectReason {
    type V = RejectReasonView;

    open spec fn view(&self) -> RejectReasonView {
        match self {
            RejectReason::UnknownSymbol(s) => RejectReasonView::UnknownSymbol(s@),
            RejectReason::OffTick { symbol, raw } => RejectReasonView::OffTick {
                symbol: symbol@,
                raw: raw@,
            },
            RejectReason::OffLot { symbol, raw } => RejectReasonView::OffLot {
                symbol: symbol@,
                raw: raw@,
            },
            RejectReason::PriceOutOfRange { symbol, ticks } => RejectReasonView::PriceOutOfRange {
                symbol: symbol@,
                ticks: *ticks,
            },
            RejectReason::MalformedDecimal(s) => RejectReasonView::MalformedDecimal(s@),
            RejectReason::UnknownSide(s) => RejectReasonView::UnknownSide(s@),
            RejectReason::UnknownOutcome(s) => RejectReasonView::UnknownOutcome(s@),
            RejectReason::InvalidQuantity(s) => RejectReasonView::InvalidQuantity(s@),
            RejectReason::InvalidFee(s) => RejectReasonView::InvalidFee(s@),
            RejectReason::InvalidFill(s) => RejectReasonView::InvalidFill(s@),
            RejectReason::InvalidPosition(s) => RejectReasonView::InvalidPosition(s@),
            RejectReason::ArithmeticOverflow => RejectReasonView::ArithmeticOverflow,
        }
    }
}

impl Clone for RejectReason {
    fn clone(&self) -> (copy: Self)
        ensures
            copy == *self,
    {
        match self {
            RejectReason::UnknownSymbol(s) => RejectReason::UnknownSymbol(s.clone()),
            RejectReason::OffTick { symbol, raw } => RejectReason::OffTick {
                symbol: symbol.clone(),
                raw: raw.clone(),
            },
            RejectReason::OffLot { symbol, raw } => RejectReason::OffLot {
                symbol: symbol.clone(),
                raw: raw.clone(),
            },
            RejectReason::PriceOutOfRange { symbol, ticks } => RejectReason::PriceOutOfRange {
                symbol: symbol.clone(),
                ticks: *ticks,
            },
            RejectReason::MalformedDecimal(s) => RejectReason::MalformedDecimal(s.clone()),
            RejectReason::UnknownSide(s) => RejectReason::UnknownSide(s.clone()),
            RejectReason::UnknownOutcome(s) => RejectReason::UnknownOutcome(s.clone()),
            RejectReason::InvalidQuantity(s) => RejectReason::InvalidQuantity(s.clone()),
            RejectReason::InvalidFee(s) => RejectReason::InvalidFee(s.clone()),
            RejectReason::InvalidFill(s) => RejectReason::InvalidFill(s.clone()),
            RejectReason::InvalidPosition(s) => RejectReason::InvalidPosition(s.clone()),
            RejectReason::ArithmeticOverflow => RejectReason::ArithmeticOverflow,
        }
    }
}

/// The contents of a result that turns a value away for a [`RejectReason`].
pub open spec fn outcome_view<T: View>(result: Result<T, RejectReason>) -> Result<
    T::V,
    RejectReasonView,
> {
    match result {
        Ok(value) => Ok(value@),
        Err(reason) => Err(reason@),
    }
}

} // verus!
