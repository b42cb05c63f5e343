//! The events as the venues send them.

use vstd::prelude::*;

verus! {

/// A fill as the perpetual venue reports it: every number is a decimal text.
#[derive(Debug)]
pub struct HlEvent {
    pub seq: u64,
    pub event_id: String,
    pub ts: u64,
    pub account: String,
    pub symbol: String,
    pub side: String,
    pub px: String,
    pub qty: String,
    pub fee: String,
}

/// The contents of an [`HlEvent`].
#[verifier::ext_equal]
pub struct HlEventView {
    pub seq: u64,
    pub event_id: Seq<char>,
    pub ts: u64,
    pub account: Seq<char>,
    pub symbol: Seq<char>,
    pub side: Seq<char>,
    pub px: Seq<char>,
    pub qty: Seq<char>,
    pub fee: Seq<char>,
}

impl View for HlEvent {
    type V = HlEventView;

    open spec fn view(&self) -> HlEventView {
        HlEventView {
            seq: self.seq,
            event_id: self.event_id@,
            ts: self.ts,
            account: self.account@,
            symbol: self.symbol@,
            side: self.side@,
            px: self.px@,
            qty: self.qty@,
            fee: self.fee@,
        }
    }
}

impl Clone for HlEvent {
    fn clone(&self) -> (copy: Self)
        ensures
            copy == *self,
    {
        HlEvent {
            seq: self.seq,
            event_id: self.event_id.clone(),
            ts: self.ts,
            account: self.account.clone(),
            symbol: self.symbol.clone(),
            side: self.side.clone(),
            px: self.px.clone(),
            qty: self.qty.clone(),
            fee: self.fee.clone(),
        }
    }
}

impl PartialEq for HlEvent {
    fn eq(&self, other: &HlEvent) -> (same: bool) {
        self.seq == other.seq && self.event_id == other.event_id && self.ts == other.ts
            && self.account == other.account && self.symbol == other.symbol && self.side
            == other.side && self.px == other.px && self.qty == other.qty && self.fee == other.fee
    }
}

impl vstd::std_specs::cmp::PartialEqSpecImpl for HlEvent {
    open spec fn obeys_eq_spec() -> bool {
        true
    }

    open spec fn eq_spec(&self, other: &HlEvent) -> bool {
        self@ == other@
    }
}

/// A price as the prediction market puts it on the wire: a double-precision number. `bits` is
/// its IEEE 754 binary64 encoding. `text` is the number printed, for reports.
#[derive(Debug)]
pub struct WirePrice {
    pub bits: u64,
    pub text: String,
}

/// The contents of a [`WirePrice`].
#[verifier::ext_equal]
pub struct WirePriceView {
    pub bits: u64,
    pub text: Seq<char>,
}

impl View for WirePrice {
    type V = WirePriceView;

    open spec fn view(&self) -> WirePriceView {
        WirePriceView { bits: self.bits, text: self.text@ }
    }
}

impl Clone for WirePrice {
    fn clone(&self) -> (copy: Self)
        ensures
            copy == *self,
    {
        WirePrice { bits: self.bits, text: self.text.clone() }
    }
}

/// The exponent field of a binary64 encoding.
pub open spec fn exponent_field(bits: u64) -> int {
    (bits as int / 0x10_0000_0000_0000) % 0x800
}

/// The fraction field of a binary64 encoding.
pub open spec fn fraction_field(bits: u64) -> int {
    bits as int % 0x10_0000_0000_0000
}

/// Whether the sign bit of a binary64 encoding is set.
pub open spec fn sign_field(bits: u64) -> bool {
    bits >= 0x8000_0000_0000_0000
}

/// Whether a binary64 encoding stands for no number.
pub open spec fn is_nan(bits: u64) -> bool {
    exponent_field(bits) == 0x7FF && fraction_field(bits) != 0
}

/// Whether a binary64 encoding stands for zero, of either sign.
pub open spec fn is_zero(bits: u64) -> bool {
    exponent_field(bits) == 0 && fraction_field(bits) == 0
}

/// Whether two binary64 encodings stand for the same number: the encodings are the same and
/// stand for a number, or both are zero.
pub open spec fn same_number(a: u64, b: u64) -> bool {
    (a == b && !is_nan(a)) || (is_zero(a) && is_zero(b))
}

/// The exponent field of a binary64 encoding.
pub fn exponent_bits(bits: u64) -> (field: u64)
    ensures
        field == exponent_field(bits),
        field < 0x800,
{
    (bits / 0x10_0000_0000_0000) % 0x800
}

/// The fraction field of a binary64 encoding.
pub fn fraction_bits(bits: u64) -> (field: u64)
    ensures
        field == fraction_field(bits),
        field < 0x10_0000_0000_0000,
{
    bits % 0x10_0000_0000_0000
}

impl PartialEq for WirePrice {
    fn eq(&self, other: &WirePrice) -> (same: bool) {
        let zero = exponent_bits(self.bits) == 0 && fraction_bits(self.bits) == 0;
        let other_zero = exponent_bits(other.bits) == 0 && fraction_bits(other.bits) == 0;
        let nan = exponent_bits(self.bits) == 0x7FF && fraction_bits(self.bits) != 0;
        (self.bits == other.bits && !nan) || (zero && other_zero)
    }
}

impl vstd::std_specs::cmp::PartialEqSpecImpl for WirePrice {
    open spec fn obeys_eq_spec() -> bool {
        true
    }

    open spec fn eq_spec(&self, other: &WirePrice) -> bool {
        same_number(self.bits, other.bits)
    }
}

/// A fill as the prediction market reports it.
#[derive(Debug)]
pub struct PmEvent {
    pub sequence: u64,
    pub id: String,
    pub timestamp_ms: u64,
    pub user: String,
    pub market: String,
    pub outcome: String,
    pub action: String,
    pub price: WirePrice,
    pub size: i64,
    pub fee_bps: i64,
}

/// The contents of a [`PmEvent`].
#[verifier::ext_equal]
pub struct PmEventView {
    pub sequence: u64,
    pub id: Seq<char>,
    pub timestamp_ms: u64,
    pub user: Seq<char>,
    pub market: Seq<char>,
    pub outcome: Seq<char>,
    pub action: Seq<char>,
    pub price: WirePriceView,
    pub size: i64,
    pub fee_bps: i64,
}

impl View for PmEvent {
    type V = PmEventView;

    open spec fn view(&self) -> PmEventView {
        PmEventView {
            sequence: self.sequence,
            id: self.id@,
            timestamp_ms: self.timestamp_ms,
            user: self.user@,
            market: self.market@,
            outcome: self.outcome@,
            action: self.action@,
            price: self.price@,
            size: self.size,
            fee_bps: self.fee_bps,
        }
    }
}

impl Clone for PmEvent {
    fn clone(&self) -> (copy: Self)
        ensures
            copy == *self,
    {
        PmEvent {
            sequence: self.sequence,
            id: self.id.clone(),
            timestamp_ms: self.timestamp_ms,
            user: self.user.clone(),
            market: self.market.clone(),
            outcome: self.outcome.clone(),
            action: self.action.clone(),
            price: self.price.clone(),
            size: self.size,
            fee_bps: self.fee_bps,
        }
    }
}

/// Whether two reports of the prediction market say the same: every field agrees, the price as
/// a number.
pub open spec fn same_pm_event(a: PmEventView, b: PmEventView) -> bool {
    &&& a.sequence == b.sequence
    &&& a.id == b.id
    &&& a.timestamp_ms == b.timestamp_ms
    &&& a.user == b.user
    &&& a.market == b.market
    &&& a.outcome == b.outcome
    &&& a.action == b.action
    &&& same_number(a.price.bits, b.price.bits)
    &&& a.size == b.size
    &&& a.fee_bps == b.fee_bps
}

impl PartialEq for PmEvent {
    fn eq(&self, other: &PmEvent) -> (same: bool) {
        self.sequence == other.sequence && self.id == other.id && self.timestamp_ms
            == other.timestamp_ms && self.user == other.user && self.market == other.market
            && self.outcome == other.outcome && self.action == other.action && self.price
            == other.price && self.size == other.size && self.fee_bps == other.fee_bps
    }
}

impl vstd::std_specs::cmp::PartialEqSpecImpl for PmEvent {
    open spec fn obeys_eq_spec() -> bool {
        true
    }

    open spec fn eq_spec(&self, other: &PmEvent) -> bool {
        same_pm_event(self@, other@)
    }
}

} // verus!
