//! Venues, instruments and the registry that lists them.

use vstd::hash_map::StringHashMap;
use vstd::prelude::*;

verus! {

/// A trading venue. The declaration order is the venue priority.
#[derive(Clone, Copy, PartialEq, Eq, PartialOrd, Ord, Hash, Debug, Structural)]
pub enum Venue {
    /// The perpetual-futures venue.
    Hl,
    /// The binary prediction-market venue.
    Pm,
}

/// What kind of contract an instrument is.
#[derive(Clone, Copy, PartialEq, Eq, PartialOrd, Ord, Hash, Debug, Structural)]
pub enum Kind {
    Perp,
    Binary,
}

/// The name of an instrument across venues.
#[derive(Eq, PartialOrd, Ord, Hash, Debug)]
pub struct InstrumentId(pub String);

impl View for InstrumentId {
    type V = Seq<char>;

    open spec fn view(&self) -> Seq<char> {
        self.0@
    }
}

impl Clone for InstrumentId {
    fn clone(&self) -> (copy: Self)
        ensures
            copy == *self,
    {
        InstrumentId(self.0.clone())
    }
}

impl PartialEq for InstrumentId {
    fn eq(&self, other: &InstrumentId) -> (same: bool) {
        self.0 == other.0
    }
}

impl vstd::std_specs::cmp::PartialEqSpecImpl for InstrumentId {
    open spec fn obeys_eq_spec() -> bool {
        true
    }

    open spec fn eq_spec(&self, other: &InstrumentId) -> bool {
        self@ == other@
    }
}

/// What a venue trades under a symbol, and on which grid of prices and quantities.
#[derive(PartialEq, Eq, Debug)]
pub struct InstrumentSpec {
    pub instrument: InstrumentId,
    pub symbol: String,
    pub venue: Venue,
    pub kind: Kind,
    /// The price step, in micro-dollars.
    pub tick_micro: i128,
    /// The quantity step, in billionths of a unit.
    pub lot_qty_e9: i128,
    /// What one lot is worth per tick of price, in micro-dollars. The registry derives it.
    pub micro_per_tick_lot: i128,
}

/// The contents of an [`InstrumentSpec`].
pub struct InstrumentSpecView {
    pub instrument: Seq<char>,
    pub symbol: Seq<char>,
    pub venue: Venue,
    pub kind: Kind,
    pub tick_micro: int,
    pub lot_qty_e9: int,
    pub micro_per_tick_lot: int,
}

impl View for InstrumentSpec {
    type V = InstrumentSpecView;

    open spec fn view(&self) -> InstrumentSpecView {
        InstrumentSpecView {
            instrument: self.instrument@,
            symbol: self.symbol@,
            venue: self.venue,
            kind: self.kind,
            tick_micro: self.tick_micro as int,
            lot_qty_e9: self.lot_qty_e9 as int,
            micro_per_tick_lot: self.micro_per_tick_lot as int,
        }
    }
}

impl Clone for InstrumentSpec {
    fn clone(&self) -> (copy: Self)
        ensures
            copy == *self,
    {
        InstrumentSpec {
            instrument: self.instrument.clone(),
            symbol: self.symbol.clone(),
            venue: self.venue,
            kind: self.kind,
            tick_micro: self.tick_micro,
            lot_qty_e9: self.lot_qty_e9,
            micro_per_tick_lot: self.micro_per_tick_lot,
        }
    }
}

/// Somewhere to look instruments up by venue and venue symbol.
pub trait InstrumentSource {
    /// What `venue` lists under `symbol`.
    spec fn listed(&self, venue: Venue, symbol: Seq<char>) -> Option<InstrumentSpecView>;

    /// Finds what `venue` lists under `symbol`.
    fn lookup(&self, venue: Venue, symbol: &str) -> (found: Option<&InstrumentSpec>)
        ensures
            match found {
                Some(spec) => self.listed(venue, symbol@) == Some(spec@),
                None => self.listed(venue, symbol@) is None,
            },
    ;
}

/// Why a set of instruments cannot be registered.
#[derive(PartialEq, Eq, Debug)]
pub enum RegistryError {
    /// A venue would list the symbol twice.
    DuplicateSymbol(String),
    /// The symbol's venue, kind, tick or lot is out of the question.
    InvalidSpec(String),
    /// The symbol's tick and lot are too large to multiply.
    ArithmeticOverflow(String),
    /// The instrument would trade on two different grids.
    InconsistentInstrument(String),
}

/// The contents of a [`RegistryError`].
pub enum RegistryErrorView {
    DuplicateSymbol(Seq<char>),
    InvalidSpec(Seq<char>),
    ArithmeticOverflow(Seq<char>),
    InconsistentInstrument(Seq<char>),
}

impl View for RegistryError {
    type V = RegistryErrorView;

    open spec fn view(&self) -> RegistryErrorView {
        match self {
            RegistryError::DuplicateSymbol(s) => RegistryErrorView::DuplicateSymbol(s@),
            RegistryError::InvalidSpec(s) => RegistryErrorView::InvalidSpec(s@),
            RegistryError::ArithmeticOverflow(s) => RegistryErrorView::ArithmeticOverflow(s@),
            RegistryError::InconsistentInstrument(s) => RegistryErrorView::InconsistentInstrument(
                s@,
            ),
        }
    }
}

impl Clone for RegistryError {
    fn clone(&self) -> (copy: Self)
        ensures
            copy == *self,
    {
        match self {
            RegistryError::DuplicateSymbol(s) => RegistryError::DuplicateSymbol(s.clone()),
            RegistryError::InvalidSpec(s) => RegistryError::InvalidSpec(s.clone()),
            RegistryError::ArithmeticOverflow(s) => RegistryError::ArithmeticOverflow(s.clone()),
            RegistryError::InconsistentInstrument(s) => RegistryError::InconsistentInstrument(
                s.clone(),
            ),
        }
    }
}

/// The instruments of a registry by venue and symbol.
pub type Listing = Map<(Venue, Seq<char>), InstrumentSpecView>;

/// A billion: lots are counted in billionths of a unit.
pub open spec fn billion() -> int {
    1_000_000_000
}

/// Whether a venue trades this kind of contract on this grid. The perpetual venue trades
/// perpetuals on any grid. The prediction market trades binaries in whole contracts, on a grid
/// that divides the one-dollar payout into a multiple of one hundred ticks.
pub open spec fn venue_trades(spec: InstrumentSpecView) -> bool {
    match (spec.venue, spec.kind) {
        (Venue::Hl, Kind::Perp) => true,
        (Venue::Pm, Kind::Binary) => {
            &&& spec.lot_qty_e9 == billion()
            &&& 1_000_000int % spec.tick_micro == 0
            &&& (1_000_000int / spec.tick_micro) % 100 == 0
        },
        _ => false,
    }
}

/// Whether two specs put an instrument on the same grid.
pub open spec fn same_economics(a: InstrumentSpecView, b: InstrumentSpecView) -> bool {
    &&& a.kind == b.kind
    &&& a.tick_micro == b.tick_micro
    &&& a.lot_qty_e9 == b.lot_qty_e9
    &&& a.micro_per_tick_lot == b.micro_per_tick_lot
}

/// `spec` with the value of one tick on one lot filled in.
pub open spec fn derived(spec: InstrumentSpecView) -> InstrumentSpecView {
    InstrumentSpecView {
        micro_per_tick_lot: spec.tick_micro * spec.lot_qty_e9 / billion(),
        ..spec
    }
}

/// Whether `listing` already has the instrument of `spec` on another grid.
pub open spec fn conflicts(listing: Listing, spec: InstrumentSpecView) -> bool {
    exists|key: (Venue, Seq<char>)| #[trigger]
        listing.contains_key(key) && listing[key].instrument == spec.instrument && !same_economics(
            listing[key],
            spec,
        )
}

/// What becomes of `spec` when it is added to `listing`: the spec as it is registered, or why it
/// is refused.
pub open spec fn admitted(listing: Listing, spec: InstrumentSpecView) -> Result<
    InstrumentSpecView,
    RegistryErrorView,
> {
    let product = spec.tick_micro * spec.lot_qty_e9;
    if spec.tick_micro <= 0 || spec.lot_qty_e9 <= 0 || !venue_trades(spec) {
        Err(RegistryErrorView::InvalidSpec(spec.symbol))
    } else if product > i128::MAX {
        Err(RegistryErrorView::ArithmeticOverflow(spec.symbol))
    } else if product % billion() != 0 {
        Err(RegistryErrorView::InvalidSpec(spec.symbol))
    } else if listing.contains_key((spec.venue, spec.symbol)) {
        Err(RegistryErrorView::DuplicateSymbol(spec.symbol))
    } else if conflicts(listing, derived(spec)) {
        Err(RegistryErrorView::InconsistentInstrument(spec.instrument))
    } else {
        Ok(derived(spec))
    }
}

/// What a sequence of specs, added one after the other, registers; the first refusal ends it.
pub open spec fn registered(specs: Seq<InstrumentSpecView>) -> Result<Listing, RegistryErrorView>
    decreases specs.len(),
{
    if specs.len() == 0 {
        Ok(Map::empty())
    } else {
        match registered(specs.drop_last()) {
            Err(error) => Err(error),
            Ok(listing) => match admitted(listing, specs.last()) {
                Err(error) => Err(error),
                Ok(spec) => Ok(listing.insert((spec.venue, spec.symbol), spec)),
            },
        }
    }
}

/// The contents of a sequence of specs.
pub open spec fn spec_views(specs: Seq<InstrumentSpec>) -> Seq<InstrumentSpecView> {
    specs.map_values(|spec: InstrumentSpec| spec@)
}

/// Whether an instrument is fit to trade under `key`: it stands under its own venue and symbol,
/// and a tick on a lot is worth a positive whole number of micro-dollars.
pub open spec fn tradable(key: (Venue, Seq<char>), spec: InstrumentSpecView) -> bool {
    &&& spec.venue == key.0
    &&& spec.symbol == key.1
    &&& spec.tick_micro > 0
    &&& spec.lot_qty_e9 > 0
    &&& spec.micro_per_tick_lot > 0
    &&& spec.micro_per_tick_lot * billion() == spec.tick_micro * spec.lot_qty_e9
    &&& venue_trades(spec)
}

/// Whether a listing is sound: every instrument is fit to trade, and an instrument that several
/// symbols share trades on one grid everywhere.
pub open spec fn sound(listing: Listing) -> bool {
    &&& forall|key: (Venue, Seq<char>)| #[trigger]
        listing.contains_key(key) ==> tradable(key, listing[key])
    &&& forall|a: (Venue, Seq<char>), b: (Venue, Seq<char>)|
        #![trigger listing.contains_key(a), listing.contains_key(b)]
        listing.contains_key(a) && listing.contains_key(b) && listing[a].instrument
            == listing[b].instrument ==> same_economics(listing[a], listing[b])
}

/// Whatever can be registered is sound.
pub proof fn law_registered_listing_is_sound(specs: Seq<InstrumentSpecView>)
    requires
        registered(specs) is Ok,
    ensures
        sound(registered(specs)->Ok_0),
    decreases specs.len(),
{
    if specs.len() > 0 {
        law_registered_listing_is_sound(specs.drop_last());
        let listing = registered(specs.drop_last())->Ok_0;
        let spec = specs.last();
        let product = spec.tick_micro * spec.lot_qty_e9;
        assert(product > 0) by (nonlinear_arith)
            requires
                product == spec.tick_micro * spec.lot_qty_e9,
                spec.tick_micro > 0,
                spec.lot_qty_e9 > 0,
        ;
        assert(product / billion() * billion() == product);
        assert(tradable((spec.venue, spec.symbol), derived(spec)));
    }
}

/// An instrument trades on one venue: what trades on a venue is of the venue's own kind, and a
/// sound listing has an instrument under one kind.
pub proof fn law_instrument_trades_on_one_venue(
    listing: Listing,
    a: (Venue, Seq<char>),
    b: (Venue, Seq<char>),
)
    requires
        sound(listing),
        listing.contains_key(a),
        listing.contains_key(b),
        listing[a].instrument == listing[b].instrument,
    ensures
        a.0 == b.0,
{
    assert(tradable(a, listing[a]));
    assert(tradable(b, listing[b]));
    assert(same_economics(listing[a], listing[b]));
}

/// The instruments known up front, by venue and symbol.
pub struct Registry {
    hl: StringHashMap<InstrumentSpec>,
    pm: StringHashMap<InstrumentSpec>,
}

impl View for Registry {
    type V = Listing;

    closed spec fn view(&self) -> Listing {
        Map::new(
            |key: (Venue, Seq<char>)| self.venue_table(key.0).contains_key(key.1),
            |key: (Venue, Seq<char>)| self.venue_table(key.0)[key.1]@,
        )
    }
}

impl Registry {
    spec fn venue_table(&self, venue: Venue) -> Map<Seq<char>, InstrumentSpec> {
        match venue {
            Venue::Hl => self.hl@,
            Venue::Pm => self.pm@,
        }
    }

    /// Registers `specs`, which must all be registrable.
    pub fn from_specs(specs: Vec<InstrumentSpec>) -> (registry: Registry)
        requires
            registered(spec_views(specs@)) is Ok,
        ensures
            registered(spec_views(specs@)) == Ok::<Listing, RegistryErrorView>(registry@),
            sound(registry@),
    {
        Registry::try_from_specs(specs).unwrap()
    }

    /// Registers `specs` one after the other, or says which of them is refused and why.
    pub fn try_from_specs(specs: Vec<InstrumentSpec>) -> (result: Result<Registry, RegistryError>)
        ensures
            match result {
                Ok(registry) => {
                    &&& registered(spec_views(specs@)) == Ok::<Listing, RegistryErrorView>(
                        registry@,
                    )
                    &&& sound(registry@)
                },
                Err(error) => registered(spec_views(specs@)) == Err::<Listing, RegistryErrorView>(
                    error@,
                ),
            },
    {
        let ghost views = spec_views(specs@);
        let mut registry = Registry { hl: StringHashMap::new(), pm: StringHashMap::new() };
        let mut by_instrument: StringHashMap<InstrumentSpec> = StringHashMap::new();
        let mut i: usize = 0;
        assert(registry@ =~= Map::<(Venue, Seq<char>), InstrumentSpecView>::empty());
        assert(views.take(0) =~= Seq::<InstrumentSpecView>::empty());
        while i < specs.len()
            invariant
                i <= specs.len(),
                views == spec_views(specs@),
                registered(views.take(i as int)) == Ok::<Listing, RegistryErrorView>(registry@),
                grids_agree(registry@, by_instrument@),
            decreases specs.len() - i,
        {
            let mut spec = specs[i].clone();
            let ghost given = spec@;
            let ghost listing = registry@;
            let ghost grids = by_instrument@;
            proof {
                assert(views.take(i + 1).drop_last() =~= views.take(i as int));
                assert(views.take(i + 1).last() == given);
                if registered(views.take(i + 1)) is Err {
                    lemma_refusal_stands(views, i + 1);
                }
            }
            if spec.tick_micro <= 0 || spec.lot_qty_e9 <= 0 {
                return Err(RegistryError::InvalidSpec(spec.symbol));
            }
            let traded: bool = match (spec.venue, spec.kind) {
                (Venue::Hl, Kind::Perp) => true,
                (Venue::Pm, Kind::Binary) => spec.lot_qty_e9 == 1_000_000_000 && 1_000_000i128
                    % spec.tick_micro == 0 && (1_000_000i128 / spec.tick_micro) % 100 == 0,
                _ => false,
            };
            if !traded {
                return Err(RegistryError::InvalidSpec(spec.symbol));
            }
            proof {
                assert(given.tick_micro * given.lot_qty_e9 > 0) by (nonlinear_arith)
                    requires
                        given.tick_micro > 0,
                        given.lot_qty_e9 > 0,
                ;
            }
            let product: i128 = match spec.tick_micro.checked_mul(spec.lot_qty_e9) {
                Some(product) => product,
                None => {
                    return Err(RegistryError::ArithmeticOverflow(spec.symbol));
                },
            };
            if product % 1_000_000_000 != 0 {
                return Err(RegistryError::InvalidSpec(spec.symbol));
            }
            spec.micro_per_tick_lot = product / 1_000_000_000;
            assert(spec@ == derived(given));
            if registry.lookup(spec.venue, spec.symbol.as_str()).is_some() {
                return Err(RegistryError::DuplicateSymbol(spec.symbol));
            }
            match by_instrument.get(spec.instrument.0.as_str()) {
                Some(existing) => {
                    if existing.kind != spec.kind || existing.tick_micro != spec.tick_micro
                        || existing.lot_qty_e9 != spec.lot_qty_e9 || existing.micro_per_tick_lot
                        != spec.micro_per_tick_lot {
                        assert(conflicts(listing, derived(given)));
                        return Err(RegistryError::InconsistentInstrument(spec.instrument.0));
                    }
                },
                None => {
                    by_instrument.insert(spec.instrument.0.clone(), spec.clone());
                },
            }
            assert(!conflicts(listing, derived(given)));
            let symbol = spec.symbol.clone();
            match spec.venue {
                Venue::Hl => registry.hl.insert(symbol, spec),
                Venue::Pm => registry.pm.insert(symbol, spec),
            }
            assert(registry@ =~= listing.insert((given.venue, given.symbol), derived(given)));
            assert(grids_agree(registry@, by_instrument@)) by {
                assert(registry@.contains_key((given.venue, given.symbol)));
                assert forall|instrument: Seq<char>| #[trigger]
                    by_instrument@.contains_key(instrument) implies exists|
                    key: (Venue, Seq<char>),
                | #[trigger]
                    registry@.contains_key(key) && registry@[key].instrument == instrument by {
                    if instrument != given.instrument {
                        assert(grids.contains_key(instrument));
                        let key = choose|key: (Venue, Seq<char>)| #[trigger]
                            listing.contains_key(key) && listing[key].instrument == instrument;
                        assert(registry@.contains_key(key));
                    }
                }
            }
            i = i + 1;
        }
        assert(views.take(specs.len() as int) =~= views);
        proof {
            law_registered_listing_is_sound(views);
        }
        Ok(registry)
    }
}

/// An instrument that a venue lists under the instrument's own name.
pub open spec fn listed_as(
    name: Seq<char>,
    venue: Venue,
    kind: Kind,
    tick_micro: int,
    lot_qty_e9: int,
    micro_per_tick_lot: int,
) -> InstrumentSpecView {
    InstrumentSpecView {
        instrument: name,
        symbol: name,
        venue,
        kind,
        tick_micro,
        lot_qty_e9,
        micro_per_tick_lot,
    }
}

/// The standard instruments: two perpetuals and two binaries.
pub open spec fn standard_listing() -> Listing {
    let btc = "BTC-PERP"@;
    let eth = "ETH-PERP"@;
    let fed = "FED-CUT-SEP"@;
    let cpi = "CPI-ABOVE-AUG"@;
    Map::empty().insert(
        (Venue::Hl, btc),
        listed_as(btc, Venue::Hl, Kind::Perp, 500_000, 100_000, 50),
    ).insert(
        (Venue::Hl, eth),
        listed_as(eth, Venue::Hl, Kind::Perp, 50_000, 1_000_000, 50),
    ).insert(
        (Venue::Pm, fed),
        listed_as(fed, Venue::Pm, Kind::Binary, 100, 1_000_000_000, 100),
    ).insert(
        (Venue::Pm, cpi),
        listed_as(cpi, Venue::Pm, Kind::Binary, 100, 1_000_000_000, 100),
    )
}

/// The four standard names are four different texts.
pub proof fn lemma_standard_names_differ()
    ensures
        "BTC-PERP"@ != "ETH-PERP"@,
        "FED-CUT-SEP"@ != "CPI-ABOVE-AUG"@,
        "BTC-PERP"@ != "FED-CUT-SEP"@,
        "BTC-PERP"@ != "CPI-ABOVE-AUG"@,
        "ETH-PERP"@ != "FED-CUT-SEP"@,
        "ETH-PERP"@ != "CPI-ABOVE-AUG"@,
{
    reveal_strlit("BTC-PERP");
    reveal_strlit("ETH-PERP");
    reveal_strlit("FED-CUT-SEP");
    reveal_strlit("CPI-ABOVE-AUG");
    assert("BTC-PERP"@[0] != "ETH-PERP"@[0]);
    assert("FED-CUT-SEP"@[0] != "CPI-ABOVE-AUG"@[0]);
    assert("BTC-PERP"@.len() == 8);
    assert("FED-CUT-SEP"@.len() == 11);
    assert("CPI-ABOVE-AUG"@.len() == 13);
    assert("ETH-PERP"@.len() == 8);
}

/// The standard listing is sound.
pub proof fn law_standard_listing_is_sound()
    ensures
        sound(standard_listing()),
{
    lemma_standard_names_differ();
    let listing = standard_listing();
    assert forall|key: (Venue, Seq<char>)| #[trigger] listing.contains_key(key) implies tradable(
        key,
        listing[key],
    ) by {
        let spec = listing[key];
        if key == (Venue::Hl, "BTC-PERP"@) {
            assert(spec == listed_as("BTC-PERP"@, Venue::Hl, Kind::Perp, 500_000, 100_000, 50));
            assert(50 * billion() == 500_000 * 100_000);
        } else if key == (Venue::Hl, "ETH-PERP"@) {
            assert(spec == listed_as("ETH-PERP"@, Venue::Hl, Kind::Perp, 50_000, 1_000_000, 50));
            assert(50 * billion() == 50_000 * 1_000_000);
        } else {
            assert(spec.tick_micro == 100 && spec.lot_qty_e9 == billion());
            assert(spec.micro_per_tick_lot == 100);
            assert(100 * billion() == 100 * 1_000_000_000);
            assert(1_000_000int % 100 == 0 && (1_000_000int / 100) % 100 == 0);
            assert(1_000_000int % spec.tick_micro == 0);
            assert(1_000_000int / spec.tick_micro == 10_000);
        }
    }
}

/// Specs are registered one after the other, and the first that is refused ends it. Each stands
/// under its own venue and symbol; nothing else is listed, and nothing that is listed changes.
pub proof fn law_specs_are_registered_one_by_one(
    specs: Seq<InstrumentSpecView>,
    spec: InstrumentSpecView,
)
    ensures
        registered(Seq::empty()) == Ok::<Listing, RegistryErrorView>(Map::empty()),
        registered(specs) is Err ==> registered(specs.push(spec)) == registered(specs),
        registered(specs) is Ok && admitted(registered(specs)->Ok_0, spec) is Err ==> registered(
            specs.push(spec),
        ) == Err::<Listing, RegistryErrorView>(
            admitted(registered(specs)->Ok_0, spec)->Err_0,
        ),
        registered(specs) is Ok && admitted(registered(specs)->Ok_0, spec) is Ok ==> registered(
            specs.push(spec),
        ) == Ok::<Listing, RegistryErrorView>(
            registered(specs)->Ok_0.insert(
                (spec.venue, spec.symbol),
                admitted(registered(specs)->Ok_0, spec)->Ok_0,
            ),
        ),
{
    assert(specs.push(spec).drop_last() =~= specs);
}

/// What is registered is listed as it was given, with the value of a tick on a lot filled in: a
/// billionth of the tick times the lot.
pub proof fn law_a_spec_is_listed_as_it_was_given(listing: Listing, spec: InstrumentSpecView)
    requires
        admitted(listing, spec) is Ok,
    ensures
        ({
            let given = admitted(listing, spec)->Ok_0;
            &&& given.instrument == spec.instrument
            &&& given.symbol == spec.symbol
            &&& given.venue == spec.venue
            &&& given.kind == spec.kind
            &&& given.tick_micro == spec.tick_micro
            &&& given.lot_qty_e9 == spec.lot_qty_e9
            &&& 1_000_000_000 * given.micro_per_tick_lot == spec.tick_micro * spec.lot_qty_e9
        }),
{
    let product = spec.tick_micro * spec.lot_qty_e9;
    assert(product / billion() * billion() == product);
}

/// A spec is refused for the first thing that is wrong with it, and for nothing else. Its tick and
/// lot are positive. The perpetual venue trades perpetuals on any grid; the prediction market
/// trades binaries in whole contracts, on a grid that divides the one-dollar payout into a
/// multiple of a hundred ticks. A tick on a lot fits, and is a whole number of micro-dollars. The
/// venue does not list the symbol yet, and the instrument is not listed on another grid.
pub proof fn law_a_spec_is_judged_in_order(listing: Listing, spec: InstrumentSpecView)
    ensures
        ({
            let outcome = admitted(listing, spec);
            let product = spec.tick_micro * spec.lot_qty_e9;
            let perpetual = spec.venue == Venue::Hl && spec.kind == Kind::Perp;
            let binary = spec.venue == Venue::Pm && spec.kind == Kind::Binary && spec.lot_qty_e9
                == 1_000_000_000 && 1_000_000int % spec.tick_micro == 0 && (1_000_000int
                / spec.tick_micro) % 100 == 0;
            let elsewhere = exists|key: (Venue, Seq<char>)| #[trigger]
                listing.contains_key(key) && listing[key].instrument == spec.instrument && (
                listing[key].kind != spec.kind || listing[key].tick_micro != spec.tick_micro
                    || listing[key].lot_qty_e9 != spec.lot_qty_e9
                    || listing[key].micro_per_tick_lot != product / 1_000_000_000);
            if spec.tick_micro <= 0 || spec.lot_qty_e9 <= 0 || !(perpetual || binary) {
                outcome == Err::<InstrumentSpecView, RegistryErrorView>(
                    RegistryErrorView::InvalidSpec(spec.symbol),
                )
            } else if product > i128::MAX {
                outcome == Err::<InstrumentSpecView, RegistryErrorView>(
                    RegistryErrorView::ArithmeticOverflow(spec.symbol),
                )
            } else if product % 1_000_000_000 != 0 {
                outcome == Err::<InstrumentSpecView, RegistryErrorView>(
                    RegistryErrorView::InvalidSpec(spec.symbol),
                )
            } else if listing.contains_key((spec.venue, spec.symbol)) {
                outcome == Err::<InstrumentSpecView, RegistryErrorView>(
                    RegistryErrorView::DuplicateSymbol(spec.symbol),
                )
            } else if elsewhere {
                outcome == Err::<InstrumentSpecView, RegistryErrorView>(
                    RegistryErrorView::InconsistentInstrument(spec.instrument),
                )
            } else {
                outcome is Ok
            }
        }),
{
    let product = spec.tick_micro * spec.lot_qty_e9;
    let elsewhere = exists|key: (Venue, Seq<char>)| #[trigger]
        listing.contains_key(key) && listing[key].instrument == spec.instrument && (
        listing[key].kind != spec.kind || listing[key].tick_micro != spec.tick_micro
            || listing[key].lot_qty_e9 != spec.lot_qty_e9 || listing[key].micro_per_tick_lot
            != product / 1_000_000_000);
    if elsewhere {
        let key = choose|key: (Venue, Seq<char>)| #[trigger]
            listing.contains_key(key) && listing[key].instrument == spec.instrument && (
            listing[key].kind != spec.kind || listing[key].tick_micro != spec.tick_micro
                || listing[key].lot_qty_e9 != spec.lot_qty_e9 || listing[key].micro_per_tick_lot
                != product / 1_000_000_000);
        assert(listing.contains_key(key));
        assert(conflicts(listing, derived(spec)));
    }
    if conflicts(listing, derived(spec)) {
        let key = choose|key: (Venue, Seq<char>)| #[trigger]
            listing.contains_key(key) && listing[key].instrument == spec.instrument
                && !same_economics(listing[key], derived(spec));
        assert(listing.contains_key(key));
        assert(elsewhere);
    }
}

/// The standard instruments are four, each under its own name: two perpetuals, in half dollars on
/// ten-thousandths and in twentieths on thousandths, and two binaries, in hundredths of a cent on
/// whole contracts.
pub proof fn law_standard_instruments(venue: Venue, symbol: Seq<char>)
    ensures
        ({
            let listing = standard_listing();
            let spec = listing[(venue, symbol)];
            let btc = venue == Venue::Hl && symbol == "BTC-PERP"@;
            let eth = venue == Venue::Hl && symbol == "ETH-PERP"@;
            let market = venue == Venue::Pm && (symbol == "FED-CUT-SEP"@ || symbol
                == "CPI-ABOVE-AUG"@);
            &&& listing.contains_key((venue, symbol)) <==> btc || eth || market
            &&& btc || eth || market ==> spec.instrument == symbol && spec.symbol == symbol
                && spec.venue == venue
            &&& btc ==> spec.kind == Kind::Perp && spec.tick_micro == 500_000 && spec.lot_qty_e9
                == 100_000 && spec.micro_per_tick_lot == 50
            &&& eth ==> spec.kind == Kind::Perp && spec.tick_micro == 50_000 && spec.lot_qty_e9
                == 1_000_000 && spec.micro_per_tick_lot == 50
            &&& market ==> spec.kind == Kind::Binary && spec.tick_micro == 100
                && spec.lot_qty_e9 == 1_000_000_000 && spec.micro_per_tick_lot == 100
        }),
{
    lemma_standard_names_differ();
}

fn spec_as(
    name: &str,
    venue: Venue,
    kind: Kind,
    tick_micro: i128,
    lot_qty_e9: i128,
) -> (spec: InstrumentSpec)
    ensures
        spec@ == listed_as(name@, venue, kind, tick_micro as int, lot_qty_e9 as int, 0),
{
    InstrumentSpec {
        instrument: InstrumentId(name.to_string()),
        symbol: name.to_string(),
        venue,
        kind,
        tick_micro,
        lot_qty_e9,
        micro_per_tick_lot: 0,
    }
}

impl Registry {
    /// The registry of the standard instruments.
    pub fn standard() -> (registry: Registry)
        ensures
            registry@ == standard_listing(),
            sound(registry@),
    {
        let specs: Vec<InstrumentSpec> = vec![
            spec_as("BTC-PERP", Venue::Hl, Kind::Perp, 500_000, 100_000),
            spec_as("ETH-PERP", Venue::Hl, Kind::Perp, 50_000, 1_000_000),
            spec_as("FED-CUT-SEP", Venue::Pm, Kind::Binary, 100, 1_000_000_000),
            spec_as("CPI-ABOVE-AUG", Venue::Pm, Kind::Binary, 100, 1_000_000_000),
        ];
        proof {
            let views = spec_views(specs@);
            let one = views.take(1);
            let two = views.take(2);
            let three = views.take(3);
            lemma_standard_names_differ();
            assert(views.drop_last() =~= three);
            assert(three.drop_last() =~= two);
            assert(two.drop_last() =~= one);
            assert(one.drop_last() =~= Seq::<InstrumentSpecView>::empty());
            reveal_with_fuel(registered, 2);
            assert(registered(one) is Ok);
            assert(registered(two) is Ok);
            assert(registered(three) is Ok);
            assert(registered(views) is Ok);
            assert(registered(views)->Ok_0 =~= standard_listing());
        }
        Registry::from_specs(specs)
    }
}

/// Whether `grids` has exactly the instruments of `listing`, each on its grid.
spec fn grids_agree(listing: Listing, grids: Map<Seq<char>, InstrumentSpec>) -> bool {
    &&& forall|key: (Venue, Seq<char>)| #[trigger]
        listing.contains_key(key) ==> grids.contains_key(listing[key].instrument)
            && same_economics(grids[listing[key].instrument]@, listing[key])
    &&& forall|instrument: Seq<char>| #[trigger]
        grids.contains_key(instrument) ==> exists|key: (Venue, Seq<char>)| #[trigger]
            listing.contains_key(key) && listing[key].instrument == instrument
}

/// A refused prefix refuses the whole sequence, for the same reason.
proof fn lemma_refusal_stands(specs: Seq<InstrumentSpecView>, n: int)
    requires
        0 <= n <= specs.len(),
        registered(specs.take(n)) is Err,
    ensures
        registered(specs) == registered(specs.take(n)),
    decreases specs.len() - n,
{
    if n == specs.len() {
        assert(specs.take(n) =~= specs);
    } else {
        assert(specs.take(n + 1).drop_last() =~= specs.take(n));
        lemma_refusal_stands(specs, n + 1);
    }
}

impl InstrumentSource for Registry {
    open spec fn listed(&self, venue: Venue, symbol: Seq<char>) -> Option<InstrumentSpecView> {
        if self@.contains_key((venue, symbol)) {
            Some(self@[(venue, symbol)])
        } else {
            None
        }
    }

    fn lookup(&self, venue: Venue, symbol: &str) -> (found: Option<&InstrumentSpec>) {
        match venue {
            Venue::Hl => self.hl.get(symbol),
            Venue::Pm => self.pm.get(symbol),
        }
    }
}

/// A registry finds what it lists, under the venue and the symbol, and nothing else.
pub proof fn law_a_registry_finds_what_it_lists(
    registry: Registry,
    venue: Venue,
    symbol: Seq<char>,
)
    ensures
        registry.listed(venue, symbol) is Some <==> registry@.contains_key((venue, symbol)),
        registry@.contains_key((venue, symbol)) ==> registry.listed(venue, symbol) == Some(
            registry@[(venue, symbol)],
        ),
{
}

} // verus!
