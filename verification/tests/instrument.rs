//! The registry: what it refuses, and what it lists.

use bitfrost::{
    InstrumentId, InstrumentSource, InstrumentSpec, Kind, Registry, RegistryError, Venue,
};

fn spec(symbol: &str, tick_micro: i128, lot_qty_e9: i128) -> InstrumentSpec {
    InstrumentSpec {
        instrument: InstrumentId(symbol.to_string()),
        symbol: symbol.to_string(),
        venue: Venue::Hl,
        kind: Kind::Perp,
        tick_micro,
        lot_qty_e9,
        micro_per_tick_lot: 0,
    }
}

fn pm_spec(symbol: &str, tick_micro: i128, lot_qty_e9: i128) -> InstrumentSpec {
    InstrumentSpec {
        instrument: InstrumentId(symbol.to_string()),
        symbol: symbol.to_string(),
        venue: Venue::Pm,
        kind: Kind::Binary,
        tick_micro,
        lot_qty_e9,
        micro_per_tick_lot: 0,
    }
}

#[test]
fn rejects_duplicate_symbols() {
    let result = Registry::try_from_specs(vec![
        spec("DUP", 1, 1_000_000_000),
        spec("DUP", 1, 1_000_000_000),
    ]);
    assert!(matches!(
        result,
        Err(RegistryError::DuplicateSymbol(symbol)) if symbol == "DUP"
    ));
}

#[test]
fn rejects_derived_value_overflow() {
    let result = Registry::try_from_specs(vec![spec("OVERFLOW", i128::MAX, 2)]);
    assert!(matches!(
        result,
        Err(RegistryError::ArithmeticOverflow(symbol)) if symbol == "OVERFLOW"
    ));
}

#[test]
fn rejects_fractional_micro_tick_lot_value() {
    let result = Registry::try_from_specs(vec![spec("FRACTIONAL", 1, 1)]);
    assert!(matches!(
        result,
        Err(RegistryError::InvalidSpec(symbol)) if symbol == "FRACTIONAL"
    ));
}

#[test]
fn rejects_venue_kind_mismatch() {
    let mut invalid = pm_spec("MISMATCH", 100, 1_000_000_000);
    invalid.kind = Kind::Perp;
    assert!(matches!(
        Registry::try_from_specs(vec![invalid]),
        Err(RegistryError::InvalidSpec(symbol)) if symbol == "MISMATCH"
    ));
}

#[test]
fn rejects_binary_tick_that_cannot_represent_probability_bounds() {
    assert!(matches!(
        Registry::try_from_specs(vec![pm_spec("BAD-TICK", 300, 1_000_000_000)]),
        Err(RegistryError::InvalidSpec(symbol)) if symbol == "BAD-TICK"
    ));
}

#[test]
fn rejects_binary_lot_other_than_one_contract() {
    assert!(matches!(
        Registry::try_from_specs(vec![pm_spec("BAD-LOT", 100, 2_000_000_000)]),
        Err(RegistryError::InvalidSpec(symbol)) if symbol == "BAD-LOT"
    ));
}

#[test]
fn resolves_same_raw_symbol_by_venue() {
    let mut hl = spec("SHARED", 500_000, 100_000);
    hl.instrument = InstrumentId("SHARED-PERP".to_string());
    let mut pm = pm_spec("SHARED", 100, 1_000_000_000);
    pm.instrument = InstrumentId("SHARED-BINARY".to_string());
    let registry = Registry::try_from_specs(vec![hl, pm]).unwrap();

    assert_eq!(
        registry.lookup(Venue::Hl, "SHARED").unwrap().instrument,
        InstrumentId("SHARED-PERP".to_string())
    );
    assert_eq!(
        registry.lookup(Venue::Pm, "SHARED").unwrap().instrument,
        InstrumentId("SHARED-BINARY".to_string())
    );
}
