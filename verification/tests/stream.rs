//! Feeds line by line.

use bitfrost::stream::{ndjson_lines, raw_line};
use bitfrost::{BoundaryEvent, HlEvent, PmEvent, RawEvent, RawLine, Venue, WirePrice};
use serde_json::Value;

fn wire(price: f64) -> WirePrice {
    WirePrice { bits: price.to_bits(), text: price.to_string() }
}

fn hl_event(ts: u64) -> HlEvent {
    HlEvent {
        seq: 1,
        event_id: "hl".to_string(),
        ts,
        account: "acct".to_string(),
        symbol: "BTC-PERP".to_string(),
        side: "buy".to_string(),
        px: "1.0".to_string(),
        qty: "0.0001".to_string(),
        fee: "0.0".to_string(),
    }
}

fn pm_event(ts: u64) -> PmEvent {
    PmEvent {
        sequence: 1,
        id: "pm".to_string(),
        timestamp_ms: ts,
        user: "acct".to_string(),
        market: "FED-CUT-SEP".to_string(),
        outcome: "YES".to_string(),
        action: "BUY".to_string(),
        price: wire(0.5),
        size: 1,
        fee_bps: 0,
    }
}

fn text(value: &Value, field: &str) -> Result<String, String> {
    value[field].as_str().map(str::to_string).ok_or(format!("missing {field}"))
}

fn count(value: &Value, field: &str) -> Result<u64, String> {
    value[field].as_u64().ok_or(format!("missing {field}"))
}

fn parse_hl(line: &str) -> Result<HlEvent, String> {
    let value: Value = serde_json::from_str(line).map_err(|error| error.to_string())?;
    Ok(HlEvent {
        seq: count(&value, "seq")?,
        event_id: text(&value, "event_id")?,
        ts: count(&value, "ts")?,
        account: text(&value, "account")?,
        symbol: text(&value, "symbol")?,
        side: text(&value, "side")?,
        px: text(&value, "px")?,
        qty: text(&value, "qty")?,
        fee: text(&value, "fee")?,
    })
}

const HL_JSON: &str = "{\"seq\":1,\"event_id\":\"hl\",\"ts\":1,\"account\":\"acct\",\"symbol\":\"BTC-PERP\",\"side\":\"buy\",\"px\":\"1.0\",\"qty\":\"0.0001\",\"fee\":\"0.0\"}";

#[test]
fn reader_skips_blank_lines_and_captures_parse_failures() {
    let input = format!("\n{HL_JSON}\nnot-json\n\n");
    let lines: Vec<RawLine> = ndjson_lines(&input)
        .into_iter()
        .map(|line| {
            let parsed = parse_hl(&line);
            raw_line::<HlEvent>(line, parsed)
        })
        .collect();

    assert_eq!(lines.len(), 2);
    assert!(lines[0].parsed.is_ok());
    assert_eq!(lines[0].parsed, Ok(RawEvent::Hl(hl_event(1))));
    assert_eq!(lines[1].text, "not-json");
    assert!(lines[1].parsed.is_err());
}

#[test]
fn generic_reader_uses_boundary_event_venue_and_conversion() {
    let lines: Vec<RawLine> = ndjson_lines("{}")
        .into_iter()
        .map(|line| raw_line::<PmEvent>(line, Ok(pm_event(9))))
        .collect();

    assert_eq!(lines.len(), 1);
    assert_eq!(lines[0].venue, Venue::Pm);
    assert!(matches!(lines[0].parsed, Ok(RawEvent::Pm(_))));
}

#[test]
fn lines_are_split_as_std_splits_them() {
    for input in [
        "",
        "\n",
        "a",
        "a\n",
        "a\nb",
        "a\r\nb\r\n",
        "a\r\nb\r",
        "\r\na\n\r\n \t\nb\rc\n",
        "\u{2003}\n\u{a0}x\n\u{85}",
        "one\n\n\ntwo\n   \nthree",
    ] {
        let expected: Vec<String> = input
            .lines()
            .filter(|line| !line.trim().is_empty())
            .map(str::to_string)
            .collect();
        assert_eq!(ndjson_lines(input), expected, "{input:?}");
    }
}

#[test]
fn events_know_their_venue_number_and_name() {
    let hl = hl_event(1).into_raw();
    assert_eq!((hl.venue(), hl.seq(), hl.event_id()), (Venue::Hl, 1, "hl"));
    let pm = pm_event(1).into_raw();
    assert_eq!((pm.venue(), pm.seq(), pm.event_id()), (Venue::Pm, 1, "pm"));
    assert_eq!(HlEvent::VENUE, Venue::Hl);
    assert_eq!(PmEvent::VENUE, Venue::Pm);
}

#[test]
fn prices_compare_as_numbers() {
    let mut a = pm_event(1);
    let mut b = pm_event(1);
    assert_eq!(a, b);
    a.price = wire(0.0);
    b.price = wire(-0.0);
    assert_eq!(a, b);
    a.price = wire(f64::NAN);
    b.price = wire(f64::NAN);
    assert_ne!(a, b);
    b.price = wire(0.25);
    assert_ne!(a, b);
}

#[test]
fn lines_compare_by_venue_text_and_event() {
    let line = raw_line::<HlEvent>("x".to_string(), Ok(hl_event(1)));
    assert_eq!(line, line.clone());
    assert_ne!(line, raw_line::<HlEvent>("x".to_string(), Ok(hl_event(2))));
    assert_ne!(line, raw_line::<HlEvent>("x".to_string(), Err("bad".to_string())));
    assert_ne!(line, raw_line::<HlEvent>("y".to_string(), Ok(hl_event(1))));
}
