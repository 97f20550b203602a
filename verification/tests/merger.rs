use trade_data_processor::data_merger::DataMerger;
use trade_data_processor::date::CivilDate;
use trade_data_processor::json::{DataRow, JsonValue};
use trade_data_processor::mark_price_merger::MarkPriceMerger;

#[test]
fn it_works() {
    let result = trade_data_processor::add(2, 2);
    assert_eq!(result, 4);
}

#[test]
fn test_extract_timestamp_seconds() {
    let mut row = DataRow::new();
    row.insert("E".to_string(), JsonValue::Int(1762411870001));

    let timestamp = DataMerger::extract_timestamp_seconds(&row);
    assert_eq!(timestamp, Some(1762411870));
}

#[test]
fn data_merger_test_add_and_deduplicate() {
    let date = CivilDate::new(2025, 11, 6).unwrap();
    let mut merger = DataMerger::new(date);

    let jsonl1 = r#"{"E":1762411870001,"s":"BTCUSDT","p":103308.50797101}
{"E":1762411871001,"s":"BTCUSDT","p":103309.50797101}"#;

    let jsonl2 = r#"{"E":1762411870001,"s":"BTCUSDT","p":999999.99}
{"E":1762411872001,"s":"BTCUSDT","p":103310.50797101}"#;

    merger.add_jsonl_data(jsonl1, "source1").unwrap();
    assert_eq!(merger.len(), 2);

    merger.add_jsonl_data(jsonl2, "source2").unwrap();
    // Three unique seconds; the duplicate from source2 is skipped.
    assert_eq!(merger.len(), 3);

    // The first second kept the source1 record.
    let rows = merger.get_sorted_rows();
    let first_row = &rows[0];
    match first_row.get("p") {
        Some(JsonValue::Num(s)) => assert_eq!(s.as_str(), "103308.50797101"),
        other => panic!("unexpected price value: {:?}", other.is_some()),
    }
}

#[test]
fn test_extract_dedup_key() {
    let mut row = DataRow::new();
    row.insert("event_time".to_string(), JsonValue::Int(1762411870001));

    let dedup_key = MarkPriceMerger::extract_dedup_key(&row);
    assert_eq!(dedup_key, Some(1762411870));
}

#[test]
fn test_extract_dedup_key_with_short_name() {
    let mut row = DataRow::new();
    row.insert("E".to_string(), JsonValue::Int(1762411870001));

    let dedup_key = MarkPriceMerger::extract_dedup_key(&row);
    assert_eq!(dedup_key, Some(1762411870));
}

#[test]
fn test_valid_mark_price_row() {
    let mut row = DataRow::new();
    row.insert("event_time".to_string(), JsonValue::Int(1762411870001));
    row.insert("mark_price".to_string(), JsonValue::Num("103308.50797101".to_string()));
    row.insert("funding_rate".to_string(), JsonValue::Num("0.0001".to_string()));

    assert!(MarkPriceMerger::is_valid_mark_price_row(&row));
}

#[test]
fn test_valid_mark_price_row_with_short_names() {
    // `p` is the short name the validation accepts for the mark price.
    let mut row = DataRow::new();
    row.insert("E".to_string(), JsonValue::Int(1762411870001));
    row.insert("p".to_string(), JsonValue::Num("103308.50797101".to_string()));
    row.insert("r".to_string(), JsonValue::Num("0.0001".to_string()));

    assert!(MarkPriceMerger::is_valid_mark_price_row(&row));
}

#[test]
fn test_invalid_mark_price_row_missing_price() {
    let mut row = DataRow::new();
    row.insert("event_time".to_string(), JsonValue::Int(1762411870001));
    row.insert("funding_rate".to_string(), JsonValue::Num("0.0001".to_string()));

    assert!(!MarkPriceMerger::is_valid_mark_price_row(&row));
}

#[test]
fn mark_price_merger_test_add_and_deduplicate() {
    let date = CivilDate::new(2025, 11, 6).unwrap();
    let mut merger = MarkPriceMerger::new(date);

    let jsonl1 = r#"{"E":1762411870001,"s":"BTCUSDT","p":"103308.50797101","r":"0.0001"}
{"E":1762411871001,"s":"BTCUSDT","p":"103309.50797101","r":"0.0001"}"#;

    let jsonl2 = r#"{"E":1762411870001,"s":"BTCUSDT","p":"999999.99","r":"0.0001"}
{"E":1762411872001,"s":"BTCUSDT","p":"103310.50797101","r":"0.0001"}"#;

    merger.add_jsonl_data(jsonl1, "source1").unwrap();
    assert_eq!(merger.len_for_symbol("BTCUSDT"), 2);

    merger.add_jsonl_data(jsonl2, "source2").unwrap();
    // Three unique seconds; the duplicate at 1762411870 from source2 is skipped.
    assert_eq!(merger.len_for_symbol("BTCUSDT"), 3);

    // The kept record still carries the source1 price.
    let rows = merger.get_sorted_rows_for_symbol("BTCUSDT").unwrap();
    let first_row = &rows[0];
    match first_row.get("mark_price") {
        Some(JsonValue::Str(s)) => assert_eq!(s.as_str(), "103308.50797101"),
        other => panic!("unexpected price value: {:?}", other.is_some()),
    }

    // event_time is preserved in its original form.
    match first_row.get("event_time") {
        Some(JsonValue::Int(v)) => assert_eq!(*v, 1762411870001),
        Some(JsonValue::UInt(v)) => assert_eq!(*v, 1762411870001),
        _ => panic!("missing event_time"),
    }
}

#[test]
fn test_multiple_symbols() {
    let date = CivilDate::new(2025, 11, 6).unwrap();
    let mut merger = MarkPriceMerger::new(date);

    let jsonl = r#"{"E":1762411870001,"s":"BTCUSDT","p":"103308.50797101","r":"0.0001"}
{"E":1762411870001,"s":"ETHUSDT","p":"3377.55407203","r":"0.00005065"}
{"E":1762411871001,"s":"BTCUSDT","p":"103309.50797101","r":"0.0001"}"#;

    merger.add_jsonl_data(jsonl, "source1").unwrap();

    assert_eq!(merger.symbol_count(), 2);
    assert_eq!(merger.len_for_symbol("BTCUSDT"), 2);
    assert_eq!(merger.len_for_symbol("ETHUSDT"), 1);

    let symbols = merger.get_symbols();
    assert!(symbols.iter().any(|s| s == "BTCUSDT"));
    assert!(symbols.iter().any(|s| s == "ETHUSDT"));
}

#[test]
fn test_field_name_normalization() {
    let mut row = DataRow::new();
    row.insert("e".to_string(), JsonValue::Str("markPriceUpdate".to_string()));
    row.insert("E".to_string(), JsonValue::Int(1762411870001));
    row.insert("s".to_string(), JsonValue::Str("BTCUSDT".to_string()));
    row.insert("p".to_string(), JsonValue::Str("103308.50797101".to_string()));
    row.insert("i".to_string(), JsonValue::Str("11784.62659091".to_string()));
    row.insert("P".to_string(), JsonValue::Str("11784.25641265".to_string()));
    row.insert("r".to_string(), JsonValue::Str("0.00030000".to_string()));
    row.insert("T".to_string(), JsonValue::Int(1562306400000));

    MarkPriceMerger::normalize_field_names(&mut row);

    // Short names were replaced with full names.
    assert!(row.contains_key("event_type"));
    assert!(row.contains_key("event_time"));
    assert!(row.contains_key("symbol"));
    assert!(row.contains_key("mark_price"));
    assert!(row.contains_key("index_price"));
    assert!(row.contains_key("estimated_settle_price"));
    assert!(row.contains_key("funding_rate"));
    assert!(row.contains_key("next_funding_time"));

    // Short names were removed.
    assert!(!row.contains_key("e"));
    assert!(!row.contains_key("E"));
    assert!(!row.contains_key("s"));
    assert!(!row.contains_key("p"));
    assert!(!row.contains_key("i"));
    assert!(!row.contains_key("P"));
    assert!(!row.contains_key("r"));
    assert!(!row.contains_key("T"));
}

#[test]
fn generic_fill_preserves_event_field() {
    // The generic merger keeps the raw `E` bit-for-bit and attaches a
    // separate `timestamp`; filled seconds copy the donor's `E` and `T`
    // and carry only their own `timestamp`.
    let date = CivilDate::new(2025, 11, 6).unwrap();
    let (day_start, _) = date.day_bounds();
    let t = day_start + 10;
    let mut merger = DataMerger::new(date);
    let line = format!("{{\"E\":{}123,\"T\":{}999,\"v\":\"x\"}}", t, t);
    merger.add_jsonl_data(&line, "source1").unwrap();
    merger.apply_forward_fill().unwrap();
    assert_eq!(merger.len(), 86400);
    let rows = merger.get_sorted_rows();
    // The ingested row keeps its raw event time and gains a timestamp.
    match rows[10].get("E") {
        Some(JsonValue::UInt(v)) => assert_eq!(*v as i64, t * 1000 + 123),
        _ => panic!("missing E"),
    }
    match rows[10].get("timestamp") {
        Some(JsonValue::Int(v)) => assert_eq!(*v, t * 1000),
        _ => panic!("missing timestamp"),
    }
    match rows[10].get("T") {
        Some(JsonValue::UInt(v)) => assert_eq!(*v as i64, t * 1000 + 999),
        _ => panic!("missing T"),
    }
    // A filled row copies the donor's E and T and stamps its own second.
    match rows[0].get("E") {
        Some(JsonValue::UInt(v)) => assert_eq!(*v as i64, t * 1000 + 123),
        _ => panic!("missing E"),
    }
    match rows[0].get("T") {
        Some(JsonValue::UInt(v)) => assert_eq!(*v as i64, t * 1000 + 999),
        _ => panic!("missing T"),
    }
    match rows[0].get("timestamp") {
        Some(JsonValue::Int(v)) => assert_eq!(*v, day_start * 1000),
        _ => panic!("missing timestamp"),
    }
    match rows[86399].get("timestamp") {
        Some(JsonValue::Int(v)) => assert_eq!(*v, (day_start + 86399) * 1000),
        _ => panic!("missing timestamp"),
    }
}
