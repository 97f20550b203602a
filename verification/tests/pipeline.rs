use trade_data_processor::columnar::{
    CellValue, FilterCondition, FilterOperator, ParquetWriter, ParquetWriterConfig,
};
use trade_data_processor::compress::{decompress_if_needed, zstd_compress, zstd_decompress};
use trade_data_processor::config::plan_batches;
use trade_data_processor::date::CivilDate;
use trade_data_processor::hashing::{md5_hex, sha256_hex};
use trade_data_processor::json::{DataRow, JsonValue};
use trade_data_processor::mark_price_merger::MarkPriceMerger;
use trade_data_processor::proxy::{
    calculate_timeout, decide_upload, finish_status, validate_rel_path, BrokerAction,
    UploadRecord, UploadStatus,
};
use trade_data_processor::schema::{schemas_compatible, ColumnType};
use trade_data_processor::numtext::{is_float_literal, parse_i64, parse_u64};
use std::io::Write as _;
use trade_data_processor::sync::{
    needs_download, needs_upload, remote_key, remote_to_relative, should_exclude, FileMetadata,
    S3Provider, SyncOptions,
};

#[test]
fn dense_day_one_symbol() {
    // A single shard with records at t, t+5 and t+10 densifies to 86400
    // seconds; gaps carry the previous record, edges the first and last.
    let date = CivilDate::new(2025, 11, 6).unwrap();
    let (day_start, day_end) = date.day_bounds();
    assert_eq!(day_start, 1762387200);
    assert_eq!(day_end, 1762387200 + 86399);
    let t = day_start + 100;
    let jsonl = format!(
        "{{\"E\":{}001,\"s\":\"BTCUSDT\",\"p\":\"100\",\"r\":\"0.0001\"}}\n{{\"E\":{}001,\"s\":\"BTCUSDT\",\"p\":\"101\",\"r\":\"0.0001\"}}\n{{\"E\":{}001,\"s\":\"BTCUSDT\",\"p\":\"102\",\"r\":\"0.0001\"}}",
        t,
        t + 5,
        t + 10
    );
    let mut merger = MarkPriceMerger::new(date);
    merger.add_jsonl_data(&jsonl, "source1").unwrap();
    assert_eq!(merger.len_for_symbol("BTCUSDT"), 3);
    merger.apply_forward_fill().unwrap();
    assert_eq!(merger.len_for_symbol("BTCUSDT"), 86400);

    let rows = merger.get_sorted_rows_for_symbol("BTCUSDT").unwrap();
    assert_eq!(rows.len(), 86400);
    let price_of = |row: &DataRow| -> String {
        match row.get("mark_price") {
            Some(JsonValue::Str(s)) => s.clone(),
            _ => panic!("missing price"),
        }
    };
    let ts_of = |row: &DataRow| -> i64 {
        match row.get("timestamp") {
            Some(JsonValue::Int(v)) => *v,
            _ => panic!("missing timestamp"),
        }
    };
    // The three real records keep their prices.
    assert_eq!(price_of(&rows[100]), "100");
    assert_eq!(price_of(&rows[105]), "101");
    assert_eq!(price_of(&rows[110]), "102");
    // Gaps carry the previous second's record.
    assert_eq!(price_of(&rows[101]), "100");
    assert_eq!(price_of(&rows[104]), "100");
    assert_eq!(price_of(&rows[106]), "101");
    // The day's edges are back- and forward-filled.
    assert_eq!(price_of(&rows[0]), "100");
    assert_eq!(price_of(&rows[86399]), "102");
    // Every row's synthetic timestamp is its second, in milliseconds.
    assert_eq!(ts_of(&rows[0]), day_start * 1000);
    assert_eq!(ts_of(&rows[101]), (t + 1) * 1000);
    assert_eq!(ts_of(&rows[86399]), day_end * 1000);
    // Filled rows keep the donor's event time.
    match rows[0].get("event_time") {
        Some(JsonValue::UInt(v)) => assert_eq!(*v as i64, t * 1000 + 1),
        Some(JsonValue::Int(v)) => assert_eq!(*v, t * 1000 + 1),
        _ => panic!("missing event_time"),
    }
}

#[test]
fn dedup_across_two_sources() {
    let date = CivilDate::new(2025, 11, 6).unwrap();
    let mut merger = MarkPriceMerger::new(date);
    merger
        .add_jsonl_data(r#"{"E":1762411870001,"s":"X","p":"1","r":"0.1"}"#, "S1")
        .unwrap();
    merger
        .add_jsonl_data(r#"{"E":1762411870999,"s":"X","p":"2","r":"0.1"}"#, "S2")
        .unwrap();
    assert_eq!(merger.len_for_symbol("X"), 1);
    let rows = merger.get_sorted_rows_for_symbol("X").unwrap();
    match rows[0].get("mark_price") {
        Some(JsonValue::Str(s)) => assert_eq!(s.as_str(), "1"),
        _ => panic!("missing price"),
    }
    match rows[0].get("event_time") {
        Some(JsonValue::UInt(v)) => assert_eq!(*v, 1762411870001),
        Some(JsonValue::Int(v)) => assert_eq!(*v, 1762411870001),
        _ => panic!("missing event_time"),
    }
}

#[test]
fn mixed_symbols_fill_independently() {
    let date = CivilDate::new(2025, 11, 6).unwrap();
    let mut merger = MarkPriceMerger::new(date);
    let jsonl = r#"{"E":1762411870001,"s":"BTCUSDT","p":"1","r":"0.1"}
{"E":1762411870001,"s":"ETHUSDT","p":"2","r":"0.1"}
{"E":1762411875001,"s":"BTCUSDT","p":"3","r":"0.1"}"#;
    merger.add_jsonl_data(jsonl, "source1").unwrap();
    merger.apply_forward_fill().unwrap();
    assert_eq!(merger.symbol_count(), 2);
    assert_eq!(merger.len_for_symbol("BTCUSDT"), 86400);
    assert_eq!(merger.len_for_symbol("ETHUSDT"), 86400);
}

#[test]
fn compression_detection_round_trip() {
    let payload = br#"{"E":1762411870001,"s":"X","p":"1","r":"0.1"}"#.to_vec();
    let framed = zstd_compress(payload.as_slice(), 3).unwrap();
    assert_eq!(&framed[0..4], &[0x28, 0xb5, 0x2f, 0xfd]);
    let back = decompress_if_needed(framed).unwrap();
    assert_eq!(back, payload);
    // Unframed bytes pass through unchanged.
    let plain = decompress_if_needed(payload.clone()).unwrap();
    assert_eq!(plain, payload);
    // A direct decode also restores the bytes.
    let framed2 = zstd_compress(payload.as_slice(), 19).unwrap();
    assert_eq!(zstd_decompress(framed2.as_slice()).unwrap(), payload);
}

#[test]
fn timeout_formula() {
    assert_eq!(calculate_timeout(0), 10);
    assert_eq!(calculate_timeout(1048576), 10);
    assert_eq!(calculate_timeout(10 * 1048576), 20);
    assert_eq!(calculate_timeout(5 * 1048576 + 1), 11);
    assert_eq!(calculate_timeout(u64::MAX), 3600);
}

#[test]
fn test_provider_from_str() {
    assert_eq!(S3Provider::from_str("aws"), S3Provider::AwsS3);
    assert_eq!(S3Provider::from_str("s3"), S3Provider::AwsS3);
    assert_eq!(S3Provider::from_str("AWS-S3"), S3Provider::AwsS3);

    assert_eq!(S3Provider::from_str("b2"), S3Provider::BackblazeB2);
    assert_eq!(S3Provider::from_str("backblaze"), S3Provider::BackblazeB2);
    assert_eq!(S3Provider::from_str("Backblaze-B2"), S3Provider::BackblazeB2);

    assert_eq!(S3Provider::from_str("r2"), S3Provider::CloudflareR2);
    assert_eq!(S3Provider::from_str("cloudflare"), S3Provider::CloudflareR2);
    assert_eq!(S3Provider::from_str("Cloudflare-R2"), S3Provider::CloudflareR2);

    assert_eq!(S3Provider::from_str("minio"), S3Provider::Generic);
    assert_eq!(S3Provider::from_str("other"), S3Provider::Generic);
}

#[test]
fn path_traversal_rejected() {
    assert!(validate_rel_path("../secret").is_none());
    assert!(validate_rel_path("a/../b").is_none());
    assert!(validate_rel_path("./x").is_none());
    assert!(validate_rel_path("a\\.b").is_none());
    assert_eq!(validate_rel_path("ok/file.txt").unwrap(), "ok/file.txt");
    assert_eq!(validate_rel_path("/abs/file.txt").unwrap(), "abs/file.txt");
}

fn record_with(status: UploadStatus) -> UploadRecord {
    UploadRecord {
        md5: "d41d8cd98f00b204e9800998ecf8427e".to_string(),
        s3_key: "d41d8cd98f00b204e9800998ecf8427e.zstd".to_string(),
        original_path: "a.parquet".to_string(),
        compressed: true,
        uploaded_at: 0,
        status,
        file_size: 1,
        timeout_seconds: 10,
    }
}

#[test]
fn upload_lifecycle_decisions() {
    // No record yet: start an upload and report pending.
    assert_eq!(decide_upload(false, None, false), BrokerAction::StartUpload);
    // Completed and still present remotely: hand out a presigned URL.
    let done = record_with(UploadStatus::Completed);
    assert_eq!(decide_upload(false, Some(&done), true), BrokerAction::Presign);
    // Completed but the object vanished: upload again.
    assert_eq!(decide_upload(false, Some(&done), false), BrokerAction::StartUpload);
    // update=true always re-uploads.
    assert_eq!(decide_upload(true, Some(&done), true), BrokerAction::StartUpload);
    // An upload already under way is joined.
    let running = record_with(UploadStatus::Uploading);
    assert_eq!(decide_upload(false, Some(&running), false), BrokerAction::ReportStatus);
    let pending = record_with(UploadStatus::Pending);
    assert_eq!(decide_upload(false, Some(&pending), false), BrokerAction::ReportStatus);
    // A failed upload retries.
    let failed = record_with(UploadStatus::Failed);
    assert_eq!(decide_upload(false, Some(&failed), false), BrokerAction::StartUpload);
    // The task's final states.
    assert_eq!(finish_status(true), UploadStatus::Completed);
    assert_eq!(finish_status(false), UploadStatus::Failed);
}

#[test]
fn exclude_patterns() {
    let opts = SyncOptions::default();
    assert!(should_exclude(".git/HEAD", &opts.exclude_patterns));
    assert!(should_exclude("scratch.tmp", &opts.exclude_patterns));
    assert!(should_exclude("notes.swp", &opts.exclude_patterns));
    assert!(!should_exclude("a.txt", &opts.exclude_patterns));
    assert!(!should_exclude("b.parquet", &opts.exclude_patterns));

    let pats = vec!["build*".to_string(), "*mid*".to_string()];
    assert!(should_exclude("build/out.o", &pats));
    assert!(should_exclude("a-mid-b", &pats));
    assert!(!should_exclude("src/lib.c", &pats));
}

#[test]
fn sync_freshness_decisions() {
    let meta = FileMetadata {
        path: "a.txt".to_string(),
        size: 5,
        modified_time: 0,
        hash: "h".to_string(),
        etag: None,
        last_sync: 0,
    };
    // Unchanged file, unforced run: skip — the second pass uploads nothing.
    assert!(!needs_upload(false, Some(&meta), "h", 5));
    assert!(needs_upload(false, Some(&meta), "other", 5));
    assert!(needs_upload(false, Some(&meta), "h", 6));
    assert!(needs_upload(false, None, "h", 5));
    assert!(needs_upload(true, Some(&meta), "h", 5));

    assert!(needs_download(false, false, false, false));
    assert!(!needs_download(false, true, false, false));
    assert!(needs_download(false, true, true, false));
    assert!(needs_download(true, true, false, false));
}

#[test]
fn remote_keys_and_relative_paths() {
    assert_eq!(remote_key("pre/", "a.txt", true), "pre/a.txt.zst");
    assert_eq!(remote_key("pre", "a.txt", false), "pre/a.txt");
    assert_eq!(remote_to_relative("pre/a.txt.zst", "pre", true).unwrap(), "a.txt");
    // In compression mode a non-.zst object is skipped.
    assert!(remote_to_relative("pre/a.txt", "pre", true).is_none());
    assert_eq!(remote_to_relative("pre/b.txt", "pre", false).unwrap(), "b.txt");
    // Keys outside the prefix are skipped.
    assert!(remote_to_relative("other/a.txt", "pre", false).is_none());
}

fn mp_row(sym: &str, ts: i64, price: &str) -> DataRow {
    let mut row = DataRow::new();
    row.insert("symbol".to_string(), JsonValue::Str(sym.to_string()));
    row.insert("timestamp".to_string(), JsonValue::UInt(ts as u64));
    row.insert("mark_price".to_string(), JsonValue::Str(price.to_string()));
    row
}

#[test]
fn schema_fixpoint_across_batches() {
    let date = CivilDate::new(2025, 11, 6).unwrap();
    let config = ParquetWriterConfig {
        path: "/out".to_string(),
        name: "mark-price-BTCUSDT".to_string(),
        batch_size: 2,
        has_batch_config: true,
        filter: Vec::new(),
        date: Some(date),
        use_temp_dir: false,
    };
    let mut writer = ParquetWriter::new(config);
    let batch1 = vec![mp_row("BTCUSDT", 1000, "1.5"), mp_row("BTCUSDT", 2000, "2.5")];
    let emits1 = writer.write_rows(batch1, date).unwrap();
    assert_eq!(emits1.len(), 1);
    // A second batch with an extra field keeps the first schema.
    let mut extra = mp_row("BTCUSDT", 3000, "3.5");
    extra.insert("surprise".to_string(), JsonValue::Bool(true));
    let emits2 = writer.write_rows(vec![extra, mp_row("BTCUSDT", 4000, "4.5")], date).unwrap();
    assert_eq!(emits2.len(), 1);
    assert!(schemas_compatible(&emits1[0].schema, &emits2[0].schema));
    // Columns are sorted by name: mark_price, symbol, timestamp.
    let s = &emits1[0].schema;
    assert_eq!(s.len(), 3);
    assert_eq!(s.name_at(0).as_str(), "mark_price");
    assert_eq!(s.type_at(0), ColumnType::Float64);
    assert_eq!(s.name_at(1).as_str(), "symbol");
    assert_eq!(s.type_at(1), ColumnType::Utf8);
    assert_eq!(s.name_at(2).as_str(), "timestamp");
    assert_eq!(s.type_at(2), ColumnType::UInt64);
    // File names carry the cleaned name, the sequence and the date.
    assert_eq!(emits1[0].path, "/out/2025/11/06/BTCUSDT_000001_2025-11-06.parquet");
    assert_eq!(emits2[0].path, "/out/2025/11/06/BTCUSDT_000002_2025-11-06.parquet");
    // Cells are rendered against the fixed schema.
    match &emits1[0].columns[2][0] {
        CellValue::U64(v) => assert_eq!(*v, 1000),
        _ => panic!("unexpected cell"),
    }
}

#[test]
fn single_file_name_has_no_sequence() {
    let date = CivilDate::new(2025, 11, 6).unwrap();
    let config = ParquetWriterConfig {
        path: "/out".to_string(),
        name: "mark-price-ETHUSDT".to_string(),
        batch_size: 10,
        has_batch_config: false,
        filter: Vec::new(),
        date: Some(date),
        use_temp_dir: false,
    };
    let mut writer = ParquetWriter::new(config);
    writer.write_rows(vec![mp_row("ETHUSDT", 1000, "1")], date).unwrap();
    let emit = writer.flush_buffer().unwrap().unwrap();
    assert_eq!(emit.path, "/out/2025/11/06/ETHUSDT_2025-11-06.parquet");
}

#[test]
fn filters_keep_matching_rows() {
    let date = CivilDate::new(2025, 11, 6).unwrap();
    let config = ParquetWriterConfig {
        path: "/out".to_string(),
        name: "x".to_string(),
        batch_size: 100,
        has_batch_config: false,
        filter: vec![FilterCondition {
            field: "symbol".to_string(),
            operator: FilterOperator::Eq,
            value: JsonValue::Str("BTCUSDT".to_string()),
        }],
        date: Some(date),
        use_temp_dir: false,
    };
    let mut writer = ParquetWriter::new(config);
    writer
        .write_rows(vec![mp_row("BTCUSDT", 1000, "1"), mp_row("ETHUSDT", 2000, "2")], date)
        .unwrap();
    let emit = writer.flush_buffer().unwrap().unwrap();
    // Only the matching row was buffered.
    assert_eq!(emit.columns[0].len(), 1);
}

#[test]
fn batch_planning() {
    let plan = plan_batches(10, 4);
    assert_eq!(plan, vec![(0, 4), (4, 8), (8, 10)]);
    assert_eq!(plan_batches(0, 4), vec![]);
    assert_eq!(plan_batches(8, 4), vec![(0, 4), (4, 8)]);
}

#[test]
fn digests_render_to_hex() {
    assert_eq!(md5_hex(b""), "d41d8cd98f00b204e9800998ecf8427e");
    assert_eq!(
        sha256_hex(b""),
        "e3b0c44298fc1c149afbf4c8996fb92427ae41e4649b934ca495991b7852b855"
    );
    assert_eq!(md5_hex(b"hello"), "5d41402abc4b2a76b9719d911017c592");
}

#[test]
fn number_text_classification() {
    assert_eq!(parse_u64("42"), Some(42));
    assert_eq!(parse_u64("+42"), Some(42));
    assert_eq!(parse_u64("-1"), None);
    assert_eq!(parse_u64("18446744073709551615"), Some(u64::MAX));
    assert_eq!(parse_u64("18446744073709551616"), None);
    assert_eq!(parse_i64("-9223372036854775808"), Some(i64::MIN));
    assert_eq!(parse_i64("9223372036854775807"), Some(i64::MAX));
    assert_eq!(parse_i64("++5"), None);
    assert!(is_float_literal("1.5"));
    assert!(is_float_literal("-2.5e-7"));
    assert!(is_float_literal("inf"));
    assert!(is_float_literal("NaN"));
    assert!(!is_float_literal("1.2.3"));
    assert!(!is_float_literal("abc"));
}

#[test]
fn gzip_detection_round_trip() {
    let payload = br#"{"E":1762411870001,"s":"X","p":"1","r":"0.1"}"#.to_vec();
    let mut encoder =
        flate2::write::GzEncoder::new(Vec::new(), flate2::Compression::default());
    encoder.write_all(&payload).unwrap();
    let framed = encoder.finish().unwrap();
    assert_eq!(&framed[0..2], &[0x1f, 0x8b]);
    let back = decompress_if_needed(framed).unwrap();
    assert_eq!(back, payload);
}
