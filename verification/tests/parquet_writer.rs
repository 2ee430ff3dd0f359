//! The staging files.

use arrow::array::{
    make_array, Array, ArrayData, BooleanArray, Int32Array, Int64Array, StringArray, TimestampMicrosecondArray,
    TimestampMillisecondArray,
};
use arrow::datatypes::{DataType, TimeUnit};
use arrow::record_batch::RecordBatch;
use parquet::arrow::arrow_reader::ParquetRecordBatchReaderBuilder;
use parquet::basic::Compression;
use pulse_ingestor::calendar::UtcTime;
use pulse_ingestor::envelope::{Envelope, ParsedRecord, RecordBody, RecordMeta};
use pulse_ingestor::parquet_writer::{
    batch_fits, offset_to_i64, schema, to_record_batch, write_and_read_back, write_batch, TextSizes,
};

fn parsed(offset: u64, event_id: &str) -> ParsedRecord {
    ParsedRecord {
        meta: RecordMeta {
            topic: "ingestion-events".to_owned(),
            partition: 2,
            offset,
            timestamp_ms: Some(1_760_000_000_000),
        },
        body: RecordBody::Parsed(Box::new(Envelope {
            event_id: event_id.to_owned(),
            gateway_id: "gw-1".to_owned(),
            received_at: "2026-09-14T10:00:00Z".to_owned(),
            retry_count: 1,
            stream_name: Some("ingestion-events".to_owned()),
            event_header: Some(r#"{"sub":"u1"}"#.to_owned()),
            payload: r#"{"kind":"click"}"#.to_owned(),
        })),
    }
}

fn malformed(offset: u64) -> ParsedRecord {
    ParsedRecord {
        meta: RecordMeta {
            topic: "ingestion-events".to_owned(),
            partition: 2,
            offset,
            timestamp_ms: None,
        },
        body: RecordBody::Malformed {
            reason: "expected value at line 1".to_owned(),
        },
    }
}

// 2026-09-14T12:00:00Z
fn now() -> UtcTime {
    UtcTime::from_micros(1_789_387_200_000_000).unwrap()
}

/// The file that the records become, read back.
fn read_back(records: &[ParsedRecord]) -> RecordBatch {
    assert!(to_record_batch(records, now()).is_ok());
    let bytes = write_batch(records, now()).unwrap();
    let mut reader = ParquetRecordBatchReaderBuilder::try_new(bytes::Bytes::from(bytes))
        .expect("should be a valid parquet file")
        .build()
        .expect("should build a reader");
    let batch = reader.next().expect("one batch").expect("should decode");
    assert!(reader.next().is_none());
    batch
}

fn strings<'a>(batch: &'a RecordBatch, column: &str) -> &'a StringArray {
    batch
        .column_by_name(column)
        .unwrap()
        .as_any()
        .downcast_ref::<StringArray>()
        .unwrap()
}

#[test]
fn writes_a_readable_parquet_file() {
    let bytes = write_batch(&[parsed(0, "a"), parsed(1, "b")], now()).unwrap();
    // Parquet's magic number, both ends. Cheap proof we produced a real
    // file rather than a buffer that happens to be non-empty.
    assert_eq!(&bytes[..4], b"PAR1");
    assert_eq!(&bytes[bytes.len() - 4..], b"PAR1");
}

#[test]
fn schema_has_every_contract_column() {
    let s = schema();
    let names: Vec<&str> = s.fields().iter().map(|f| f.name().as_str()).collect();
    assert_eq!(
        names,
        vec![
            "event_id",
            "gateway_id",
            "received_at",
            "retry_count",
            "stream_name",
            "event_header",
            "payload",
            "kafka_topic",
            "kafka_partition",
            "kafka_offset",
            "kafka_timestamp",
            "ingested_at",
            "malformed",
            "malformed_reason",
        ]
    );
}

#[test]
fn every_column_has_the_type_of_the_contract() {
    let s = schema();
    let utc = |unit: TimeUnit| DataType::Timestamp(unit, Some("UTC".into()));
    let types: Vec<(DataType, bool)> = s
        .fields()
        .iter()
        .map(|f| (f.data_type().clone(), f.is_nullable()))
        .collect();
    assert_eq!(
        types,
        vec![
            (DataType::Utf8, true),
            (DataType::Utf8, true),
            (utc(TimeUnit::Microsecond), true),
            (DataType::Int32, true),
            (DataType::Utf8, true),
            (DataType::Utf8, true),
            (DataType::Utf8, true),
            (DataType::Utf8, false),
            (DataType::Int32, false),
            (DataType::Int64, false),
            (utc(TimeUnit::Millisecond), true),
            (utc(TimeUnit::Microsecond), false),
            (DataType::Boolean, false),
            (DataType::Utf8, true),
        ]
    );
}

#[test]
fn provenance_columns_are_non_nullable() {
    // A row with no traceable origin is worse than no row.
    let s = schema();
    for name in [
        "kafka_topic",
        "kafka_partition",
        "kafka_offset",
        "malformed",
    ] {
        let f = s.field_with_name(name).unwrap();
        assert!(!f.is_nullable(), "{name} must be non-nullable");
    }
}

#[test]
fn a_malformed_record_becomes_a_flagged_row_not_a_gap() {
    let batch = read_back(&[parsed(0, "a"), malformed(1), parsed(2, "c")]);
    assert_eq!(batch.num_rows(), 3, "the bad offset must still be a row");

    let flags = batch
        .column_by_name("malformed")
        .unwrap()
        .as_any()
        .downcast_ref::<BooleanArray>()
        .unwrap();
    assert!(!flags.value(0));
    assert!(flags.value(1));
    assert!(!flags.value(2));

    let offsets = batch
        .column_by_name("kafka_offset")
        .unwrap()
        .as_any()
        .downcast_ref::<Int64Array>()
        .unwrap();
    assert_eq!(offsets.value(1), 1, "provenance survives a parse failure");
}

#[test]
fn payload_and_header_are_json_text() {
    let batch = read_back(&[parsed(0, "a")]);
    assert_eq!(strings(&batch, "payload").value(0), r#"{"kind":"click"}"#);
    assert_eq!(strings(&batch, "event_header").value(0), r#"{"sub":"u1"}"#);
}

#[test]
fn an_unparseable_received_at_nulls_the_column_and_keeps_the_row() {
    let mut r = parsed(0, "a");
    if let RecordBody::Parsed(e) = &mut r.body {
        e.received_at = "not a timestamp".to_owned();
    }
    let batch = read_back(&[r]);
    assert_eq!(batch.num_rows(), 1);

    let ts = batch
        .column_by_name("received_at")
        .unwrap()
        .as_any()
        .downcast_ref::<TimestampMicrosecondArray>()
        .unwrap();
    assert!(ts.is_null(0));

    // ...and the payload is still there, which is the point.
    assert!(!strings(&batch, "payload").is_null(0));
}

#[test]
fn an_empty_batch_is_still_a_valid_file() {
    let bytes = write_batch(&[], now()).unwrap();
    assert_eq!(&bytes[..4], b"PAR1");
}

#[test]
fn offsets_above_i64_max_saturate_rather_than_going_negative() {
    assert_eq!(offset_to_i64(u64::MAX), i64::MAX);
    assert_eq!(offset_to_i64(42), 42);
}

#[test]
fn every_cell_of_a_row_is_what_the_record_holds() {
    let mut bare = parsed(u64::MAX, "b");
    if let RecordBody::Parsed(e) = &mut bare.body {
        e.stream_name = None;
        e.event_header = None;
        e.retry_count = -3;
    }
    let batch = read_back(&[parsed(7, "a"), bare, malformed(9)]);
    assert_eq!(batch.num_columns(), 14);
    assert_eq!(batch.schema().fields(), schema().fields());

    let texts = |column: &str| -> Vec<Option<String>> {
        let array = strings(&batch, column);
        (0..array.len())
            .map(|i| (!array.is_null(i)).then_some(array.value(i).to_owned()))
            .collect()
    };
    let some = |s: &str| Some(s.to_owned());
    assert_eq!(texts("event_id"), vec![some("a"), some("b"), None]);
    assert_eq!(texts("gateway_id"), vec![some("gw-1"), some("gw-1"), None]);
    assert_eq!(
        texts("stream_name"),
        vec![some("ingestion-events"), None, None]
    );
    assert_eq!(
        texts("event_header"),
        vec![some(r#"{"sub":"u1"}"#), None, None]
    );
    assert_eq!(
        texts("payload"),
        vec![
            some(r#"{"kind":"click"}"#),
            some(r#"{"kind":"click"}"#),
            None
        ]
    );
    assert_eq!(
        texts("kafka_topic"),
        vec![
            some("ingestion-events"),
            some("ingestion-events"),
            some("ingestion-events")
        ]
    );
    assert_eq!(
        texts("malformed_reason"),
        vec![None, None, some("expected value at line 1")]
    );

    let ints = |column: &str| -> Vec<Option<i32>> {
        batch
            .column_by_name(column)
            .unwrap()
            .as_any()
            .downcast_ref::<Int32Array>()
            .unwrap()
            .iter()
            .collect()
    };
    assert_eq!(ints("retry_count"), vec![Some(1), Some(-3), None]);
    assert_eq!(ints("kafka_partition"), vec![Some(2), Some(2), Some(2)]);

    let micros = |column: &str| -> Vec<Option<i64>> {
        batch
            .column_by_name(column)
            .unwrap()
            .as_any()
            .downcast_ref::<TimestampMicrosecondArray>()
            .unwrap()
            .iter()
            .collect()
    };
    let received = Some(1_789_380_000_000_000);
    let ingested = Some(1_789_387_200_000_000);
    assert_eq!(micros("received_at"), vec![received, received, None]);
    assert_eq!(micros("ingested_at"), vec![ingested, ingested, ingested]);

    let offsets: Vec<Option<i64>> = batch
        .column_by_name("kafka_offset")
        .unwrap()
        .as_any()
        .downcast_ref::<Int64Array>()
        .unwrap()
        .iter()
        .collect();
    assert_eq!(offsets, vec![Some(7), Some(i64::MAX), Some(9)]);

    let stamps: Vec<Option<i64>> = batch
        .column_by_name("kafka_timestamp")
        .unwrap()
        .as_any()
        .downcast_ref::<TimestampMillisecondArray>()
        .unwrap()
        .iter()
        .collect();
    assert_eq!(
        stamps,
        vec![Some(1_760_000_000_000), Some(1_760_000_000_000), None]
    );
}

#[test]
fn a_file_is_compressed_with_zstd() {
    let bytes = write_batch(&[parsed(0, "a")], now()).unwrap();
    let reader = ParquetRecordBatchReaderBuilder::try_new(bytes::Bytes::from(bytes)).unwrap();
    let column = reader.metadata().row_group(0).column(0);
    assert!(matches!(column.compression(), Compression::ZSTD(_)));
}

#[test]
fn the_same_rows_make_the_same_file() {
    let records = [parsed(0, "a"), malformed(1)];
    let a = write_batch(&records, now()).unwrap();
    let b = write_batch(&records.clone(), now()).unwrap();
    assert_eq!(a, b);
    let later = UtcTime::from_micros(1_789_387_200_000_001).unwrap();
    assert_ne!(a, write_batch(&records, later).unwrap());
}

#[test]
fn ordinary_rows_fit() {
    let sizes = TextSizes::new();
    assert!(sizes.after(&parsed(0, "a")).is_some());
    assert!(sizes.after(&malformed(1)).is_some());
    assert!(batch_fits(&[]));
    assert!(batch_fits(&[parsed(0, "a"), malformed(1)]));
}

#[test]
fn rows_that_outgrow_a_column_do_not_fit() {
    // Two gigabytes of text, one byte too many.
    let mut big = malformed(0);
    big.body = RecordBody::Malformed {
        reason: "x".repeat(1 << 20),
    };
    let mut sizes = TextSizes::new();
    for _ in 0..2_047 {
        sizes = sizes.after(&big).expect("still short of the limit");
    }
    let mut last = malformed(1);
    last.body = RecordBody::Malformed {
        reason: "x".repeat((1 << 20) - 1),
    };
    assert!(sizes.after(&last).is_some(), "exactly at the limit");
    last.body = RecordBody::Malformed {
        reason: "x".repeat(1 << 20),
    };
    assert!(sizes.after(&last).is_none(), "one byte past it");
}

/// One column of what was read, as the array it is.
fn as_array<T: Array + Clone + 'static>(columns: &[ArrayData], c: usize) -> T {
    make_array(columns[c].clone())
        .as_any()
        .downcast_ref::<T>()
        .unwrap()
        .clone()
}

fn texts(columns: &[ArrayData], c: usize) -> Vec<Option<String>> {
    as_array::<StringArray>(columns, c)
        .iter()
        .map(|t| t.map(str::to_owned))
        .collect()
}

#[test]
fn what_is_read_back_is_what_was_written() {
    let records = [parsed(5, "a"), malformed(6), parsed(7, "é\u{1F600}")];
    let (read_schema, columns) = write_and_read_back(&records, now()).unwrap();
    // The kinds, the time zones and the nullability come back as they were.
    assert_eq!(read_schema.fields(), schema().fields());
    assert_eq!(columns.len(), 14);

    let some = |t: &str| Some(t.to_owned());
    let envelope = |t: &str| vec![some(t), None, some(t)];
    assert_eq!(texts(&columns, 0), vec![some("a"), None, some("é\u{1F600}")]);
    assert_eq!(texts(&columns, 1), envelope("gw-1"));
    // 2026-09-14T10:00:00Z
    let received = Some(1_789_380_000_000_000);
    assert_eq!(
        as_array::<TimestampMicrosecondArray>(&columns, 2)
            .iter()
            .collect::<Vec<_>>(),
        vec![received, None, received]
    );
    assert_eq!(
        as_array::<Int32Array>(&columns, 3).iter().collect::<Vec<_>>(),
        vec![Some(1), None, Some(1)]
    );
    assert_eq!(texts(&columns, 4), envelope("ingestion-events"));
    assert_eq!(texts(&columns, 5), envelope(r#"{"sub":"u1"}"#));
    assert_eq!(texts(&columns, 6), envelope(r#"{"kind":"click"}"#));
    assert_eq!(texts(&columns, 7), vec![some("ingestion-events"); 3]);
    assert_eq!(as_array::<Int32Array>(&columns, 8).values().to_vec(), [2; 3]);
    assert_eq!(
        as_array::<Int64Array>(&columns, 9).values().to_vec(),
        [5, 6, 7]
    );
    let stamp = Some(1_760_000_000_000);
    assert_eq!(
        as_array::<TimestampMillisecondArray>(&columns, 10)
            .iter()
            .collect::<Vec<_>>(),
        vec![stamp, None, stamp]
    );
    assert_eq!(
        as_array::<TimestampMicrosecondArray>(&columns, 11)
            .values()
            .to_vec(),
        [1_789_387_200_000_000; 3]
    );
    assert_eq!(
        as_array::<BooleanArray>(&columns, 12)
            .iter()
            .collect::<Vec<_>>(),
        vec![Some(false), Some(true), Some(false)]
    );
    assert_eq!(
        texts(&columns, 13),
        vec![None, some("expected value at line 1"), None]
    );
}

#[test]
fn a_file_of_no_records_or_of_many_is_read_back_whole() {
    // More than the reader hands out at once.
    for n in [0_u64, 1, 2_500] {
        let records: Vec<ParsedRecord> = (0..n).map(|o| parsed(o, "many")).collect();
        let (read_schema, columns) = write_and_read_back(&records, now()).unwrap();
        assert_eq!(read_schema.fields(), schema().fields());
        assert_eq!(columns.len(), 14);
        assert!(columns.iter().all(|c| c.len() as u64 == n));
        let offsets: Vec<i64> = (0..n as i64).collect();
        assert_eq!(
            as_array::<Int64Array>(&columns, 9).values().to_vec(),
            offsets
        );
    }
}
