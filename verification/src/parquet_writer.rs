//! Turning a batch of consumed records into Parquet bytes.
//!
//! # The schema is a cross-repo contract
//!
//! The silver worker reads these files. Adding a nullable column is safe;
//! renaming, retyping or removing one is a breaking change for every reader of
//! the staging bucket, and staging objects are overwritten in place rather than
//! versioned. Treat [`schema`] the way you would a published API.
//!
//! # Payloads are strings, deliberately
//!
//! `payload` and `event_header` land as JSON *text*, not as Parquet structs.
//! The payload has no fixed schema across product teams; text keeps every file
//! identical in shape.
//!
//! # Malformed records are written, not dropped
//!
//! A record that failed to parse still becomes a row, flagged by `malformed`
//! with the decoder's complaint in `malformed_reason` and its Kafka coordinates
//! intact. A visible bad row is worth more than a silent gap.
//!
//! # `received_at` may be null
//!
//! If a value does not parse, the row is kept with a null timestamp rather than
//! discarded: the payload is still the valuable part.

use std::sync::Arc;

use arrow::array::{ArrayData, BooleanBuilder};
use arrow::datatypes::Schema;
use arrow::error::ArrowError;
use parquet::errors::ParquetError;
use vstd::prelude::*;

use crate::calendar::{parse_rfc3339, UtcTime};
use crate::columns::{
    append_bool, finish_bool_column, new_batch, new_bool_column, new_schema, read_parquet,
    write_parquet, ColumnBatch, ColumnKind, ColumnSpec, Int32Column, Int64Column, MicrosColumn,
    MillisColumn, TableSchema, TextColumn,
};
use crate::envelope::{Envelope, ParsedRecord, RecordBody};

verus! {

use crate::calendar::rfc3339_micros;
use vstd::utf8::encode_utf8;
use crate::columns::{
    array_cells, array_kind, batch_columns, batch_fields, bool_cells, cell_bytes, cells_of,
    columns_match, described_fields, framed_as_parquet, int32_cells, int64_cell, int64_cells,
    micros_cells, millis_cells, parquet_file, parquet_rows, plain_fields, schema_fields,
    text_bytes, text_cell, text_cells, text_fits, Cell, FieldView, Kind,
};

/// The zstd level that staging objects are compressed at. They are written once
/// and read a few times, so size on the wire matters more than the last few
/// percent of write speed.
pub const ZSTD_LEVEL: i32 = 3;

// ─── The schema ─────────────────────────────────────────────────────────────

/// A field of the staging schema.
pub open spec fn field(name: Seq<char>, kind: Kind, nullable: bool) -> FieldView {
    FieldView { name, kind, nullable }
}

/// The staging schema, column by column.
pub open spec fn staging_fields() -> Seq<FieldView> {
    seq![
        field("event_id"@, Kind::Utf8, true),
        field("gateway_id"@, Kind::Utf8, true),
        field("received_at"@, Kind::TimestampMicros("UTC"@), true),
        field("retry_count"@, Kind::Int32, true),
        field("stream_name"@, Kind::Utf8, true),
        field("event_header"@, Kind::Utf8, true),
        field("payload"@, Kind::Utf8, true),
        field("kafka_topic"@, Kind::Utf8, false),
        field("kafka_partition"@, Kind::Int32, false),
        field("kafka_offset"@, Kind::Int64, false),
        field("kafka_timestamp"@, Kind::TimestampMillis("UTC"@), true),
        field("ingested_at"@, Kind::TimestampMicros("UTC"@), false),
        field("malformed"@, Kind::Boolean, false),
        field("malformed_reason"@, Kind::Utf8, true),
    ]
}

/// A column to be.
fn column<'a>(name: &'a str, kind: ColumnKind<'a>, nullable: bool) -> (r: ColumnSpec<'a>)
    ensures
        r@ == field(name@, kind@, nullable),
{
    ColumnSpec { name, kind, nullable }
}

/// The staging schema. See the module docs before changing it.
#[must_use]
pub fn schema() -> (r: Arc<Schema>)
    ensures
        schema_fields(*r) == staging_fields(),
{
    staging_schema().into_arrow()
}

/// The staging schema, to make batches of.
fn staging_schema() -> (r: TableSchema)
    ensures
        r.fields() == staging_fields(),
{
    let columns: Vec<ColumnSpec> = vec![
        // --- envelope ---
        column("event_id", ColumnKind::Utf8, true),
        column("gateway_id", ColumnKind::Utf8, true),
        column("received_at", ColumnKind::TimestampMicros("UTC"), true),
        column("retry_count", ColumnKind::Int32, true),
        column("stream_name", ColumnKind::Utf8, true),
        column("event_header", ColumnKind::Utf8, true),
        column("payload", ColumnKind::Utf8, true),
        // --- provenance: which offset produced this row ---
        column("kafka_topic", ColumnKind::Utf8, false),
        column("kafka_partition", ColumnKind::Int32, false),
        column("kafka_offset", ColumnKind::Int64, false),
        column("kafka_timestamp", ColumnKind::TimestampMillis("UTC"), true),
        // --- write-time facts ---
        column("ingested_at", ColumnKind::TimestampMicros("UTC"), false),
        column("malformed", ColumnKind::Boolean, false),
        column("malformed_reason", ColumnKind::Utf8, true),
    ];
    assert(described_fields(columns@) =~= staging_fields());
    new_schema(&columns)
}

// ─── The rows ───────────────────────────────────────────────────────────────

/// A Kafka offset as a signed number: the largest one where it does not fit.
pub open spec fn saturated(offset: int) -> int {
    if offset <= i64::MAX {
        offset
    } else {
        i64::MAX as int
    }
}

/// The view of an optional text.
pub open spec fn viewed(text: Option<String>) -> Option<Seq<char>> {
    match text {
        Some(s) => Some(s@),
        None => None,
    }
}

/// The row that a record becomes: one cell for each column of the schema, where
/// `ingested_us` is when the row is written.
pub open spec fn staged_row(record: ParsedRecord, ingested_us: int) -> Seq<Cell> {
    let envelope = match record.body {
        RecordBody::Parsed(e) => seq![
            Cell::Text(e.event_id@),
            Cell::Text(e.gateway_id@),
            int64_cell(rfc3339_micros(e.received_at@)),
            Cell::Int(e.retry_count as int),
            text_cell(viewed(e.stream_name)),
            text_cell(viewed(e.event_header)),
            Cell::Text(e.payload@),
        ],
        RecordBody::Malformed { .. } => seq![
            Cell::Null,
            Cell::Null,
            Cell::Null,
            Cell::Null,
            Cell::Null,
            Cell::Null,
            Cell::Null,
        ],
    };
    let provenance = seq![
        Cell::Text(record.meta.topic@),
        Cell::Int(record.meta.partition as int),
        Cell::Int(saturated(record.meta.offset as int)),
        int64_cell(record.meta.timestamp_ms),
        Cell::Int(ingested_us),
    ];
    let verdict = match record.body {
        RecordBody::Parsed(_) => seq![Cell::Bool(false), Cell::Null],
        RecordBody::Malformed { reason } => seq![Cell::Bool(true), Cell::Text(reason@)],
    };
    envelope + provenance + verdict
}

/// Column number `c` of the rows that the records become.
pub open spec fn staged_column(
    records: Seq<ParsedRecord>,
    ingested_us: int,
    c: int,
) -> Seq<Cell> {
    records.map_values(|r: ParsedRecord| staged_row(r, ingested_us)[c])
}

/// The columns that the records become: one row for each record, in order.
pub open spec fn staged_columns(records: Seq<ParsedRecord>, ingested_us: int) -> Seq<Seq<Cell>> {
    Seq::new(14, |c: int| staged_column(records, ingested_us, c))
}

/// Whether every text column of the rows is short enough to be indexed with 32
/// bits.
pub open spec fn fits(records: Seq<ParsedRecord>) -> bool {
    forall|c: int|
        #![trigger staged_column(records, 0, c)]
        0 <= c < 14 ==> text_fits(staged_column(records, 0, c))
}

// ─── Sizes ──────────────────────────────────────────────────────────────────

/// How many bytes of text each text column takes.
pub struct TextSizes {
    event_id: u64,
    gateway_id: u64,
    stream_name: u64,
    event_header: u64,
    payload: u64,
    kafka_topic: u64,
    malformed_reason: u64,
}

/// The view of the sizes is the size of each column of the schema, by its
/// number; a column without text takes none.
impl View for TextSizes {
    type V = Seq<nat>;

    closed spec fn view(&self) -> Seq<nat> {
        seq![
            self.event_id as nat,
            self.gateway_id as nat,
            0,
            0,
            self.stream_name as nat,
            self.event_header as nat,
            self.payload as nat,
            self.kafka_topic as nat,
            0,
            0,
            0,
            0,
            0,
            self.malformed_reason as nat,
        ]
    }
}

/// The size of each column of the rows that the records become.
pub open spec fn sizes_of(records: Seq<ParsedRecord>) -> Seq<nat> {
    Seq::new(14, |c: int| text_bytes(staged_column(records, 0, c)))
}

/// The size of each column after one more record.
pub open spec fn grown(sizes: Seq<nat>, record: ParsedRecord) -> Seq<nat> {
    Seq::new(14, |c: int| sizes[c] + cell_bytes(staged_row(record, 0)[c]))
}

/// `size` plus the bytes of `text`, where that can still be indexed with 32 bits.
fn plus(size: u64, text: &str) -> (r: Option<u64>)
    requires
        size <= i32::MAX,
    ensures
        r is Some <==> size + crate::text::byte_len(text@) <= i32::MAX,
        r matches Some(sum) ==> sum == size + crate::text::byte_len(text@),
{
    let limit: u64 = i32::MAX as u64;
    let extra: usize = text.as_bytes().len();
    if extra as u64 <= limit - size {
        Some(size + extra as u64)
    } else {
        None
    }
}

/// The same for a text that may be missing.
fn plus_option(size: u64, text: &Option<String>) -> (r: Option<u64>)
    requires
        size <= i32::MAX,
    ensures
        r is Some <==> size + cell_bytes(text_cell(viewed(*text))) <= i32::MAX,
        r matches Some(sum) ==> sum == size + cell_bytes(text_cell(viewed(*text))),
{
    match text {
        Some(s) => plus(size, s.as_str()),
        None => Some(size),
    }
}

impl TextSizes {
    #[verifier::type_invariant]
    spec fn well_formed(self) -> bool {
        &&& self.event_id <= i32::MAX
        &&& self.gateway_id <= i32::MAX
        &&& self.stream_name <= i32::MAX
        &&& self.event_header <= i32::MAX
        &&& self.payload <= i32::MAX
        &&& self.kafka_topic <= i32::MAX
        &&& self.malformed_reason <= i32::MAX
    }

    /// The sizes of no rows at all.
    pub fn new() -> (r: TextSizes)
        ensures
            r@ == sizes_of(Seq::empty()),
    {
        TextSizes {
            event_id: 0,
            gateway_id: 0,
            stream_name: 0,
            event_header: 0,
            payload: 0,
            kafka_topic: 0,
            malformed_reason: 0,
        }
    }

    /// The sizes after one more record, unless a column grows past what 32 bits
    /// can index.
    pub fn after(&self, record: &ParsedRecord) -> (r: Option<TextSizes>)
        ensures
            r is Some <==> forall|c: int|
                #![trigger grown(self@, *record)[c]]
                0 <= c < 14 ==> grown(self@, *record)[c] <= i32::MAX,
            r matches Some(sizes) ==> sizes@ == grown(self@, *record),
    {
        proof {
            use_type_invariant(self);
        }
        let ghost next = grown(self@, *record);
        let kafka_topic: u64 = match plus(self.kafka_topic, record.meta.topic.as_str()) {
            Some(n) => n,
            None => {
                assert(next[7] > i32::MAX);
                return None;
            },
        };
        match &record.body {
            RecordBody::Parsed(e) => {
                let event_id: u64 = match plus(self.event_id, e.event_id.as_str()) {
                    Some(n) => n,
                    None => {
                        assert(next[0] > i32::MAX);
                        return None;
                    },
                };
                let gateway_id: u64 = match plus(self.gateway_id, e.gateway_id.as_str()) {
                    Some(n) => n,
                    None => {
                        assert(next[1] > i32::MAX);
                        return None;
                    },
                };
                let stream_name: u64 = match plus_option(self.stream_name, &e.stream_name) {
                    Some(n) => n,
                    None => {
                        assert(next[4] > i32::MAX);
                        return None;
                    },
                };
                let event_header: u64 = match plus_option(self.event_header, &e.event_header) {
                    Some(n) => n,
                    None => {
                        assert(next[5] > i32::MAX);
                        return None;
                    },
                };
                let payload: u64 = match plus(self.payload, e.payload.as_str()) {
                    Some(n) => n,
                    None => {
                        assert(next[6] > i32::MAX);
                        return None;
                    },
                };
                let r = TextSizes {
                    event_id,
                    gateway_id,
                    stream_name,
                    event_header,
                    payload,
                    kafka_topic,
                    malformed_reason: self.malformed_reason,
                };
                assert(r@ =~= next);
                Some(r)
            },
            RecordBody::Malformed { reason } => {
                let malformed_reason: u64 = match plus(self.malformed_reason, reason.as_str()) {
                    Some(n) => n,
                    None => {
                        assert(next[13] > i32::MAX);
                        return None;
                    },
                };
                let r = TextSizes {
                    event_id: self.event_id,
                    gateway_id: self.gateway_id,
                    stream_name: self.stream_name,
                    event_header: self.event_header,
                    payload: self.payload,
                    kafka_topic,
                    malformed_reason,
                };
                assert(r@ =~= next);
                Some(r)
            },
        }
    }
}

/// A column grows by one cell with each record.
proof fn lemma_column_push(
    records: Seq<ParsedRecord>,
    record: ParsedRecord,
    ingested_us: int,
    c: int,
)
    ensures
        staged_column(records.push(record), ingested_us, c) == staged_column(
            records,
            ingested_us,
            c,
        ).push(staged_row(record, ingested_us)[c]),
{
    assert(staged_column(records.push(record), ingested_us, c) =~= staged_column(
        records,
        ingested_us,
        c,
    ).push(staged_row(record, ingested_us)[c]));
}

/// The text of a row does not depend on when it is written.
proof fn lemma_text_ignores_the_clock(records: Seq<ParsedRecord>, ingested_us: int, c: int)
    requires
        0 <= c < 14,
    ensures
        text_bytes(staged_column(records, ingested_us, c)) == text_bytes(
            staged_column(records, 0, c),
        ),
    decreases records.len(),
{
    if records.len() > 0 {
        let rest = records.drop_last();
        assert(records == rest.push(records.last()));
        lemma_column_push(rest, records.last(), ingested_us, c);
        lemma_column_push(rest, records.last(), 0, c);
        lemma_text_ignores_the_clock(rest, ingested_us, c);
        let a = staged_column(rest, ingested_us, c);
        let b = staged_column(rest, 0, c);
        assert(a.push(staged_row(records.last(), ingested_us)[c]).drop_last() == a);
        assert(b.push(staged_row(records.last(), 0)[c]).drop_last() == b);
    }
}

/// One more record grows each column by what its row holds.
pub proof fn lemma_sizes_grow(records: Seq<ParsedRecord>, record: ParsedRecord)
    ensures
        sizes_of(records.push(record)) == grown(sizes_of(records), record),
{
    assert forall|c: int| 0 <= c < 14 implies sizes_of(records.push(record))[c] == grown(
        sizes_of(records),
        record,
    )[c] by {
        lemma_column_push(records, record, 0, c);
        let a = staged_column(records, 0, c);
        assert(a.push(staged_row(record, 0)[c]).drop_last() == a);
    }
    assert(sizes_of(records.push(record)) =~= grown(sizes_of(records), record));
}

/// Rows fit where each column's size does.
pub proof fn lemma_fits_by_size(records: Seq<ParsedRecord>)
    ensures
        fits(records) <==> forall|c: int|
            #![trigger sizes_of(records)[c]]
            0 <= c < 14 ==> sizes_of(records)[c] <= i32::MAX,
{
    if fits(records) {
        assert forall|c: int| 0 <= c < 14 implies #[trigger] sizes_of(records)[c] <= i32::MAX by {
            assert(text_fits(staged_column(records, 0, c)));
        }
    } else {
        let c = choose|c: int|
            #![trigger staged_column(records, 0, c)]
            0 <= c < 14 && !text_fits(staged_column(records, 0, c));
        assert(sizes_of(records)[c] > i32::MAX);
    }
}

/// A prefix of rows that fit fits too.
pub proof fn lemma_a_prefix_fits(records: Seq<ParsedRecord>, n: int)
    requires
        fits(records),
        0 <= n <= records.len(),
    ensures
        fits(records.take(n)),
    decreases records.len() - n,
{
    if n < records.len() {
        lemma_a_prefix_fits(records, n + 1);
        let shorter = records.take(n);
        assert(records.take(n + 1) == shorter.push(records[n]));
        lemma_sizes_grow(shorter, records[n]);
        lemma_fits_by_size(records.take(n + 1));
        lemma_fits_by_size(shorter);
        assert forall|c: int| 0 <= c < 14 implies #[trigger] sizes_of(shorter)[c] <= i32::MAX by {
            assert(sizes_of(records.take(n + 1))[c] <= i32::MAX);
        }
    } else {
        assert(records.take(n) == records);
    }
}

/// Whether every text column of the rows is short enough to be indexed with 32
/// bits.
pub fn batch_fits(records: &[ParsedRecord]) -> (r: bool)
    ensures
        r == fits(records@),
{
    let mut sizes: TextSizes = TextSizes::new();
    let mut i: usize = 0;
    assert(records@.take(0) == Seq::<ParsedRecord>::empty());
    while i < records.len()
        invariant
            i <= records.len(),
            sizes@ == sizes_of(records@.take(i as int)),
        decreases records.len() - i,
    {
        let ghost shorter = records@.take(i as int);
        let ghost longer = records@.take(i + 1);
        proof {
            assert(longer == shorter.push(records@[i as int]));
            lemma_sizes_grow(shorter, records@[i as int]);
        }
        match sizes.after(&records[i]) {
            Some(grown_sizes) => {
                sizes = grown_sizes;
            },
            None => {
                proof {
                    if fits(records@) {
                        lemma_a_prefix_fits(records@, i + 1);
                        lemma_fits_by_size(longer);
                        assert forall|c: int| 0 <= c < 14 implies #[trigger] grown(
                            sizes@,
                            records@[i as int],
                        )[c] <= i32::MAX by {
                            assert(sizes_of(longer)[c] <= i32::MAX);
                        }
                    }
                }
                return false;
            },
        }
        i = i + 1;
    }
    proof {
        assert(records@.take(i as int) == records@);
        lemma_fits_by_size(records@);
        use_type_invariant(&sizes);
    }
    true
}

// ─── Encoding ───────────────────────────────────────────────────────────────

/// Why a batch could not be encoded. Neither is a matter of the records: a
/// malformed record has a row too.
#[derive(Debug)]
pub enum EncodeError {
    /// The columns do not make an Arrow batch.
    Batch(ArrowError),
    /// The Parquet writer failed.
    File(ParquetError),
}

/// Kafka offsets are `i64` on the wire; ours are `u64` because a negative
/// offset is not a thing. Saturate rather than wrap: a wrapped negative offset
/// would silently corrupt provenance.
pub fn offset_to_i64(offset: u64) -> (r: i64)
    ensures
        r == saturated(offset as int),
{
    if offset <= i64::MAX as u64 {
        offset as i64
    } else {
        i64::MAX
    }
}

/// An RFC3339 timestamp as microseconds since the epoch, where it parses.
pub fn parse_rfc3339_micros(s: &str) -> (r: Option<i64>)
    ensures
        r == rfc3339_micros(s@),
{
    parse_rfc3339(s)
}

/// An optional text, borrowed.
fn borrowed(text: &Option<String>) -> (r: Option<&str>)
    ensures
        text_cell(
            match r {
                Some(s) => Some(s@),
                None => None,
            },
        ) == text_cell(viewed(*text)),
{
    match text {
        Some(s) => Some(s.as_str()),
        None => None,
    }
}

/// One builder for each column of the schema.
struct RowBuilders {
    event_id: TextColumn,
    gateway_id: TextColumn,
    received_at: MicrosColumn,
    retry_count: Int32Column,
    stream_name: TextColumn,
    event_header: TextColumn,
    payload: TextColumn,
    kafka_topic: TextColumn,
    kafka_partition: Int32Column,
    kafka_offset: Int64Column,
    kafka_timestamp: MillisColumn,
    ingested_at: MicrosColumn,
    malformed: BooleanBuilder,
    malformed_reason: TextColumn,
}

impl RowBuilders {
    /// The columns so far.
    spec fn columns(self) -> Seq<Seq<Cell>> {
        seq![
            text_cells(self.event_id),
            text_cells(self.gateway_id),
            micros_cells(self.received_at),
            int32_cells(self.retry_count),
            text_cells(self.stream_name),
            text_cells(self.event_header),
            text_cells(self.payload),
            text_cells(self.kafka_topic),
            int32_cells(self.kafka_partition),
            int64_cells(self.kafka_offset),
            millis_cells(self.kafka_timestamp),
            micros_cells(self.ingested_at),
            bool_cells(self.malformed),
            text_cells(self.malformed_reason),
        ]
    }

    /// No rows yet.
    fn new() -> (r: RowBuilders)
        ensures
            r.columns() == Seq::new(14, |c: int| Seq::<Cell>::empty()),
    {
        let r = RowBuilders {
            event_id: TextColumn::new(),
            gateway_id: TextColumn::new(),
            received_at: MicrosColumn::new(),
            retry_count: Int32Column::new(),
            stream_name: TextColumn::new(),
            event_header: TextColumn::new(),
            payload: TextColumn::new(),
            kafka_topic: TextColumn::new(),
            kafka_partition: Int32Column::new(),
            kafka_offset: Int64Column::new(),
            kafka_timestamp: MillisColumn::new(),
            ingested_at: MicrosColumn::new(),
            malformed: new_bool_column(),
            malformed_reason: TextColumn::new(),
        };
        assert(r.columns() =~= Seq::new(14, |c: int| Seq::<Cell>::empty()));
        r
    }

    /// Add the row that `record` becomes.
    fn push(&mut self, record: &ParsedRecord, ingested_us: i64)
        requires
            forall|c: int|
                #![trigger old(self).columns()[c]]
                0 <= c < 14 ==> text_fits(
                    old(self).columns()[c].push(staged_row(*record, ingested_us as int)[c]),
                ),
        ensures
            final(self).columns() == Seq::new(
                14,
                |c: int| old(self).columns()[c].push(staged_row(*record, ingested_us as int)[c]),
            ),
    {
        let ghost before = self.columns();
        let ghost row = staged_row(*record, ingested_us as int);
        assert(text_fits(before[0].push(row[0])));
        assert(text_fits(before[1].push(row[1])));
        assert(text_fits(before[4].push(row[4])));
        assert(text_fits(before[5].push(row[5])));
        assert(text_fits(before[6].push(row[6])));
        assert(text_fits(before[7].push(row[7])));
        assert(text_fits(before[13].push(row[13])));

        self.kafka_topic.append_option(Some(record.meta.topic.as_str()));
        self.kafka_partition.append_option(Some(record.meta.partition));
        self.kafka_offset.append_option(Some(offset_to_i64(record.meta.offset)));
        self.kafka_timestamp.append_option(record.meta.timestamp_ms);
        self.ingested_at.append_option(Some(ingested_us));

        match &record.body {
            RecordBody::Parsed(e) => {
                append_bool(&mut self.malformed, Some(false));
                self.malformed_reason.append_option(None);

                self.event_id.append_option(Some(e.event_id.as_str()));
                self.gateway_id.append_option(Some(e.gateway_id.as_str()));
                self.received_at.append_option(parse_rfc3339_micros(e.received_at.as_str()));
                self.retry_count.append_option(Some(e.retry_count));
                self.stream_name.append_option(borrowed(&e.stream_name));
                self.event_header.append_option(borrowed(&e.event_header));
                self.payload.append_option(Some(e.payload.as_str()));
            },
            RecordBody::Malformed { reason } => {
                append_bool(&mut self.malformed, Some(true));
                self.malformed_reason.append_option(Some(reason.as_str()));

                self.event_id.append_option(None);
                self.gateway_id.append_option(None);
                self.received_at.append_option(None);
                self.retry_count.append_option(None);
                self.stream_name.append_option(None);
                self.event_header.append_option(None);
                self.payload.append_option(None);
            },
        }
        assert(self.columns() =~= Seq::new(14, |c: int| before[c].push(row[c])));
    }

    /// The columns, finished.
    fn finish(self) -> (r: Vec<ArrayData>)
        ensures
            cells_of(r@) == self.columns(),
            r@.len() == 14,
            forall|c: int|
                #![trigger r@[c]]
                0 <= c < 14 ==> array_kind(r@[c]) == staging_fields()[c].kind,
    {
        let ghost columns = self.columns();
        let r: Vec<ArrayData> = vec![
            self.event_id.finish(),
            self.gateway_id.finish(),
            self.received_at.finish("UTC"),
            self.retry_count.finish(),
            self.stream_name.finish(),
            self.event_header.finish(),
            self.payload.finish(),
            self.kafka_topic.finish(),
            self.kafka_partition.finish(),
            self.kafka_offset.finish(),
            self.kafka_timestamp.finish("UTC"),
            self.ingested_at.finish("UTC"),
            finish_bool_column(self.malformed),
            self.malformed_reason.finish(),
        ];
        assert(cells_of(r@) =~= columns);
        r
    }
}

/// The records as an Arrow batch: one row each, in order.
///
/// Every batch of records makes one, malformed records and no records at all
/// included.
pub fn to_record_batch(records: &[ParsedRecord], ingested_at: UtcTime) -> (r: Result<
    ColumnBatch,
    EncodeError,
>)
    requires
        fits(records@),
    ensures
        r matches Ok(batch) && batch_fields(batch) == staging_fields() && batch_columns(batch)
            == staged_columns(records@, ingested_at@),
{
    let ingested_us: i64 = ingested_at.timestamp_micros();
    let mut rows: RowBuilders = RowBuilders::new();
    let mut i: usize = 0;
    assert(rows.columns() =~~= staged_columns(records@.take(0), ingested_us as int));
    while i < records.len()
        invariant
            i <= records.len(),
            fits(records@),
            rows.columns() == staged_columns(records@.take(i as int), ingested_us as int),
        decreases records.len() - i,
    {
        let ghost before = records@.take(i as int);
        let ghost after = records@.take(i + 1);
        proof {
            assert(after == before.push(records@[i as int]));
            lemma_a_prefix_fits(records@, i + 1);
            assert forall|c: int| #![trigger rows.columns()[c]] 0 <= c < 14 implies text_fits(
                rows.columns()[c].push(staged_row(records@[i as int], ingested_us as int)[c]),
            ) && rows.columns()[c].push(staged_row(records@[i as int], ingested_us as int)[c])
                == staged_column(after, ingested_us as int, c) by {
                lemma_column_push(before, records@[i as int], ingested_us as int, c);
                lemma_text_ignores_the_clock(after, ingested_us as int, c);
                assert(text_fits(staged_column(after, 0, c)));
            }
        }
        rows.push(&records[i], ingested_us);
        assert(rows.columns() =~= staged_columns(after, ingested_us as int));
        i = i + 1;
    }
    assert(records@.take(i as int) == records@);
    let columns: Vec<ArrayData> = rows.finish();
    let schema: TableSchema = staging_schema();
    proof {
        lemma_rows_match_the_schema(records@, ingested_us as int, columns@);
    }
    match new_batch(schema, columns) {
        Ok(batch) => Ok(batch),
        Err(e) => Err(EncodeError::Batch(e)),
    }
}

/// Rows have every cell that the schema asks for.
proof fn lemma_rows_match_the_schema(
    records: Seq<ParsedRecord>,
    ingested_us: int,
    columns: Seq<ArrayData>,
)
    requires
        columns.len() == 14,
        cells_of(columns) == staged_columns(records, ingested_us),
        forall|c: int|
            #![trigger columns[c]]
            0 <= c < 14 ==> array_kind(columns[c]) == staging_fields()[c].kind,
    ensures
        columns_match(staging_fields(), columns),
{
    let fields = staging_fields();
    assert(fields.len() == 14);
    assert forall|c: int| #![trigger columns[c]] 0 <= c < columns.len() implies {
        &&& array_kind(columns[c]) == fields[c].kind
        &&& array_cells(columns[c]).len() == array_cells(columns[0]).len()
        &&& !fields[c].nullable ==> !array_cells(columns[c]).contains(Cell::Null)
    } by {
        assert(cells_of(columns)[c] == array_cells(columns[c]));
        assert(cells_of(columns)[0] == array_cells(columns[0]));
        assert(staged_columns(records, ingested_us)[c] == staged_column(records, ingested_us, c));
        assert(staged_columns(records, ingested_us)[0] == staged_column(records, ingested_us, 0));
        if !fields[c].nullable {
            assert forall|i: int| 0 <= i < records.len() implies staged_column(
                records,
                ingested_us,
                c,
            )[i] != Cell::Null by {
                assert(staged_row(records[i], ingested_us)[c] != Cell::Null);
            }
        }
    }
}

/// The Parquet file that the records become; `None` where the Parquet writer
/// reports an error.
pub open spec fn staged_file(records: Seq<ParsedRecord>, ingested_us: int) -> Option<Seq<u8>> {
    parquet_file(staging_fields(), staged_columns(records, ingested_us), ZSTD_LEVEL)
}

/// Whether what is read from a Parquet file is the batch that the records
/// become: under the staging schema one row each, in order.
pub open spec fn reads_back(bytes: Seq<u8>, records: Seq<ParsedRecord>, ingested_us: int) -> bool {
    parquet_rows(bytes) == Some((staging_fields(), staged_columns(records, ingested_us)))
}

/// Serialise records to a self-contained Parquet file in memory.
///
/// In memory because the upload needs the whole object anyway: single-shot
/// uploads want a known length, and a batch is bounded by its offset range.
///
/// Reading the file back gives the rows of [`to_record_batch`], under
/// [`schema`]. An error is the Parquet writer's: malformed records are
/// representable.
pub fn write_batch(records: &[ParsedRecord], ingested_at: UtcTime) -> (r: Result<
    Vec<u8>,
    EncodeError,
>)
    requires
        fits(records@),
    ensures
        match r {
            Ok(bytes) => {
                &&& staged_file(records@, ingested_at@) == Some(bytes@)
                &&& framed_as_parquet(bytes@)
                &&& reads_back(bytes@, records@, ingested_at@)
            },
            Err(e) => staged_file(records@, ingested_at@) is None && e is File,
        },
{
    proof {
        lemma_staging_fields_are_plain();
    }
    match to_record_batch(records, ingested_at) {
        Ok(batch) => match write_parquet(&batch, ZSTD_LEVEL) {
            Ok(bytes) => Ok(bytes),
            Err(e) => Err(EncodeError::File(e)),
        },
        Err(e) => Err(e),
    }
}

/// The staging fields come back from a file as they went in.
proof fn lemma_staging_fields_are_plain()
    ensures
        plain_fields(staging_fields()),
{
    reveal_strlit("event_id");
    reveal_strlit("gateway_id");
    reveal_strlit("received_at");
    reveal_strlit("retry_count");
    reveal_strlit("stream_name");
    reveal_strlit("event_header");
    reveal_strlit("payload");
    reveal_strlit("kafka_topic");
    reveal_strlit("kafka_partition");
    reveal_strlit("kafka_offset");
    reveal_strlit("kafka_timestamp");
    reveal_strlit("ingested_at");
    reveal_strlit("malformed");
    reveal_strlit("malformed_reason");
    reveal_strlit("UTC");
}

/// Serialise records and read the file back: its schema and its columns, with
/// one row for each record, in order.
///
/// An error is the Parquet writer's: what has been written can be read.
pub fn write_and_read_back(records: &[ParsedRecord], ingested_at: UtcTime) -> (r: Result<
    (Arc<Schema>, Vec<ArrayData>),
    EncodeError,
>)
    requires
        fits(records@),
    ensures
        match r {
            Ok((schema, columns)) => {
                &&& staged_file(records@, ingested_at@) is Some
                &&& schema_fields(*schema) == staging_fields()
                &&& cells_of(columns@) == staged_columns(records@, ingested_at@)
            },
            Err(e) => staged_file(records@, ingested_at@) is None && e is File,
        },
{
    match write_batch(records, ingested_at) {
        Ok(bytes) => match read_parquet(bytes) {
            Ok(read) => Ok(read),
            Err(e) => Err(EncodeError::File(e)),
        },
        Err(e) => Err(e),
    }
}

// ─── Laws ───────────────────────────────────────────────────────────────────

/// No record is dropped: every column has a cell for each record, and cell `i`
/// comes from record `i`.
pub proof fn every_record_becomes_a_row(
    records: Seq<ParsedRecord>,
    ingested_us: int,
    c: int,
    i: int,
)
    requires
        0 <= c < 14,
        0 <= i < records.len(),
    ensures
        staged_columns(records, ingested_us).len() == staging_fields().len(),
        staged_columns(records, ingested_us)[c].len() == records.len(),
        staged_columns(records, ingested_us)[c][i] == staged_row(records[i], ingested_us)[c],
{
}

/// A row can always be traced to the offset that produced it, whether or not
/// the record could be read: topic, partition and offset are never null.
pub proof fn provenance_is_never_null(record: ParsedRecord, ingested_us: int)
    ensures
        staged_row(record, ingested_us)[7] == Cell::Text(record.meta.topic@),
        staged_row(record, ingested_us)[8] == Cell::Int(record.meta.partition as int),
        record.meta.offset <= i64::MAX ==> staged_row(record, ingested_us)[9] == Cell::Int(
            record.meta.offset as int,
        ),
        staged_row(record, ingested_us)[9] != Cell::Null,
{
}

/// A record is flagged as malformed exactly where it could not be read, and
/// then has a reason and no envelope.
pub proof fn a_malformed_record_is_a_flagged_row(record: ParsedRecord, ingested_us: int)
    ensures
        staged_row(record, ingested_us)[12] == Cell::Bool(record.body is Malformed),
        record.body is Malformed <==> staged_row(record, ingested_us)[13] != Cell::Null,
        record.body is Malformed ==> forall|c: int|
            #![trigger staged_row(record, ingested_us)[c]]
            0 <= c < 7 ==> staged_row(record, ingested_us)[c] == Cell::Null,
{
}

/// A timestamp that does not parse costs that one cell and no other.
pub proof fn an_unreadable_timestamp_nulls_one_cell(
    a: ParsedRecord,
    b: ParsedRecord,
    ea: Envelope,
    eb: Envelope,
    ingested_us: int,
    c: int,
)
    requires
        a.meta == b.meta,
        a.body == RecordBody::Parsed(Box::new(ea)),
        b.body == RecordBody::Parsed(Box::new(eb)),
        ea == (Envelope { received_at: ea.received_at, ..eb }),
        rfc3339_micros(ea.received_at@) is None,
        0 <= c < 14,
    ensures
        staged_row(a, ingested_us)[2] == Cell::Null,
        c != 2 ==> staged_row(a, ingested_us)[c] == staged_row(b, ingested_us)[c],
{
}

/// The file does not depend on anything but the rows: the same records written
/// at the same instant make the same file.
pub proof fn a_file_is_its_rows(
    a: Seq<ParsedRecord>,
    b: Seq<ParsedRecord>,
    ingested_us: int,
)
    requires
        a.len() == b.len(),
        forall|i: int|
            #![trigger a[i]]
            0 <= i < a.len() ==> staged_row(a[i], ingested_us) == staged_row(b[i], ingested_us),
    ensures
        staged_file(a, ingested_us) == staged_file(b, ingested_us),
{
    assert forall|c: int| 0 <= c < 14 implies staged_column(a, ingested_us, c) == staged_column(
        b,
        ingested_us,
        c,
    ) by {
        assert(staged_column(a, ingested_us, c) =~= staged_column(b, ingested_us, c));
    }
    assert(staged_columns(a, ingested_us) =~= staged_columns(b, ingested_us));
}

/// An envelope goes into its row as it is: every field in a cell of its own,
/// whole and unchanged, whatever its length.
pub proof fn an_envelope_is_written_unchanged(
    record: ParsedRecord,
    envelope: Envelope,
    ingested_us: int,
)
    requires
        record.body matches RecordBody::Parsed(e) && *e == envelope,
    ensures
        staged_row(record, ingested_us).len() == 14,
        staged_row(record, ingested_us)[0] == Cell::Text(envelope.event_id@),
        staged_row(record, ingested_us)[1] == Cell::Text(envelope.gateway_id@),
        rfc3339_micros(envelope.received_at@) matches Some(micros) ==> staged_row(
            record,
            ingested_us,
        )[2] == Cell::Int(micros as int),
        rfc3339_micros(envelope.received_at@) is None ==> staged_row(record, ingested_us)[2]
            == Cell::Null,
        staged_row(record, ingested_us)[3] == Cell::Int(envelope.retry_count as int),
        envelope.stream_name matches Some(t) ==> staged_row(record, ingested_us)[4] == Cell::Text(
            t@,
        ),
        envelope.stream_name is None ==> staged_row(record, ingested_us)[4] == Cell::Null,
        envelope.event_header matches Some(t) ==> staged_row(record, ingested_us)[5] == Cell::Text(
            t@,
        ),
        envelope.event_header is None ==> staged_row(record, ingested_us)[5] == Cell::Null,
        staged_row(record, ingested_us)[6] == Cell::Text(envelope.payload@),
        staged_row(record, ingested_us)[12] == Cell::Bool(false),
        staged_row(record, ingested_us)[13] == Cell::Null,
{
}

/// What could not be read has no envelope in its row, but the reason, whole.
pub proof fn a_malformed_record_is_written_with_its_reason(
    record: ParsedRecord,
    reason: Seq<char>,
    ingested_us: int,
)
    requires
        record.body matches RecordBody::Malformed { reason: kept } && kept@ == reason,
    ensures
        staged_row(record, ingested_us).len() == 14,
        staged_row(record, ingested_us).take(7) == Seq::new(7, |c: int| Cell::Null),
        staged_row(record, ingested_us)[12] == Cell::Bool(true),
        staged_row(record, ingested_us)[13] == Cell::Text(reason),
{
    assert(staged_row(record, ingested_us).take(7) =~= Seq::new(7, |c: int| Cell::Null));
}

/// Every row says where it came from and when it was written, whether or not the
/// record could be read: topic, partition, offset (the largest signed one where
/// it is larger), the broker's timestamp where there is one, and the time of
/// writing.
pub proof fn every_row_tells_its_origin(record: ParsedRecord, ingested_us: int)
    ensures
        staged_row(record, ingested_us)[7] == Cell::Text(record.meta.topic@),
        staged_row(record, ingested_us)[8] == Cell::Int(record.meta.partition as int),
        record.meta.offset <= 9_223_372_036_854_775_807 ==> staged_row(record, ingested_us)[9]
            == Cell::Int(record.meta.offset as int),
        record.meta.offset > 9_223_372_036_854_775_807 ==> staged_row(record, ingested_us)[9]
            == Cell::Int(9_223_372_036_854_775_807),
        record.meta.timestamp_ms matches Some(ms) ==> staged_row(record, ingested_us)[10]
            == Cell::Int(ms as int),
        record.meta.timestamp_ms is None ==> staged_row(record, ingested_us)[10] == Cell::Null,
        staged_row(record, ingested_us)[11] == Cell::Int(ingested_us),
{
}

/// Rows lose nothing: two records with the same row are one and the same in all
/// that is written of them. Of a timestamp the instant is written, and of an
/// offset what a signed number can hold.
pub proof fn distinct_records_have_distinct_rows(a: ParsedRecord, b: ParsedRecord, ingested_us: int)
    requires
        staged_row(a, ingested_us) == staged_row(b, ingested_us),
        a.meta.offset <= i64::MAX,
        b.meta.offset <= i64::MAX,
    ensures
        a.meta.topic@ == b.meta.topic@,
        a.meta.partition == b.meta.partition,
        a.meta.offset == b.meta.offset,
        a.meta.timestamp_ms == b.meta.timestamp_ms,
        a.body is Malformed <==> b.body is Malformed,
        a.body matches RecordBody::Malformed { reason: ra } ==> (b.body matches
            RecordBody::Malformed { reason: rb } ==> ra@ == rb@),
        a.body matches RecordBody::Parsed(ea) ==> (b.body matches RecordBody::Parsed(eb) ==> {
            &&& ea.event_id@ == eb.event_id@
            &&& ea.gateway_id@ == eb.gateway_id@
            &&& rfc3339_micros(ea.received_at@) == rfc3339_micros(eb.received_at@)
            &&& ea.retry_count == eb.retry_count
            &&& viewed(ea.stream_name) == viewed(eb.stream_name)
            &&& viewed(ea.event_header) == viewed(eb.event_header)
            &&& ea.payload@ == eb.payload@
        }),
{
    let (x, y) = (staged_row(a, ingested_us), staged_row(b, ingested_us));
    every_row_tells_its_origin(a, ingested_us);
    every_row_tells_its_origin(b, ingested_us);
    assert(x[12] == y[12] && x[13] == y[13]);
    assert(x[0] == y[0] && x[1] == y[1] && x[2] == y[2] && x[3] == y[3] && x[4] == y[4]);
    assert(x[5] == y[5] && x[6] == y[6]);
    match (a.body, b.body) {
        (RecordBody::Parsed(ea), RecordBody::Parsed(eb)) => {
            an_envelope_is_written_unchanged(a, *ea, ingested_us);
            an_envelope_is_written_unchanged(b, *eb, ingested_us);
        },
        _ => {},
    }
}

/// Whether a cell is one that a column of that kind holds.
pub open spec fn is_of_kind(cell: Cell, kind: Kind) -> bool {
    match kind {
        Kind::Utf8 => cell is Text,
        Kind::Boolean => cell is Bool,
        Kind::Other(_) => false,
        _ => cell is Int,
    }
}

/// Rows and schema go together: every cell is of its column's kind, or null
/// where the column allows it. And the columns that tell a row's origin allow
/// none.
pub proof fn every_cell_suits_its_column(record: ParsedRecord, ingested_us: int, c: int)
    requires
        0 <= c < 14,
    ensures
        staging_fields().len() == 14,
        staged_row(record, ingested_us).len() == 14,
        is_of_kind(staged_row(record, ingested_us)[c], staging_fields()[c].kind) || (
        staging_fields()[c].nullable && staged_row(record, ingested_us)[c] is Null),
        staging_fields()[c].nullable <==> !(c == 7 || c == 8 || c == 9 || c == 11 || c == 12),
{
}

/// The schema that readers of the bucket rely on, column by column.
pub proof fn the_schema_is_the_contract()
    ensures
        staging_fields().len() == 14,
        staging_fields()[0].name == "event_id"@ && staging_fields()[0].kind == Kind::Utf8,
        staging_fields()[1].name == "gateway_id"@ && staging_fields()[1].kind == Kind::Utf8,
        staging_fields()[2].name == "received_at"@ && staging_fields()[2].kind
            == Kind::TimestampMicros("UTC"@),
        staging_fields()[3].name == "retry_count"@ && staging_fields()[3].kind == Kind::Int32,
        staging_fields()[4].name == "stream_name"@ && staging_fields()[4].kind == Kind::Utf8,
        staging_fields()[5].name == "event_header"@ && staging_fields()[5].kind == Kind::Utf8,
        staging_fields()[6].name == "payload"@ && staging_fields()[6].kind == Kind::Utf8,
        staging_fields()[7].name == "kafka_topic"@ && staging_fields()[7].kind == Kind::Utf8,
        staging_fields()[8].name == "kafka_partition"@ && staging_fields()[8].kind == Kind::Int32,
        staging_fields()[9].name == "kafka_offset"@ && staging_fields()[9].kind == Kind::Int64,
        staging_fields()[10].name == "kafka_timestamp"@ && staging_fields()[10].kind
            == Kind::TimestampMillis("UTC"@),
        staging_fields()[11].name == "ingested_at"@ && staging_fields()[11].kind
            == Kind::TimestampMicros("UTC"@),
        staging_fields()[12].name == "malformed"@ && staging_fields()[12].kind == Kind::Boolean,
        staging_fields()[13].name == "malformed_reason"@ && staging_fields()[13].kind == Kind::Utf8,
{
}

/// What goes into a file: under the staging schema the rows of the records, one
/// each and in order, compressed at level 3; and what is read back is the same.
pub proof fn a_file_holds_a_row_for_each_record(records: Seq<ParsedRecord>, ingested_us: int) -> (
    columns: Seq<Seq<Cell>>)
    ensures
        staged_file(records, ingested_us) == parquet_file(staging_fields(), columns, 3),
        columns.len() == 14,
        forall|c: int, i: int|
            #![trigger columns[c][i]]
            0 <= c < 14 && 0 <= i < records.len() ==> columns[c].len() == records.len()
                && columns[c][i] == staged_row(records[i], ingested_us)[c],
        forall|c: int| #![trigger columns[c]] 0 <= c < 14 ==> columns[c].len() == records.len(),
        forall|bytes: Seq<u8>| #[trigger]
            reads_back(bytes, records, ingested_us) <==> parquet_rows(bytes) == Some(
                (staging_fields(), columns),
            ),
{
    staged_columns(records, ingested_us)
}

/// How many bytes of text a column takes is a sum: of the UTF-8 bytes of its
/// texts, and of nothing else.
pub proof fn text_adds_up(a: Seq<Cell>, b: Seq<Cell>, text: Seq<char>, n: int, flag: bool)
    ensures
        text_bytes(a + b) == text_bytes(a) + text_bytes(b),
        text_bytes(seq![Cell::Text(text)]) == encode_utf8(text).len(),
        text_bytes(seq![Cell::Int(n)]) == 0,
        text_bytes(seq![Cell::Bool(flag)]) == 0,
        text_bytes(seq![Cell::Null]) == 0,
        text_bytes(Seq::empty()) == 0,
    decreases b.len(),
{
    reveal_with_fuel(text_bytes, 2);
    assert(seq![Cell::Text(text)].drop_last() == Seq::<Cell>::empty());
    assert(seq![Cell::Int(n)].drop_last() == Seq::<Cell>::empty());
    assert(seq![Cell::Bool(flag)].drop_last() == Seq::<Cell>::empty());
    assert(seq![Cell::Null].drop_last() == Seq::<Cell>::empty());
    if b.len() == 0 {
        assert(a + b == a);
    } else {
        text_adds_up(a, b.drop_last(), text, n, flag);
        assert((a + b).drop_last() == a + b.drop_last());
        assert((a + b).last() == b.last());
    }
}

/// The sizes of columns are those of their texts, and a record adds the bytes of
/// the texts in its row.
pub proof fn sizes_are_those_of_the_texts(
    records: Seq<ParsedRecord>,
    sizes: Seq<nat>,
    record: ParsedRecord,
    c: int,
)
    requires
        0 <= c < 14,
    ensures
        sizes_of(records).len() == 14,
        sizes_of(records)[c] == text_bytes(staged_columns(records, 0)[c]),
        grown(sizes, record).len() == 14,
        staged_row(record, 0)[c] matches Cell::Text(text) ==> grown(sizes, record)[c] == sizes[c]
            + encode_utf8(text).len(),
        !(staged_row(record, 0)[c] is Text) ==> grown(sizes, record)[c] == sizes[c],
{
}

/// Records fit exactly where no column holds more text than a signed 32-bit
/// number counts.
pub proof fn records_fit_up_to_two_gibibytes_of_text(records: Seq<ParsedRecord>)
    ensures
        fits(records) <==> forall|c: int|
            0 <= c < 14 ==> text_bytes(#[trigger] staged_columns(records, 0)[c]) <= 2_147_483_647,
{
    assert forall|c: int| 0 <= c < 14 implies #[trigger] staged_columns(records, 0)[c]
        == staged_column(records, 0, c) by {}
    if forall|c: int|
        0 <= c < 14 ==> text_bytes(#[trigger] staged_columns(records, 0)[c]) <= 2_147_483_647 {
        assert forall|c: int|
            #![trigger staged_column(records, 0, c)]
            0 <= c < 14 implies text_fits(staged_column(records, 0, c)) by {
            assert(text_bytes(staged_columns(records, 0)[c]) <= 2_147_483_647);
        }
    }
}

} // verus!
