//! Columns of cells, and the Arrow and Parquet calls that carry them.
//!
//! Arrow's builders, arrays, schemas and batches are opaque to the verifier.
//! This module names what each of them holds, as plain sequences, and gives
//! each Arrow or Parquet call that the writer needs a contract over those
//! names.

use std::sync::Arc;

use arrow::array::{
    make_array, Array, ArrayData, BooleanBuilder, Int32Builder, Int64Builder, StringBuilder,
    TimestampMicrosecondBuilder, TimestampMillisecondBuilder,
};
use arrow::compute::concat_batches;
use arrow::datatypes::{DataType, Field, Schema, TimeUnit};
use arrow::error::ArrowError;
use arrow::record_batch::RecordBatch;
use bytes::Bytes;
use parquet::arrow::arrow_reader::ParquetRecordBatchReaderBuilder;
use parquet::arrow::ArrowWriter;
use parquet::basic::{Compression, ZstdLevel};
use parquet::errors::ParquetError;
use parquet::file::properties::WriterProperties;
use vstd::prelude::*;

use crate::text::byte_len;

verus! {

// ─── The outside types ──────────────────────────────────────────────────────

/// `arrow::array::ArrayData`, one finished column.
#[verifier::external_type_specification]
#[verifier::external_body]
pub struct ExArrayData(ArrayData);

/// `arrow::array::BooleanBuilder`.
#[verifier::external_type_specification]
#[verifier::external_body]
pub struct ExBooleanBuilder(BooleanBuilder);

/// `arrow::datatypes::Schema`.
#[verifier::external_type_specification]
#[verifier::external_body]
pub struct ExSchema(Schema);

/// `arrow::error::ArrowError`.
#[verifier::external_type_specification]
#[verifier::external_body]
pub struct ExArrowError(ArrowError);

/// `parquet::errors::ParquetError`.
#[verifier::external_type_specification]
#[verifier::external_body]
pub struct ExParquetError(ParquetError);

// ─── Cells and fields ───────────────────────────────────────────────────────

/// One cell of a column.
pub enum Cell {
    Null,
    Text(Seq<char>),
    Int(int),
    Bool(bool),
}

/// What kind of values a column holds. A timestamp column has a time zone.
pub enum Kind {
    Utf8,
    Int32,
    Int64,
    Boolean,
    TimestampMicros(Seq<char>),
    TimestampMillis(Seq<char>),
    /// A kind that this crate makes no columns of, by its name.
    Other(Seq<char>),
}

/// One field of a schema.
pub struct FieldView {
    pub name: Seq<char>,
    pub kind: Kind,
    pub nullable: bool,
}

/// What kind of values a column holds. A timestamp column has a time zone.
#[derive(Debug, Clone, Copy)]
pub enum ColumnKind<'a> {
    Utf8,
    Int32,
    Int64,
    Boolean,
    TimestampMicros(&'a str),
    TimestampMillis(&'a str),
}

impl<'a> View for ColumnKind<'a> {
    type V = Kind;

    open spec fn view(&self) -> Kind {
        match self {
            ColumnKind::Utf8 => Kind::Utf8,
            ColumnKind::Int32 => Kind::Int32,
            ColumnKind::Int64 => Kind::Int64,
            ColumnKind::Boolean => Kind::Boolean,
            ColumnKind::TimestampMicros(zone) => Kind::TimestampMicros(zone@),
            ColumnKind::TimestampMillis(zone) => Kind::TimestampMillis(zone@),
        }
    }
}

/// A column to be: its name, its kind, and whether it may hold nulls.
#[derive(Debug, Clone, Copy)]
pub struct ColumnSpec<'a> {
    pub name: &'a str,
    pub kind: ColumnKind<'a>,
    pub nullable: bool,
}

impl<'a> View for ColumnSpec<'a> {
    type V = FieldView;

    open spec fn view(&self) -> FieldView {
        FieldView { name: self.name@, kind: self.kind@, nullable: self.nullable }
    }
}

/// A text, or a null.
pub open spec fn text_cell(value: Option<Seq<char>>) -> Cell {
    match value {
        Some(text) => Cell::Text(text),
        None => Cell::Null,
    }
}

/// A 32-bit number, or a null.
pub open spec fn int32_cell(value: Option<i32>) -> Cell {
    match value {
        Some(n) => Cell::Int(n as int),
        None => Cell::Null,
    }
}

/// A 64-bit number, or a null.
pub open spec fn int64_cell(value: Option<i64>) -> Cell {
    match value {
        Some(n) => Cell::Int(n as int),
        None => Cell::Null,
    }
}

/// A flag, or a null.
pub open spec fn bool_cell(value: Option<bool>) -> Cell {
    match value {
        Some(b) => Cell::Bool(b),
        None => Cell::Null,
    }
}

/// How many bytes of text a cell takes.
pub open spec fn cell_bytes(cell: Cell) -> nat {
    match cell {
        Cell::Text(text) => byte_len(text),
        _ => 0,
    }
}

/// How many bytes of text a column takes.
pub open spec fn text_bytes(cells: Seq<Cell>) -> nat
    decreases cells.len(),
{
    if cells.len() == 0 {
        0
    } else {
        text_bytes(cells.drop_last()) + cell_bytes(cells.last())
    }
}

/// A text column indexes its bytes with 32 bits, so it holds this many at most.
pub open spec fn text_fits(cells: Seq<Cell>) -> bool {
    text_bytes(cells) <= i32::MAX
}

// ─── Builders ───────────────────────────────────────────────────────────────

/// An Arrow `StringBuilder`.
#[verifier::external_body]
pub struct TextColumn {
    builder: StringBuilder,
}

/// The cells that a text column holds so far.
pub uninterp spec fn text_cells(column: TextColumn) -> Seq<Cell>;

/// An Arrow `Int32Builder`.
#[verifier::external_body]
pub struct Int32Column {
    builder: Int32Builder,
}

/// The cells that a column of 32-bit numbers holds so far.
pub uninterp spec fn int32_cells(column: Int32Column) -> Seq<Cell>;

/// An Arrow `Int64Builder`.
#[verifier::external_body]
pub struct Int64Column {
    builder: Int64Builder,
}

/// The cells that a column of 64-bit numbers holds so far.
pub uninterp spec fn int64_cells(column: Int64Column) -> Seq<Cell>;

/// An Arrow `TimestampMicrosecondBuilder`.
#[verifier::external_body]
pub struct MicrosColumn {
    builder: TimestampMicrosecondBuilder,
}

/// The cells that a column of microsecond timestamps holds so far.
pub uninterp spec fn micros_cells(column: MicrosColumn) -> Seq<Cell>;

/// An Arrow `TimestampMillisecondBuilder`.
#[verifier::external_body]
pub struct MillisColumn {
    builder: TimestampMillisecondBuilder,
}

/// The cells that a column of millisecond timestamps holds so far.
pub uninterp spec fn millis_cells(column: MillisColumn) -> Seq<Cell>;

/// The cells that a column of flags holds so far.
pub uninterp spec fn bool_cells(column: BooleanBuilder) -> Seq<Cell>;

/// The cells of a finished column.
pub uninterp spec fn array_cells(array: ArrayData) -> Seq<Cell>;

/// The kind of a finished column.
pub uninterp spec fn array_kind(array: ArrayData) -> Kind;

impl TextColumn {
    /// `StringBuilder::new`: a builder that holds nothing yet.
    #[verifier::external_body]
    pub(crate) fn new() -> (r: TextColumn)
        ensures
            text_cells(r) == Seq::<Cell>::empty(),
    {
        TextColumn { builder: StringBuilder::new() }
    }

    /// `StringBuilder::append_option`: the text, or a null, becomes the next
    /// cell. The builder panics past the bytes that 32 bits can index.
    #[verifier::external_body]
    pub(crate) fn append_option(&mut self, value: Option<&str>)
        requires
            text_fits(
                text_cells(*old(self)).push(
                    text_cell(
                        match value {
                            Some(text) => Some(text@),
                            None => None,
                        },
                    ),
                ),
            ),
        ensures
            text_cells(*final(self)) == text_cells(*old(self)).push(
                text_cell(
                    match value {
                        Some(text) => Some(text@),
                        None => None,
                    },
                ),
            ),
    {
        self.builder.append_option(value)
    }

    /// `StringBuilder::finish`: the cells as an Arrow column of text.
    #[verifier::external_body]
    pub(crate) fn finish(self) -> (r: ArrayData)
        ensures
            array_cells(r) == text_cells(self),
            array_kind(r) == Kind::Utf8,
    {
        let mut builder = self.builder;
        builder.finish().into_data()
    }
}

impl Int32Column {
    /// `Int32Builder::new`: a builder that holds nothing yet.
    #[verifier::external_body]
    pub(crate) fn new() -> (r: Int32Column)
        ensures
            int32_cells(r) == Seq::<Cell>::empty(),
    {
        Int32Column { builder: Int32Builder::new() }
    }

    /// `Int32Builder::append_option`: the number, or a null, becomes the next
    /// cell.
    #[verifier::external_body]
    pub(crate) fn append_option(&mut self, value: Option<i32>)
        ensures
            int32_cells(*final(self)) == int32_cells(*old(self)).push(int32_cell(value)),
    {
        self.builder.append_option(value)
    }

    /// `Int32Builder::finish`: the cells as an Arrow column of 32-bit numbers.
    #[verifier::external_body]
    pub(crate) fn finish(self) -> (r: ArrayData)
        ensures
            array_cells(r) == int32_cells(self),
            array_kind(r) == Kind::Int32,
    {
        let mut builder = self.builder;
        builder.finish().into_data()
    }
}

impl Int64Column {
    /// `Int64Builder::new`: a builder that holds nothing yet.
    #[verifier::external_body]
    pub(crate) fn new() -> (r: Int64Column)
        ensures
            int64_cells(r) == Seq::<Cell>::empty(),
    {
        Int64Column { builder: Int64Builder::new() }
    }

    /// `Int64Builder::append_option`: the number, or a null, becomes the next
    /// cell.
    #[verifier::external_body]
    pub(crate) fn append_option(&mut self, value: Option<i64>)
        ensures
            int64_cells(*final(self)) == int64_cells(*old(self)).push(int64_cell(value)),
    {
        self.builder.append_option(value)
    }

    /// `Int64Builder::finish`: the cells as an Arrow column of 64-bit numbers.
    #[verifier::external_body]
    pub(crate) fn finish(self) -> (r: ArrayData)
        ensures
            array_cells(r) == int64_cells(self),
            array_kind(r) == Kind::Int64,
    {
        let mut builder = self.builder;
        builder.finish().into_data()
    }
}

impl MicrosColumn {
    /// `TimestampMicrosecondBuilder::new`: a builder that holds nothing yet.
    #[verifier::external_body]
    pub(crate) fn new() -> (r: MicrosColumn)
        ensures
            micros_cells(r) == Seq::<Cell>::empty(),
    {
        MicrosColumn { builder: TimestampMicrosecondBuilder::new() }
    }

    /// `TimestampMicrosecondBuilder::append_option`: the timestamp, or a null,
    /// becomes the next cell.
    #[verifier::external_body]
    pub(crate) fn append_option(&mut self, value: Option<i64>)
        ensures
            micros_cells(*final(self)) == micros_cells(*old(self)).push(int64_cell(value)),
    {
        self.builder.append_option(value)
    }

    /// `TimestampMicrosecondBuilder::finish` and `PrimitiveArray::with_timezone`:
    /// the cells as an Arrow column of timestamps in that time zone.
    #[verifier::external_body]
    pub(crate) fn finish(self, zone: &str) -> (r: ArrayData)
        ensures
            array_cells(r) == micros_cells(self),
            array_kind(r) == Kind::TimestampMicros(zone@),
    {
        let mut builder = self.builder;
        builder.finish().with_timezone(zone).into_data()
    }
}

impl MillisColumn {
    /// `TimestampMillisecondBuilder::new`: a builder that holds nothing yet.
    #[verifier::external_body]
    pub(crate) fn new() -> (r: MillisColumn)
        ensures
            millis_cells(r) == Seq::<Cell>::empty(),
    {
        MillisColumn { builder: TimestampMillisecondBuilder::new() }
    }

    /// `TimestampMillisecondBuilder::append_option`: the timestamp, or a null,
    /// becomes the next cell.
    #[verifier::external_body]
    pub(crate) fn append_option(&mut self, value: Option<i64>)
        ensures
            millis_cells(*final(self)) == millis_cells(*old(self)).push(int64_cell(value)),
    {
        self.builder.append_option(value)
    }

    /// `TimestampMillisecondBuilder::finish` and `PrimitiveArray::with_timezone`:
    /// the cells as an Arrow column of timestamps in that time zone.
    #[verifier::external_body]
    pub(crate) fn finish(self, zone: &str) -> (r: ArrayData)
        ensures
            array_cells(r) == millis_cells(self),
            array_kind(r) == Kind::TimestampMillis(zone@),
    {
        let mut builder = self.builder;
        builder.finish().with_timezone(zone).into_data()
    }
}

/// `BooleanBuilder::new`: a builder that holds nothing yet.
#[verifier::external_body]
pub(crate) fn new_bool_column() -> (r: BooleanBuilder)
    ensures
        bool_cells(r) == Seq::<Cell>::empty(),
{
    BooleanBuilder::new()
}

/// `BooleanBuilder::append_option`: the flag, or a null, becomes the next cell.
#[verifier::external_body]
pub(crate) fn append_bool(column: &mut BooleanBuilder, value: Option<bool>)
    ensures
        bool_cells(*final(column)) == bool_cells(*old(column)).push(bool_cell(value)),
{
    column.append_option(value)
}

/// `BooleanBuilder::finish`: the cells as an Arrow column of flags.
#[verifier::external_body]
pub(crate) fn finish_bool_column(column: BooleanBuilder) -> (r: ArrayData)
    ensures
        array_cells(r) == bool_cells(column),
        array_kind(r) == Kind::Boolean,
{
    let mut builder = column;
    builder.finish().into_data()
}

// ─── Schemas and batches ────────────────────────────────────────────────────

/// The fields of a schema, in order: the name of each, its kind, and whether it
/// may hold nulls. An Arrow schema and its fields can also carry metadata, which
/// this leaves out.
pub uninterp spec fn schema_fields(schema: Schema) -> Seq<FieldView>;

/// A schema that is made of fields and nothing else.
///
/// The metadata of an Arrow schema would go into a Parquet file. `new_schema` is
/// the only maker of a value of this type, and sets none, so that a batch under
/// such a schema is told by its fields and its columns.
pub struct TableSchema {
    schema: Arc<Schema>,
}

impl TableSchema {
    /// The fields, in order.
    pub closed spec fn fields(self) -> Seq<FieldView> {
        schema_fields(*self.schema)
    }

    /// The Arrow schema.
    pub fn into_arrow(self) -> (r: Arc<Schema>)
        ensures
            schema_fields(*r) == self.fields(),
    {
        self.schema
    }
}

/// An Arrow `RecordBatch`: a schema, and a column for each of its fields.
#[verifier::external_body]
pub struct ColumnBatch {
    batch: RecordBatch,
}

/// The fields of a batch, in order.
pub uninterp spec fn batch_fields(batch: ColumnBatch) -> Seq<FieldView>;

/// The columns of a batch, in order.
pub uninterp spec fn batch_columns(batch: ColumnBatch) -> Seq<Seq<Cell>>;

/// The fields that a list of columns-to-be describes.
pub open spec fn described_fields(columns: Seq<ColumnSpec>) -> Seq<FieldView> {
    columns.map_values(|c: ColumnSpec| c@)
}

/// `Schema::new` over `Field::new`: a schema with one field for each column
/// described, in order, of that name and kind, nullable or not. Neither the
/// schema nor a field has metadata.
#[verifier::external_body]
pub(crate) fn new_schema(columns: &Vec<ColumnSpec>) -> (r: TableSchema)
    ensures
        r.fields() == described_fields(columns@),
{
    let data_type = |kind: &ColumnKind| match *kind {
        ColumnKind::Utf8 => DataType::Utf8,
        ColumnKind::Int32 => DataType::Int32,
        ColumnKind::Int64 => DataType::Int64,
        ColumnKind::Boolean => DataType::Boolean,
        ColumnKind::TimestampMicros(z) => DataType::Timestamp(TimeUnit::Microsecond, Some(z.into())),
        ColumnKind::TimestampMillis(z) => DataType::Timestamp(TimeUnit::Millisecond, Some(z.into())),
    };
    let field = |c: &ColumnSpec| Field::new(c.name, data_type(&c.kind), c.nullable);
    TableSchema { schema: Arc::new(Schema::new(columns.iter().map(field).collect::<Vec<Field>>())) }
}

/// The cells of each column.
pub open spec fn cells_of(columns: Seq<ArrayData>) -> Seq<Seq<Cell>> {
    columns.map_values(|a: ArrayData| array_cells(a))
}

/// Whether the columns make a batch of that schema: there is a column for each
/// field and at least one, each of its field's kind, all of one length, and
/// none with a null that its field does not allow.
pub open spec fn columns_match(fields: Seq<FieldView>, columns: Seq<ArrayData>) -> bool {
    &&& columns.len() == fields.len()
    &&& columns.len() > 0
    &&& forall|c: int|
        #![trigger columns[c]]
        0 <= c < columns.len() ==> {
            &&& array_kind(columns[c]) == fields[c].kind
            &&& array_cells(columns[c]).len() == array_cells(columns[0]).len()
            &&& !fields[c].nullable ==> !array_cells(columns[c]).contains(Cell::Null)
        }
}

/// `RecordBatch::try_new`: a batch with the fields of the schema and the cells
/// of the columns, where they match, and an error where they do not.
#[verifier::external_body]
pub(crate) fn new_batch(schema: TableSchema, columns: Vec<ArrayData>) -> (r: Result<
    ColumnBatch,
    ArrowError,
>)
    ensures
        r is Ok <==> columns_match(schema.fields(), columns@),
        r matches Ok(batch) ==> batch_fields(batch) == schema.fields(),
        r matches Ok(batch) ==> batch_columns(batch) == cells_of(columns@),
{
    let arrays = columns.into_iter().map(make_array).collect();
    let batch = RecordBatch::try_new(schema.schema, arrays)?;
    Ok(ColumnBatch { batch })
}

/// Columns and fields are seen as they are, in their order.
pub proof fn columns_are_seen_as_they_are(
    columns: Seq<ArrayData>,
    described: Seq<ColumnSpec>,
    i: int,
    j: int,
)
    requires
        0 <= i < columns.len(),
        0 <= j < described.len(),
    ensures
        cells_of(columns).len() == columns.len(),
        cells_of(columns)[i] == array_cells(columns[i]),
        described_fields(described).len() == described.len(),
        described_fields(described)[j].name == described[j].name@,
        described_fields(described)[j].kind == described[j].kind@,
        described_fields(described)[j].nullable == described[j].nullable,
        described[j].kind is Utf8 <==> described[j].kind@ is Utf8,
        described[j].kind is Int32 <==> described[j].kind@ is Int32,
        described[j].kind is Int64 <==> described[j].kind@ is Int64,
        described[j].kind is Boolean <==> described[j].kind@ is Boolean,
        described[j].kind matches ColumnKind::TimestampMicros(zone) ==> described[j].kind@
            == Kind::TimestampMicros(zone@),
        described[j].kind matches ColumnKind::TimestampMillis(zone) ==> described[j].kind@
            == Kind::TimestampMillis(zone@),
{
}

// ─── Parquet ────────────────────────────────────────────────────────────────

/// The Parquet file, compressed with zstd at `level`, that `ArrowWriter` makes
/// of one batch with these fields and columns; `None` where it reports an error.
pub uninterp spec fn parquet_file(
    fields: Seq<FieldView>,
    columns: Seq<Seq<Cell>>,
    level: i32,
) -> Option<Seq<u8>>;

/// The magic number of a Parquet file.
pub open spec fn parquet_magic() -> Seq<u8> {
    seq![80u8, 65u8, 82u8, 49u8]
}

/// Whether `bytes` has the magic number of a Parquet file at both ends.
pub open spec fn framed_as_parquet(bytes: Seq<u8>) -> bool {
    &&& bytes.len() >= 8
    &&& bytes.take(4) == parquet_magic()
    &&& bytes.skip(bytes.len() - 4) == parquet_magic()
}

/// What Arrow's Parquet reader, `ParquetRecordBatchReaderBuilder`, reads from a
/// file in memory: the fields of its schema, and its columns, all batches end to
/// end; `None` where it does not get that far.
pub uninterp spec fn parquet_rows(bytes: Seq<u8>) -> Option<(Seq<FieldView>, Seq<Seq<Cell>>)>;

/// Whether a text has between `least` and a thousand characters.
pub open spec fn is_short(text: Seq<char>, least: nat) -> bool {
    least <= text.len() <= 1000
}

/// Whether a field comes back from a Parquet file as it went in: it is of a kind
/// that this crate makes columns of, and where it has a time zone, that is not
/// the empty text, which the file would not keep.
pub open spec fn is_plain(field: FieldView) -> bool {
    &&& is_short(field.name, 0)
    &&& match field.kind {
        Kind::TimestampMicros(zone) => is_short(zone, 1),
        Kind::TimestampMillis(zone) => is_short(zone, 1),
        Kind::Other(_) => false,
        _ => true,
    }
}

/// Whether all fields come back from a Parquet file as they went in. They are
/// few, and their names short: the reader gives up on a huge schema.
pub open spec fn plain_fields(fields: Seq<FieldView>) -> bool {
    &&& fields.len() <= 1000
    &&& forall|c: int| 0 <= c < fields.len() ==> is_plain(#[trigger] fields[c])
}

/// `ArrowWriter::try_new`, `write` and `close`, with zstd compression: the one
/// batch as a self-contained Parquet file in memory.
///
/// The file depends on the fields, the cells and the level alone, and has
/// Parquet's magic number at both ends. The writer embeds the Arrow schema in
/// it, from which the reader restores the kind of each field with its time zone:
/// where the fields are plain, what is read back has the fields and the cells of
/// the batch, in order.
#[verifier::external_body]
pub(crate) fn write_parquet(batch: &ColumnBatch, level: i32) -> (r: Result<Vec<u8>, ParquetError>)
    ensures
        r matches Ok(bytes) ==> parquet_file(batch_fields(*batch), batch_columns(*batch), level)
            == Some(bytes@),
        r is Err ==> parquet_file(batch_fields(*batch), batch_columns(*batch), level) is None,
        r matches Ok(bytes) ==> framed_as_parquet(bytes@),
        r matches Ok(bytes) ==> (plain_fields(batch_fields(*batch)) ==> parquet_rows(bytes@)
            == Some((batch_fields(*batch), batch_columns(*batch)))),
{
    let props = WriterProperties::builder()
        .set_compression(Compression::ZSTD(ZstdLevel::try_new(level)?))
        .build();
    let mut buf = Vec::new();
    let mut writer = ArrowWriter::try_new(&mut buf, batch.batch.schema(), Some(props))?;
    writer.write(&batch.batch)?;
    writer.close()?;
    Ok(buf)
}

/// `ParquetRecordBatchReaderBuilder::try_new` and `build`, and `concat_batches`
/// on what the reader gives: the schema of the file, and its columns, all
/// batches end to end.
///
/// Only for a file that can be read: on other bytes the reader reports an error
/// or panics.
#[verifier::external_body]
pub(crate) fn read_parquet(bytes: Vec<u8>) -> (r: Result<
    (Arc<Schema>, Vec<ArrayData>),
    ParquetError,
>)
    requires
        parquet_rows(bytes@) is Some,
    ensures
        r is Ok,
        r matches Ok(read) ==> parquet_rows(bytes@) == Some(
            (schema_fields(*read.0), cells_of(read.1@)),
        ),
{
    let builder = ParquetRecordBatchReaderBuilder::try_new(Bytes::from(bytes))?;
    let schema = builder.schema().clone();
    let batches = builder.build()?.collect::<Result<Vec<RecordBatch>, ArrowError>>()?;
    let batch = concat_batches(&schema, &batches)?;
    Ok((schema, batch.columns().iter().map(|column| column.to_data()).collect()))
}

} // verus!
