//! pulse-ingestor: consumes events from Kafka and writes Parquet batches to GCS
//! staging.
//!
//! # The correctness property this crate exists to protect
//!
//! **Commit after upload, never before.** An offset committed ahead of a
//! durable write is silent data loss the next time the partition moves. The
//! sequence is: accumulate a fixed offset range → write Parquet → upload to the
//! deterministic object name → *then* commit
//! [`batching::BatchRange::commit_offset`].
//!
//! Crash anywhere before the commit and the range is re-read and re-uploaded to
//! the same object name, which overwrites. That is why boundaries are fixed
//! rather than timing-dependent: see the [`batching`] module docs.
//!
//! # Layout
//!
//! | module             | what it holds                                            |
//! |--------------------|----------------------------------------------------------|
//! | [`batching`]       | fixed offset ranges, and the object names they give      |
//! | [`config`]         | the settings, with every problem reported at once        |
//! | [`envelope`]       | what a consumed record becomes in memory                 |
//! | [`parquet_writer`] | the staging schema, and the rows of a batch              |
//! | [`columns`]        | the Arrow and Parquet calls behind it                    |
//! | [`calendar`]       | dates and timestamps                                     |
//! | [`batch_table`]    | what each partition has accumulated                      |
//! | [`protocol`]       | the rules of accumulate → upload → commit                |
//! | [`pipeline`]       | what carries them out                                    |
//! | [`outcomes`]       | what comes of each call, by its records and offsets      |
//! | [`steps`]          | what each step does to the records it holds              |
//! | [`delivery`]       | what a run of them comes to, and when no record is lost  |
//! | [`retry`]          | how often and how long a failed upload is tried again    |
//! | [`sink`]           | what is asked of the bucket, and what its replies mean   |
//! | [`kafka`]          | what is asked of the broker, and the consume loop        |
//! | [`text`], [`units`] | strings, widths and spans of time                       |
//!
//! The library does no I/O. It says what has to be done next, and the binary
//! does it.

pub mod batch_table;
pub mod batching;
pub mod calendar;
pub mod columns;
pub mod config;
pub mod delivery;
pub mod envelope;
pub mod kafka;
pub mod outcomes;
pub mod parquet_writer;
pub mod pipeline;
pub mod protocol;
pub mod retry;
pub mod sink;
pub mod steps;
pub mod text;
pub mod units;
