# pulse-ingestor

Consumes telemetry events from Kafka and writes Parquet batches to a GCS staging
bucket. The library in `src/` is written in Verus: what it does is stated in
contracts and proved. The binary in `app/` does the I/O.

## The design invariant

**Commit after upload, never before.** An offset committed ahead of a durable
write is silent data loss the next time the partition moves. The sequence is:

1. accumulate a **fixed** offset range
2. write Parquet
3. upload to the deterministic object name
4. *then* commit `BatchRange::commit_offset()`, which is `end + 1`, because
   Kafka commits the next offset to read

Crash anywhere before step 4 and the range is re-read and re-uploaded to the
same object name, overwriting cleanly.

Objects are named

```
{topic}/dt=YYYY-MM-DD/{partition}-{start_offset}-{end_offset}.parquet
```

where the date is the date of writing, in UTC.

## Layout

| Place                   | What it holds                                                   |
| ----------------------- | --------------------------------------------------------------- |
| `src/batching.rs`       | Fixed offset ranges, and the object names derived from them     |
| `src/config.rs`         | Settings from variables; every problem is reported at once      |
| `src/envelope.rs`       | What a record becomes; an unreadable one is a value, no error   |
| `src/parquet_writer.rs` | The staging schema, and the rows of a batch                     |
| `src/columns.rs`        | The Arrow and Parquet calls, and what is trusted of them        |
| `src/calendar.rs`       | Dates and timestamps, and what is trusted of `chrono`           |
| `src/batch_table.rs`    | What each partition has accumulated                             |
| `src/protocol.rs`       | Accumulate → upload → commit, as a state machine                |
| `src/pipeline.rs`       | What takes the machine's steps                                  |
| `src/steps.rs`          | What each step does to the records held                         |
| `src/delivery.rs`       | What a run of steps comes to: see below                         |
| `src/retry.rs`          | How often and how long a failed upload is tried again           |
| `src/sink.rs`           | What is asked of the bucket, and what its replies mean          |
| `src/kafka.rs`          | What is asked of the broker, and the decisions of the loop      |
| `src/text.rs`           | Strings                                                         |
| `src/units.rs`          | Widths that are not zero, and spans of time                     |
| `app/`                  | `main`, the HTTP client, the Kafka client, JSON decoding        |
| `tests/`                | Scenarios, run against fakes and the real Arrow and Parquet     |

## What drives what

A `Pipeline` performs nothing itself. `offer`, `tick` and `flush_all` return an
`Action`: read the clock, put an object, wait, commit an offset, or the answer.
The binary performs it and hands back what came of it. `ConsumeLoop` does the
same for the loop around it. So the rules hold for whatever a sink or a broker
may answer, and are proved for all of it.

## What is proved of a run

However the broker delivers:

- a commit follows the upload of its range, and the object just put is made of
  all that is held of that range; read back, it is those records
- each upload of a range is a superset of the last, until an offset past the
  range is committed or the partition is revoked; that holds across a seek back
- uploads equal commits, partial uploads, failed commits and pending ones

As long as no record before the furthest committed offset of its partition is
delivered again:

- no record is lost: it waits in the buffer or is in the bucket, until its
  partition is revoked
- a commit covers stored records only
- of the ranges of a partition that end before an offset committed of it, one at
  most is kept in memory: that of a record that waited for the commit

The last is what bounds memory. A range that is left before it is complete, say
because its last offset was compacted away, is kept beside the one being filled,
for a seek back. So a partition whose ranges never complete, and which therefore
never commits, keeps all of them until it is revoked.

And where each partition is delivered in order, the committed offset never goes
back, nothing is kept of a range before it, and what is buffered is uncommitted,
so that dropping it on revocation loses nothing.

## Settings

| Variable                                    | Meaning                                                   |
| ------------------------------------------- | --------------------------------------------------------- |
| `KAFKA_BOOTSTRAP_SERVERS`                   | Comma-separated broker list                               |
| `KAFKA_TOPIC_EVENTS` / `_SIGNALS` / `_LOGS` | Topics to consume                                         |
| `KAFKA_CONSUMER_GROUP`                      | The consumer group, owned by this service                 |
| `GCS_BUCKET`                                | Staging bucket                                            |
| `BATCH_OFFSET_RANGE`                        | Optional; range width in offsets, 10000 unless set        |
| `BATCH_MAX_IDLE_MS`                         | Optional; idle time before a partial flush, 30000 unless set |
| `STORAGE_EMULATOR_HOST`                     | Optional; `host:port` of an emulator. Unset: real GCS     |

An optional variable that is set but is not valid UTF-8 is reported as such, and
does not pass for one that is not set. A required one is reported as not set.
