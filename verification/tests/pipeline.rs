//! The rules of accumulate → upload → commit, against a fake sink and broker.

use std::collections::VecDeque;

use arrow::array::StringArray;
use parquet::arrow::arrow_reader::ParquetRecordBatchReaderBuilder;
use parquet::errors::ParquetError;
use pulse_ingestor::calendar::UtcTime;
use pulse_ingestor::envelope::{Envelope, ParsedRecord, RecordBody, RecordMeta};
use pulse_ingestor::parquet_writer::EncodeError;
use pulse_ingestor::pipeline::{failed_upload, Action, Pipeline, PipelineError};
use pulse_ingestor::protocol::{FlushOutcome, Stats};
use pulse_ingestor::retry::RetryPolicy;
use pulse_ingestor::sink::UploadError;
use pulse_ingestor::units::{Duration, NonZeroU64};

// --- fakes ----------------------------------------------------------

#[derive(Default)]
struct FakeSink {
    puts: Vec<(String, Vec<u8>)>,
    fail_with: VecDeque<UploadError>,
}

impl FakeSink {
    fn names(&self) -> Vec<String> {
        self.puts.iter().map(|p| p.0.clone()).collect()
    }

    fn row_counts(&self) -> Vec<usize> {
        self.puts.iter().map(|p| p.1.len()).collect()
    }
}

#[derive(Default)]
struct FakeCommitter {
    commits: Vec<(String, i32, u64)>,
    fail_with: Option<String>,
    failures: u64,
}

impl FakeCommitter {
    fn offsets(&self) -> Vec<u64> {
        self.commits.iter().map(|c| c.2).collect()
    }
}

/// A pipeline with what it talks to.
struct Harness {
    pipeline: Pipeline,
    sink: FakeSink,
    committer: FakeCommitter,
    waits_ms: Vec<u128>,
}

enum Answer {
    Offered(FlushOutcome),
    Swept(Vec<FlushOutcome>),
}

impl Harness {
    fn new(range: u64, idle_ms: u64, retry: RetryPolicy) -> Harness {
        Harness {
            pipeline: Pipeline::new(
                NonZeroU64::new(range).unwrap(),
                Duration::from_millis(idle_ms),
                retry,
            ),
            sink: FakeSink::default(),
            committer: FakeCommitter::default(),
            waits_ms: Vec::new(),
        }
    }

    /// Perform what is asked for until there is an answer.
    fn drive(&mut self, first: Action) -> Result<Answer, PipelineError> {
        let mut action = first;
        loop {
            action = match action {
                Action::ReadClock => self.pipeline.clock_read(now()),
                Action::Put { name, bytes } => {
                    let result = match self.sink.fail_with.pop_front() {
                        Some(e) => Err(e),
                        None => {
                            self.sink.puts.push((name.to_string(), bytes));
                            Ok(())
                        }
                    };
                    self.pipeline.put_done(result)
                }
                Action::Wait { delay } => {
                    self.waits_ms.push(delay.as_millis());
                    self.pipeline.waited()
                }
                Action::Commit {
                    topic,
                    partition,
                    offset,
                } => {
                    let result = match self.committer.fail_with.take() {
                        Some(e) => {
                            self.committer.failures += 1;
                            Err(e)
                        }
                        None => {
                            self.committer.commits.push((topic, partition, offset));
                            Ok(())
                        }
                    };
                    self.pipeline.commit_done(result)
                }
                Action::Offered(outcome) => return Ok(Answer::Offered(outcome)),
                Action::Swept(outcomes) => return Ok(Answer::Swept(outcomes)),
                Action::Failed(e) => return Err(e),
            };
        }
    }

    fn offer(&mut self, record: ParsedRecord, now_ms: u64) -> Result<FlushOutcome, PipelineError> {
        assert!(self.pipeline.can_take(&record));
        assert!(self.pipeline.can_count(0));
        let action = self.pipeline.offer(record, now_ms);
        match self.drive(action)? {
            Answer::Offered(outcome) => Ok(outcome),
            Answer::Swept(_) => panic!("an offer is no sweep"),
        }
    }

    fn swept(&mut self, action: Action) -> Result<Vec<FlushOutcome>, PipelineError> {
        match self.drive(action)? {
            Answer::Swept(outcomes) => Ok(outcomes),
            Answer::Offered(_) => panic!("a sweep is no offer"),
        }
    }

    fn tick(&mut self, now_ms: u64) -> Result<Vec<FlushOutcome>, PipelineError> {
        let action = self.pipeline.tick(now_ms);
        self.swept(action)
    }

    fn flush_all(&mut self, now_ms: u64) -> Result<Vec<FlushOutcome>, PipelineError> {
        let action = self.pipeline.flush_all(now_ms);
        self.swept(action)
    }
}

// --- helpers --------------------------------------------------------

fn now() -> UtcTime {
    UtcTime::from_micros(chrono::Utc::now().timestamp_micros()).unwrap()
}

fn rec(offset: u64) -> ParsedRecord {
    ParsedRecord {
        meta: RecordMeta {
            topic: "ingestion-events".to_owned(),
            partition: 0,
            offset,
            timestamp_ms: Some(1_760_000_000_000),
        },
        body: RecordBody::Parsed(Box::new(Envelope {
            event_id: format!("evt-{offset}"),
            gateway_id: "gw-1".to_owned(),
            received_at: "2026-09-14T10:00:00Z".to_owned(),
            retry_count: 0,
            stream_name: None,
            event_header: None,
            payload: format!(r#"{{"n":{offset}}}"#),
        })),
    }
}

fn pipeline(range: u64, idle_ms: u64) -> Harness {
    Harness::new(range, idle_ms, RetryPolicy::none())
}

fn rows(bytes: &[u8]) -> usize {
    ParquetRecordBatchReaderBuilder::try_new(bytes::Bytes::copy_from_slice(bytes))
        .unwrap()
        .metadata()
        .file_metadata()
        .num_rows() as usize
}

// --- the rules ------------------------------------------------------

#[test]
fn a_complete_range_uploads_once_then_commits_the_next_offset() {
    let mut p = pipeline(4, 1_000);
    for o in 0..4 {
        p.offer(rec(o), 0).unwrap();
    }
    assert_eq!(
        p.sink.names(),
        vec![
            "ingestion-events/dt=".to_owned()
                + &chrono::Utc::now().format("%Y-%m-%d").to_string()
                + "/0-0-3.parquet"
        ]
    );
    // Kafka commits the *next* offset to read.
    assert_eq!(p.committer.offsets(), vec![4]);
    assert_eq!(
        p.pipeline.active_partitions(),
        0,
        "completed range is released"
    );
}

#[test]
fn nothing_is_committed_before_the_range_completes() {
    let mut p = pipeline(4, 1_000);
    for o in 0..3 {
        p.offer(rec(o), 0).unwrap();
    }
    assert!(p.sink.names().is_empty(), "no upload yet");
    assert!(p.committer.offsets().is_empty(), "and certainly no commit");
}

#[test]
fn an_idle_partial_batch_uploads_but_commits_nothing() {
    // The rule that stops us acknowledging offsets we never read.
    let mut p = pipeline(10_000, 100);
    for o in 0..13 {
        p.offer(rec(o), 0).unwrap();
    }
    let out = p.tick(1_000).unwrap();

    assert_eq!(out, vec![FlushOutcome::UploadedWithoutCommit]);
    assert_eq!(p.sink.names().len(), 1);
    assert!(
        p.committer.offsets().is_empty(),
        "committing 10000 here would acknowledge 9987 unread offsets"
    );
}

#[test]
fn a_partial_batch_is_written_under_its_full_range_name() {
    let mut p = pipeline(10_000, 100);
    p.offer(rec(0), 0).unwrap();
    p.tick(1_000).unwrap();

    let name = p.sink.names().into_iter().next().unwrap();
    assert!(
        name.ends_with("/0-0-9999.parquet"),
        "got {name}: a partial batch must use the full range's name so \
         completing it later overwrites in place"
    );
}

#[test]
fn completing_a_partially_flushed_range_re_uploads_a_superset() {
    // The trap: if the partial flush dropped its records, this second
    // upload would contain only offsets 2..=3 and would overwrite — and
    // destroy — the object holding 0..=1.
    let mut p = pipeline(4, 100);
    p.offer(rec(0), 0).unwrap();
    p.offer(rec(1), 0).unwrap();
    p.tick(1_000).unwrap();

    let first_size = p.sink.row_counts()[0];

    p.offer(rec(2), 2_000).unwrap();
    p.offer(rec(3), 2_000).unwrap();

    let names = p.sink.names();
    assert_eq!(names.len(), 2);
    assert_eq!(names[0], names[1], "same object name, overwritten in place");
    assert!(
        p.sink.row_counts()[1] > first_size,
        "the second upload must be a superset, not a replacement"
    );
    assert_eq!(
        p.committer.offsets(),
        vec![4],
        "committed only once complete"
    );
    assert_eq!(rows(&p.sink.puts[0].1), 2);
    assert_eq!(rows(&p.sink.puts[1].1), 4);
}

#[test]
fn an_idle_tick_with_no_new_records_does_not_re_upload() {
    let mut p = pipeline(10_000, 100);
    p.offer(rec(0), 0).unwrap();
    p.tick(1_000).unwrap();
    p.tick(2_000).unwrap();
    assert_eq!(p.sink.names().len(), 1, "nothing changed, nothing to write");
}

#[test]
fn a_revoked_partition_is_dropped_without_committing() {
    let mut p = pipeline(10_000, 100);
    for o in 0..5 {
        p.offer(rec(o), 0).unwrap();
    }
    p.pipeline.revoke(&[("ingestion-events".to_owned(), 0)]);

    assert_eq!(p.pipeline.active_partitions(), 0);
    assert!(
        p.committer.offsets().is_empty(),
        "the next owner re-reads these offsets; committing would lose them"
    );
    assert_eq!(p.pipeline.stats().revocations, 1);
}

#[test]
fn crossing_a_range_boundary_flushes_the_previous_range_first() {
    let mut p = pipeline(4, 100);
    p.offer(rec(0), 0).unwrap();
    // Jump past the end of range [0,3] without completing it. Offset 5
    // lands mid-way through [4,7], so the only upload this can produce is
    // the abandoned range's.
    p.offer(rec(5), 0).unwrap();

    let names = p.sink.names();
    assert_eq!(
        names.len(),
        1,
        "the abandoned range went out before the new one started"
    );
    assert!(names[0].ends_with("/0-0-3.parquet"));
    assert!(
        p.committer.offsets().is_empty(),
        "an abandoned partial range is uploaded, never committed"
    );
}

#[test]
fn partitions_are_batched_independently() {
    let mut p = pipeline(4, 100);
    let mut r = rec(0);
    r.meta.partition = 3;
    p.offer(r, 0).unwrap();
    p.offer(rec(0), 0).unwrap();
    assert_eq!(
        p.pipeline.active_partitions(),
        2,
        "one flood must not flush another"
    );
}

#[test]
fn a_malformed_record_still_advances_the_batch() {
    let mut p = pipeline(2, 100);
    let mut bad = rec(0);
    bad.body = RecordBody::Malformed {
        reason: "boom".to_owned(),
    };
    p.offer(bad, 0).unwrap();
    p.offer(rec(1), 0).unwrap();

    assert_eq!(p.sink.names().len(), 1);
    assert_eq!(
        p.committer.offsets(),
        vec![2],
        "the bad offset is not skipped"
    );
    assert_eq!(p.pipeline.stats().malformed, 1);
}

#[test]
fn an_auth_failure_aborts_without_committing() {
    let mut p = pipeline(2, 100);
    p.sink
        .fail_with
        .push_back(UploadError::Auth("401".to_owned()));

    p.offer(rec(0), 0).unwrap();
    let err = match p.offer(rec(1), 0).unwrap_err() {
        PipelineError::Upload(e) => failed_upload(&e),
        other => panic!("not an upload failure: {other:?}"),
    };

    assert!(err.contains("not retrying"));
    assert_eq!(err, "upload rejected, not retrying: 401");
    assert!(
        p.committer.offsets().is_empty(),
        "a failed upload must never be followed by a commit"
    );
}

#[test]
fn a_retryable_failure_is_retried_and_then_succeeds() {
    let mut p = Harness::new(
        2,
        100,
        RetryPolicy {
            max_attempts: 3,
            base_delay: Duration::zero(),
        },
    );
    p.sink
        .fail_with
        .push_back(UploadError::Retryable("503".to_owned()));

    p.offer(rec(0), 0).unwrap();
    p.offer(rec(1), 0).unwrap();

    assert_eq!(p.sink.names().len(), 1, "the retry succeeded");
    assert_eq!(p.committer.offsets(), vec![2]);
}

#[test]
fn flush_all_uploads_partials_at_shutdown_without_committing_them() {
    let mut p = pipeline(10_000, 60_000);
    p.offer(rec(0), 0).unwrap();
    let out = p.flush_all(1).unwrap();

    assert_eq!(out, vec![FlushOutcome::UploadedWithoutCommit]);
    assert_eq!(p.sink.names().len(), 1);
    assert!(p.committer.offsets().is_empty());
}

// --- what each call answers ------------------------------------------

#[test]
fn an_offer_answers_with_what_its_flush_did() {
    let mut p = pipeline(2, 100);
    assert_eq!(p.offer(rec(4), 0).unwrap(), FlushOutcome::Nothing);
    assert_eq!(p.offer(rec(5), 0).unwrap(), FlushOutcome::Committed(6));
    // A record that ends its range alone.
    assert_eq!(p.offer(rec(7), 0).unwrap(), FlushOutcome::Committed(8));
    assert_eq!(
        p.pipeline.stats(),
        Stats {
            records: 3,
            malformed: 0,
            uploads: 2,
            commits: 2,
            partial_uploads: 0,
            revocations: 0,
        }
    );
}

#[test]
fn a_record_that_crosses_into_the_last_offset_of_a_range_flushes_both() {
    let mut p = pipeline(4, 100);
    p.offer(rec(0), 0).unwrap();
    assert_eq!(p.offer(rec(7), 0).unwrap(), FlushOutcome::Committed(8));
    assert_eq!(p.sink.names().len(), 2);
    assert_eq!(p.pipeline.stats().partial_uploads, 1);
    assert_eq!(p.pipeline.stats().commits, 1);
}

#[test]
fn a_new_range_replaces_one_that_was_already_uploaded() {
    let mut p = pipeline(4, 100);
    p.offer(rec(0), 0).unwrap();
    p.tick(1_000).unwrap();
    p.offer(rec(5), 1_000).unwrap();
    assert_eq!(p.sink.names().len(), 1, "nothing new in the old range");
    assert_eq!(p.pipeline.active_partitions(), 1);
    let out = p.flush_all(2_000).unwrap();
    assert_eq!(out, vec![FlushOutcome::UploadedWithoutCommit]);
    assert!(p.sink.names()[1].ends_with("/0-4-7.parquet"));
    assert_eq!(rows(&p.sink.puts[1].1), 1);
}

#[test]
fn a_failed_boundary_flush_leaves_the_new_record_out() {
    let mut p = pipeline(4, 100);
    p.offer(rec(0), 0).unwrap();
    p.sink
        .fail_with
        .push_back(UploadError::Permanent("404".to_owned()));
    match p.offer(rec(5), 0).unwrap_err() {
        PipelineError::Upload(e) => {
            assert_eq!(failed_upload(&e), "permanent upload failure: 404");
        }
        other => panic!("not an upload failure: {other:?}"),
    }
    assert_eq!(p.pipeline.stats().records, 2, "it was seen all the same");
    p.flush_all(0).unwrap();
    assert!(p.sink.names()[0].ends_with("/0-0-3.parquet"));
    assert_eq!(p.sink.names().len(), 1);
}

#[test]
fn a_failed_commit_is_made_good_by_the_next_flush() {
    let mut p = pipeline(2, 100);
    p.committer.fail_with = Some("broker gone".to_owned());
    p.offer(rec(0), 0).unwrap();
    match p.offer(rec(1), 0).unwrap_err() {
        PipelineError::Commit(m) => assert_eq!(m, "broker gone"),
        other => panic!("not a commit failure: {other:?}"),
    }
    assert_eq!(p.pipeline.active_partitions(), 1, "the batch stays");
    assert_eq!(p.pipeline.stats().uploads, 1);
    assert_eq!(p.pipeline.stats().commits, 0);

    let out = p.tick(1_000).unwrap();
    assert_eq!(out, vec![FlushOutcome::Committed(2)]);
    assert_eq!(p.sink.names()[0], p.sink.names()[1]);
    assert_eq!(p.pipeline.active_partitions(), 0);
}

#[test]
fn attempts_are_limited_and_waits_double() {
    let mut p = Harness::new(1, 100, RetryPolicy::default());
    for _ in 0..5 {
        p.sink
            .fail_with
            .push_back(UploadError::Retryable("503".to_owned()));
    }
    match p.offer(rec(0), 0).unwrap_err() {
        PipelineError::Upload(e) => {
            assert_eq!(failed_upload(&e), "retryable upload failure: 503");
        }
        other => panic!("not an upload failure: {other:?}"),
    }
    assert_eq!(p.waits_ms, vec![250, 500, 1_000, 2_000]);
    assert!(p.sink.fail_with.is_empty(), "five attempts, no more");
    assert!(p.committer.offsets().is_empty());
}

#[test]
fn a_permanent_failure_is_not_retried() {
    let mut p = Harness::new(1, 100, RetryPolicy::default());
    p.sink
        .fail_with
        .push_back(UploadError::Permanent("400".to_owned()));
    assert!(p.offer(rec(0), 0).is_err());
    assert!(p.waits_ms.is_empty());
    assert!(p.sink.names().is_empty());
}

#[test]
fn a_batch_that_cannot_be_encoded_is_not_uploaded() {
    let mut p = pipeline(1, 100);
    assert!(matches!(p.pipeline.offer(rec(0), 0), Action::ReadClock));
    let failure = EncodeError::File(ParquetError::General("no".to_owned()));
    match p.pipeline.begin_upload(now(), Err(failure)) {
        Action::Failed(PipelineError::Encode(EncodeError::File(_))) => {}
        other => panic!("not an encoding failure: {other:?}"),
    }
    assert_eq!(p.pipeline.active_partitions(), 1, "the record stays");
    assert_eq!(p.flush_all(0).unwrap(), vec![FlushOutcome::Committed(1)]);
}

#[test]
fn an_object_is_put_as_it_was_encoded_under_the_day_of_writing() {
    let mut p = pipeline(10, 100);
    p.pipeline.offer(rec(12), 0);
    assert!(matches!(p.pipeline.flush_all(0), Action::ReadClock));
    let then = UtcTime::from_micros(1_709_251_199_999_999).unwrap();
    match p.pipeline.begin_upload(then, Ok(vec![1, 2, 3])) {
        Action::Put { name, bytes } => {
            assert_eq!(
                name.as_str(),
                "ingestion-events/dt=2024-02-29/0-10-19.parquet"
            );
            assert_eq!(bytes, vec![1, 2, 3]);
        }
        other => panic!("not a put: {other:?}"),
    }
}

#[test]
fn a_tick_flushes_every_quiet_partition_and_no_other() {
    let mut p = pipeline(10_000, 100);
    for partition in 0..3 {
        let mut r = rec(0);
        r.meta.partition = partition;
        p.offer(r, 0).unwrap();
    }
    let mut fresh = rec(0);
    fresh.meta.topic = "ingestion-logs".to_owned();
    p.offer(fresh, 950).unwrap();

    assert_eq!(
        p.tick(1_000).unwrap(),
        vec![FlushOutcome::UploadedWithoutCommit; 3]
    );
    let mut names = p.sink.names();
    names.sort();
    for (partition, name) in names.iter().enumerate() {
        assert!(name.ends_with(&format!("/{partition}-0-9999.parquet")));
    }
    assert_eq!(p.tick(1_049).unwrap(), vec![]);
    assert_eq!(
        p.tick(1_050).unwrap(),
        vec![FlushOutcome::UploadedWithoutCommit]
    );
}

#[test]
fn a_clock_that_goes_backwards_is_no_idle_time() {
    let mut p = pipeline(10_000, 100);
    p.offer(rec(0), 5_000).unwrap();
    assert_eq!(p.tick(0).unwrap(), vec![]);
}

#[test]
fn a_sweep_stops_at_the_first_failure() {
    let mut p = pipeline(10_000, 100);
    p.offer(rec(0), 0).unwrap();
    let mut other = rec(0);
    other.meta.partition = 1;
    p.offer(other, 0).unwrap();
    p.sink
        .fail_with
        .push_back(UploadError::Auth("401".to_owned()));
    assert!(p.flush_all(0).is_err());
    assert!(p.sink.names().is_empty());
    assert_eq!(p.flush_all(0).unwrap().len(), 2, "both still wait");
}

#[test]
fn revoking_what_is_not_held_counts_for_nothing() {
    let mut p = pipeline(10_000, 100);
    p.offer(rec(0), 0).unwrap();
    p.pipeline.revoke(&[
        ("ingestion-events".to_owned(), 1),
        ("ingestion-logs".to_owned(), 0),
    ]);
    assert_eq!(p.pipeline.stats().revocations, 0);
    let key = ("ingestion-events".to_owned(), 0);
    p.pipeline.revoke(&[key.clone(), key]);
    assert_eq!(p.pipeline.stats().revocations, 1);
    assert_eq!(p.pipeline.active_partitions(), 0);
}

#[test]
fn a_range_read_again_after_a_revocation_targets_the_same_object() {
    let mut p = pipeline(4, 100);
    p.offer(rec(0), 0).unwrap();
    p.flush_all(0).unwrap();
    p.pipeline.revoke(&[("ingestion-events".to_owned(), 0)]);
    for o in 0..4 {
        p.offer(rec(o), 1).unwrap();
    }
    let names = p.sink.names();
    assert_eq!(names.len(), 2);
    assert_eq!(names[0], names[1]);
    assert_eq!(rows(&p.sink.puts[1].1), 4);
    assert_eq!(p.committer.offsets(), vec![4]);
}

#[test]
fn the_last_offset_of_all_cannot_be_taken() {
    let p = pipeline(4, 100);
    assert!(!p.pipeline.can_take(&rec(u64::MAX)));
    assert!(p.pipeline.can_take(&rec(u64::MAX - 1)));
    assert!(p.pipeline.can_count(usize::MAX));
}

// --- seeking back -----------------------------------------------------

/// The event ids in the last object whose name ends so.
fn last_put(p: &Harness, suffix: &str) -> Vec<String> {
    let put = p.sink.puts.iter().rev().find(|put| put.0.ends_with(suffix));
    event_ids(&put.expect("no such object").1)
}

#[test]
fn a_seek_back_goes_on_from_what_was_uploaded() {
    // The trap: starting the range afresh would overwrite the object that
    // holds offset 0 with one that holds offset 1 alone.
    let mut p = pipeline(4, 100);
    for o in [0, 5, 1, 6] {
        p.offer(rec(o), 0).unwrap();
    }
    assert_eq!(last_put(&p, "/0-0-3.parquet"), vec!["evt-0", "evt-1"]);
    assert_eq!(last_put(&p, "/0-4-7.parquet"), vec!["evt-5"]);
    assert_eq!(p.pipeline.active_partitions(), 1, "one partition, two ranges");
    p.flush_all(0).unwrap();
    assert_eq!(last_put(&p, "/0-4-7.parquet"), vec!["evt-5", "evt-6"]);
    assert!(p.committer.offsets().is_empty());
    let s = p.pipeline.stats();
    assert_eq!((s.uploads, s.partial_uploads, s.commits), (4, 4, 0));
}

#[test]
fn a_range_can_be_completed_after_a_seek_back() {
    let mut p = pipeline(4, 100);
    for o in [0, 1, 5, 2, 3] {
        p.offer(rec(o), 0).unwrap();
    }
    assert_eq!(
        last_put(&p, "/0-0-3.parquet"),
        vec!["evt-0", "evt-1", "evt-2", "evt-3"]
    );
    assert_eq!(p.committer.offsets(), vec![4]);
    // The range that was left further on is not committed, and still there.
    p.offer(rec(6), 0).unwrap();
    p.offer(rec(7), 0).unwrap();
    assert_eq!(
        last_put(&p, "/0-4-7.parquet"),
        vec!["evt-5", "evt-6", "evt-7"]
    );
    assert_eq!(p.committer.offsets(), vec![4, 8]);
}

#[test]
fn a_range_that_was_left_is_let_go_once_an_offset_past_it_is_committed() {
    let mut p = pipeline(4, 100);
    for o in [0, 4, 5, 6, 7] {
        p.offer(rec(o), 0).unwrap();
    }
    assert_eq!(p.committer.offsets(), vec![8]);
    assert_eq!(p.pipeline.active_partitions(), 0);
    // From before the committed offset: nothing is remembered of its range.
    p.offer(rec(1), 0).unwrap();
    p.flush_all(0).unwrap();
    assert_eq!(last_put(&p, "/0-0-3.parquet"), vec!["evt-1"]);
}

#[test]
fn a_record_that_waits_for_a_commit_finds_its_range_as_it_was() {
    let mut p = pipeline(4, 100);
    for o in [0, 5, 6] {
        p.offer(rec(o), 0).unwrap();
    }
    p.committer.fail_with = Some("broker gone".to_owned());
    assert!(p.offer(rec(7), 0).is_err());
    // The flush that makes the commit good is for a record of the other range.
    p.offer(rec(1), 0).unwrap();
    assert_eq!(p.committer.offsets(), vec![8]);
    p.flush_all(0).unwrap();
    assert_eq!(last_put(&p, "/0-0-3.parquet"), vec!["evt-0", "evt-1"]);
}

#[test]
fn a_revocation_drops_the_ranges_that_were_left_too() {
    let mut p = pipeline(4, 100);
    p.offer(rec(0), 0).unwrap();
    p.offer(rec(5), 0).unwrap();
    p.pipeline.revoke(&[("ingestion-events".to_owned(), 0)]);
    assert_eq!(p.pipeline.stats().revocations, 1, "one partition, once");
    assert_eq!(p.pipeline.active_partitions(), 0);
    let puts = p.sink.puts.len();
    assert!(p.flush_all(0).unwrap().is_empty());
    assert_eq!(p.sink.puts.len(), puts, "dropped, not flushed");
    p.offer(rec(1), 0).unwrap();
    p.flush_all(0).unwrap();
    assert_eq!(last_put(&p, "/0-0-3.parquet"), vec!["evt-1"]);
}

// --- sweeps -----------------------------------------------------------

#[test]
fn a_second_sweep_with_nothing_new_does_nothing() {
    let mut p = pipeline(4, 100);
    for partition in 0..3 {
        let mut r = rec(0);
        r.meta.partition = partition;
        p.offer(r, 0).unwrap();
    }
    assert_eq!(p.tick(1_000).unwrap().len(), 3);
    assert!(p.tick(1_000).unwrap().is_empty());
    assert!(p.flush_all(1_000).unwrap().is_empty());
    assert_eq!(p.sink.puts.len(), 3);

    p.offer(rec(1), 1_000).unwrap();
    assert_eq!(p.flush_all(1_000).unwrap().len(), 1);
    assert!(p.flush_all(1_000).unwrap().is_empty());
    assert_eq!(p.sink.puts.len(), 4);
}

#[test]
fn a_revocation_counts_each_partition_that_held_a_batch_once() {
    let mut p = pipeline(4, 100);
    for partition in 0..3 {
        let mut r = rec(0);
        r.meta.partition = partition;
        p.offer(r, 0).unwrap();
    }
    let key = |partition: i32| ("ingestion-events".to_owned(), partition);
    p.pipeline
        .revoke(&[key(0), key(2), key(0), key(7), key(2)]);
    assert_eq!(p.pipeline.stats().revocations, 2);
    assert_eq!(p.pipeline.active_partitions(), 1);
}

// --- a long run -------------------------------------------------------

/// The event ids in an object.
fn event_ids(bytes: &[u8]) -> Vec<String> {
    let reader = ParquetRecordBatchReaderBuilder::try_new(bytes::Bytes::copy_from_slice(bytes))
        .unwrap()
        .build()
        .unwrap();
    let mut ids = Vec::new();
    for batch in reader {
        let batch = batch.unwrap();
        let column = batch
            .column_by_name("event_id")
            .unwrap()
            .as_any()
            .downcast_ref::<StringArray>()
            .unwrap();
        ids.extend(column.iter().map(|id| id.unwrap().to_owned()));
    }
    ids
}

#[test]
fn no_record_is_lost_in_a_long_run_with_failures() {
    let mut p = Harness::new(5, 40, RetryPolicy::none());
    let mut next = [0_u64; 3];
    let mut accepted: Vec<Vec<u64>> = vec![Vec::new(); 3];
    let mut seed: u64 = 12_345;
    let mut roll = |n: u64| {
        seed = seed.wrapping_mul(6_364_136_223_846_793_005).wrapping_add(1);
        (seed >> 33) % n
    };
    for now_ms in 0..600 {
        if roll(9) == 0 {
            p.sink
                .fail_with
                .push_back(UploadError::Retryable("503".to_owned()));
        }
        if roll(13) == 0 {
            p.committer.fail_with = Some("broker gone".to_owned());
        }
        let partition = roll(3) as usize;
        if roll(7) == 0 {
            let _ = p.tick(now_ms);
        }
        // Offsets grow, with gaps.
        let offset = next[partition] + roll(3);
        let mut r = rec(offset);
        r.meta.partition = partition as i32;
        let held = p.pipeline.stats();
        // Where the call failed, the record may or may not have been taken in.
        if p.offer(r, now_ms).is_ok() {
            accepted[partition].push(offset);
        }
        next[partition] = offset + 1;
        assert_eq!(p.pipeline.stats().records, held.records + 1);
    }
    p.sink.fail_with.clear();
    p.committer.fail_with = None;
    p.flush_all(10_000).unwrap();

    // The bucket holds the last object put at each name.
    let mut bucket = std::collections::HashMap::new();
    for (name, bytes) in &p.sink.puts {
        bucket.insert(name.clone(), bytes.clone());
    }
    for (partition, offsets) in accepted.iter().enumerate() {
        let stored: Vec<String> = bucket
            .iter()
            .filter(|(name, _)| name.contains(&format!("/{partition}-")))
            .flat_map(|(_, bytes)| event_ids(bytes))
            .collect();
        for offset in offsets {
            assert!(
                stored.contains(&format!("evt-{offset}")),
                "offset {offset} of partition {partition} is gone"
            );
        }
    }
    // Committed offsets only grow.
    for partition in 0..3 {
        let commits: Vec<u64> = p
            .committer
            .commits
            .iter()
            .filter(|c| c.1 == partition)
            .map(|c| c.2)
            .collect();
        assert!(commits.windows(2).all(|w| w[0] < w[1]));
        assert!(commits.iter().all(|c| c % 5 == 0));
    }
    assert!(accepted.iter().all(|offsets| offsets.len() > 100));
    let s = p.pipeline.stats();
    assert!(p.committer.failures > 0);
    assert_eq!(
        s.uploads,
        s.commits + s.partial_uploads + p.committer.failures,
        "no commit is on its way"
    );
}

// --- retries ----------------------------------------------------------

#[test]
fn a_policy_says_how_long_to_wait() {
    let policy = RetryPolicy::default();
    assert_eq!(policy.max_attempts, 5);
    assert_eq!(policy.delay(1).unwrap().as_millis(), 250);
    assert_eq!(policy.delay(2).unwrap().as_millis(), 500);
    assert_eq!(policy.delay(32).unwrap().as_millis(), 250 << 31);
    assert_eq!(
        policy.delay(33).unwrap().as_millis(),
        250 * u32::MAX as u128,
        "the factor stops growing there"
    );
    assert!(policy.delays_fit());
    assert_eq!(RetryPolicy::none().max_attempts, 1);
    assert_eq!(RetryPolicy::none().base_delay.as_nanos(), 0);
}

#[test]
fn a_policy_that_cannot_wait_so_long_says_so() {
    let century = Duration::from_millis(u64::MAX);
    let policy = RetryPolicy {
        max_attempts: 40,
        base_delay: century,
    };
    assert!(policy.delay(1).is_some());
    assert!(policy.delay(39).is_none());
    assert!(!policy.delays_fit());
    assert!(RetryPolicy {
        max_attempts: 2,
        base_delay: century,
    }
    .delays_fit());
}
