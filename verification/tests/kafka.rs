//! The Kafka side: settings, messages, rebalances, the consume loop.

use parquet::arrow::arrow_reader::ParquetRecordBatchReaderBuilder;
use pulse_ingestor::calendar::UtcTime;
use pulse_ingestor::config::{Config, Topics};
use pulse_ingestor::envelope::{ParsedRecord, RecordBody};
use pulse_ingestor::kafka::{
    commit_position, consumer_settings, pre_rebalance, to_record, ConsumeLoop, LoopAction,
    LoopEvent, Phase, RebalanceEvent, Revocation,
};
use pulse_ingestor::pipeline::{Action, Pipeline};
use pulse_ingestor::retry::RetryPolicy;
use pulse_ingestor::units::{Duration, NonZeroU64};
use rdkafka::topic_partition_list::TopicPartitionList;

fn config() -> Config {
    Config {
        bootstrap_servers: "localhost:19092".to_owned(),
        topics: Topics {
            events: "ingestion-events".to_owned(),
            signals: "ingestion-signals".to_owned(),
            logs: "ingestion-logs".to_owned(),
        },
        consumer_group: "test-group".to_owned(),
        batch_offset_range: NonZeroU64::new(10_000).unwrap(),
        batch_max_idle_ms: 30_000,
        gcs_bucket: "pulse-staging-local".to_owned(),
        storage_emulator_host: Some("localhost:4443".to_owned()),
    }
}

fn partitions(tpl: &TopicPartitionList) -> Revocation {
    tpl.elements()
        .iter()
        .map(|e| (e.topic().to_owned(), e.partition()))
        .collect()
}

#[test]
fn revocations_reach_the_pipeline_through_the_channel() {
    // The callback cannot touch the pipeline, so this hop is the
    // only way a revocation gets there. Worth pinning.
    let (tx, rx) = std::sync::mpsc::channel();

    let mut tpl = TopicPartitionList::new();
    tpl.add_partition("ingestion-events", 2);
    if let Some(list) = pre_rebalance(RebalanceEvent::Revoke(partitions(&tpl))) {
        tx.send(list).unwrap();
    }

    let got = rx.try_recv().expect("revocation should have been sent");
    assert_eq!(got, vec![("ingestion-events".to_owned(), 2)]);
}

#[test]
fn an_assignment_is_not_reported_as_a_revocation() {
    let (tx, rx) = std::sync::mpsc::channel();

    let mut tpl = TopicPartitionList::new();
    tpl.add_partition("ingestion-events", 0);
    if let Some(list) = pre_rebalance(RebalanceEvent::Assign(partitions(&tpl))) {
        tx.send(list).unwrap();
    }

    assert!(rx.try_recv().is_err(), "assignment must not drop buffers");
    assert!(pre_rebalance(RebalanceEvent::Error("boom".to_owned())).is_none());
}

#[test]
fn auto_commit_is_forced_off() {
    let settings: Vec<(String, String)> = consumer_settings(&config());
    let expected = [
        ("bootstrap.servers", "localhost:19092"),
        ("group.id", "test-group"),
        ("enable.auto.commit", "false"),
        ("enable.auto.offset.store", "false"),
        ("auto.offset.reset", "earliest"),
        ("max.poll.interval.ms", "600000"),
        ("session.timeout.ms", "45000"),
    ];
    assert_eq!(settings.len(), expected.len());
    for (got, want) in settings.iter().zip(expected) {
        assert_eq!((got.0.as_str(), got.1.as_str()), want);
    }
}

fn tombstone(offset: i64) -> ParsedRecord {
    to_record("ingestion-logs", 3, offset, Some(5), None)
}

#[test]
fn a_message_keeps_its_coordinates() {
    let r = tombstone(42);
    assert_eq!(r.meta.topic, "ingestion-logs");
    assert_eq!(r.meta.partition, 3);
    assert_eq!(r.meta.offset, 42);
    assert_eq!(r.meta.timestamp_ms, Some(5));
    assert!(matches!(r.body, RecordBody::Malformed { .. }));
    assert_eq!(tombstone(i64::MAX).meta.offset, i64::MAX as u64);
    assert_eq!(tombstone(-1001).meta.offset, 0);
}

#[test]
fn an_offset_the_broker_cannot_take_is_refused() {
    assert_eq!(commit_position(0), Ok(0));
    assert_eq!(commit_position(i64::MAX as u64), Ok(i64::MAX));
    assert_eq!(
        commit_position(i64::MAX as u64 + 1),
        Err("offset exceeds i64".to_owned())
    );
}

fn lost(partition: i32) -> Revocation {
    vec![("ingestion-events".to_owned(), partition)]
}

/// No revocation is waiting.
fn none_waiting(turn: &mut ConsumeLoop) -> LoopAction {
    turn.on(LoopEvent::Revocation(None))
}

/// Two revocations are waiting, and are handed on in turn.
fn two_waiting(turn: &mut ConsumeLoop) {
    for partition in [2, 5] {
        match turn.on(LoopEvent::Revocation(Some(lost(partition)))) {
            LoopAction::Revoke(list) => assert_eq!(list, lost(partition)),
            other => panic!("not a revocation: {other:?}"),
        }
    }
}

#[test]
fn the_loop_drains_revocations_before_every_poll() {
    let (mut turn, first) = ConsumeLoop::start();
    assert!(matches!(first, LoopAction::CheckRevocations));
    assert!(matches!(turn.phase(), Phase::Draining));

    two_waiting(&mut turn);
    assert!(matches!(turn.phase(), Phase::Draining));
    assert!(matches!(none_waiting(&mut turn), LoopAction::Poll));
    assert!(matches!(
        turn.on(LoopEvent::Received(tombstone(1))),
        LoopAction::CheckRevocations
    ));
    assert!(matches!(none_waiting(&mut turn), LoopAction::Offer(_)));
    assert!(matches!(
        turn.on(LoopEvent::Done(true)),
        LoopAction::CheckRevocations
    ));
    assert!(matches!(turn.phase(), Phase::Draining));
}

#[test]
fn a_waiting_revocation_comes_before_the_message() {
    let (mut turn, _) = ConsumeLoop::start();
    none_waiting(&mut turn);
    turn.on(LoopEvent::Received(tombstone(7)));
    two_waiting(&mut turn);
    match none_waiting(&mut turn) {
        LoopAction::Offer(r) => assert_eq!(r.meta.offset, 7),
        other => panic!("not an offer: {other:?}"),
    }
    assert!(matches!(turn.phase(), Phase::Working));
}

#[test]
fn a_message_of_the_revoked_partition_starts_afresh() {
    // The revocation is the older of the two: the message belongs to the next
    // assignment, and what was buffered before is read again.
    let mut pipeline = Pipeline::new(
        NonZeroU64::new(4).unwrap(),
        Duration::from_millis(100),
        RetryPolicy::none(),
    );
    pipeline.offer(to_record("ingestion-events", 2, 1, None, None), 0);
    pipeline.offer(to_record("ingestion-events", 2, 2, None, None), 0);

    let (mut turn, _) = ConsumeLoop::start();
    none_waiting(&mut turn);
    turn.on(LoopEvent::Received(to_record(
        "ingestion-events",
        2,
        0,
        None,
        None,
    )));
    match turn.on(LoopEvent::Revocation(Some(lost(2)))) {
        LoopAction::Revoke(list) => pipeline.revoke(&list),
        other => panic!("not a revocation: {other:?}"),
    }
    assert_eq!(pipeline.active_partitions(), 0);
    match none_waiting(&mut turn) {
        LoopAction::Offer(r) => {
            assert_eq!((r.meta.partition, r.meta.offset), (2, 0));
            pipeline.offer(r, 0);
        }
        other => panic!("not an offer: {other:?}"),
    }
    assert_eq!(pipeline.active_partitions(), 1);
    assert_eq!(pipeline.stats().revocations, 1);

    // What goes up is the message alone.
    assert!(matches!(pipeline.flush_all(0), Action::ReadClock));
    let now = UtcTime::from_micros(1_789_387_200_000_000).unwrap();
    match pipeline.clock_read(now) {
        Action::Put { name, bytes } => {
            assert!(name.to_string().ends_with("/2-0-3.parquet"));
            let reader = ParquetRecordBatchReaderBuilder::try_new(bytes::Bytes::from(bytes));
            assert_eq!(reader.unwrap().metadata().file_metadata().num_rows(), 1);
        }
        other => panic!("not a put: {other:?}"),
    }
}

#[test]
fn a_waiting_revocation_comes_before_the_tick() {
    let (mut turn, _) = ConsumeLoop::start();
    none_waiting(&mut turn);
    assert!(matches!(
        turn.on(LoopEvent::Tick),
        LoopAction::CheckRevocations
    ));
    two_waiting(&mut turn);
    assert!(matches!(none_waiting(&mut turn), LoopAction::Tick));
    assert!(matches!(turn.phase(), Phase::Working));
}

#[test]
fn a_partition_revoked_before_shutdown_is_dropped_not_flushed() {
    let (mut turn, _) = ConsumeLoop::start();
    none_waiting(&mut turn);
    assert!(matches!(
        turn.on(LoopEvent::Shutdown(true)),
        LoopAction::CheckRevocations
    ));
    assert!(matches!(turn.phase(), Phase::Leaving));
    two_waiting(&mut turn);
    assert!(matches!(turn.phase(), Phase::Leaving));
    assert!(matches!(none_waiting(&mut turn), LoopAction::FlushAll));
    assert!(matches!(turn.phase(), Phase::Stopping));
}

#[test]
fn a_broker_error_pauses_the_loop_and_does_not_end_it() {
    let (mut turn, _) = ConsumeLoop::start();
    none_waiting(&mut turn);
    match turn.on(LoopEvent::ReceiveFailed) {
        LoopAction::Pause(pause) => assert_eq!(pause.as_millis(), 500),
        other => panic!("not a pause: {other:?}"),
    }
    assert!(matches!(
        turn.on(LoopEvent::Woke),
        LoopAction::CheckRevocations
    ));
}

#[test]
fn a_shutdown_flushes_and_then_ends_the_loop() {
    let (mut turn, _) = ConsumeLoop::start();
    none_waiting(&mut turn);
    // The flag may be written without being raised.
    assert!(matches!(
        turn.on(LoopEvent::Shutdown(false)),
        LoopAction::CheckRevocations
    ));
    assert!(matches!(none_waiting(&mut turn), LoopAction::Poll));
    turn.on(LoopEvent::Shutdown(true));
    assert!(matches!(none_waiting(&mut turn), LoopAction::FlushAll));
    assert!(matches!(turn.on(LoopEvent::Done(true)), LoopAction::Finish));
    assert!(matches!(turn.phase(), Phase::Stopped));
}

#[test]
fn a_failed_call_ends_the_loop() {
    let (mut turn, _) = ConsumeLoop::start();
    none_waiting(&mut turn);
    turn.on(LoopEvent::Tick);
    assert!(matches!(none_waiting(&mut turn), LoopAction::Tick));
    assert!(matches!(turn.on(LoopEvent::Done(false)), LoopAction::Fail));
    assert!(matches!(turn.phase(), Phase::Stopped));

    let (mut leaving, _) = ConsumeLoop::start();
    none_waiting(&mut leaving);
    leaving.on(LoopEvent::Shutdown(true));
    none_waiting(&mut leaving);
    assert!(matches!(
        leaving.on(LoopEvent::Done(false)),
        LoopAction::Fail
    ));
}
