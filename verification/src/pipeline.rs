//! Drives records into batches, uploads them, and commits, in that order.
//!
//! A [`Pipeline`] does no I/O of its own. Each call returns an [`Action`]: what
//! has to be done next, or the answer. Whoever drives the pipeline performs the
//! action, hands back what came of it, and goes on until it gets the answer:
//!
//! | action              | handed back through                |
//! |---------------------|------------------------------------|
//! | [`Action::ReadClock`] | [`Pipeline::clock_read`]         |
//! | [`Action::Put`]       | [`Pipeline::put_done`]           |
//! | [`Action::Wait`]      | [`Pipeline::waited`]             |
//! | [`Action::Commit`]    | [`Pipeline::commit_done`]        |
//!
//! The rules that keep that order safe are stated in [`crate::protocol`], and
//! what they are good for in [`crate::delivery`].

use vstd::pervasive::unreached;
use vstd::prelude::*;

use crate::batch_table::{BatchTable, PartitionBatcher, TableKey, Wanted};
use crate::batching::{BatchRange, ObjectName};
use crate::calendar::UtcTime;
use crate::envelope::ParsedRecord;
use crate::parquet_writer::{write_batch, EncodeError};
use crate::protocol::{FlushOutcome, Stats};
use crate::retry::RetryPolicy;
use crate::sink::UploadError;
use crate::units::{clamp_millis, Duration, NonZeroU64};

verus! {

use crate::batch_table::{key_views, lists, range_view, Key};
use crate::batching::lemma_range_is_its_boundaries;
use crate::parquet_writer::{fits, reads_back, staged_file};
use crate::protocol::{
    admissible, awaited_range, batch_for, begin, commit_step, enabled, every_step_keeps_order,
    goal_ok, initial, inv, left_after, lemma_complete_ends_early, lemma_done_after_commit,
    lemma_revoke, put_step, revoke_all, revoke_one, settle, step, sweep_step, take_in, ActionView,
    ErrorView, Event, GoalView, PipelineView, StageView, TaskView,
};
use crate::sink::upload_error_text;
use crate::units::clamped_millis;

// ─── What goes in and out ───────────────────────────────────────────────────

/// Why a call failed.
#[derive(Debug)]
pub enum PipelineError {
    /// The batch could not be encoded.
    Encode(EncodeError),
    /// The upload failed for good.
    Upload(UploadError),
    /// The commit failed.
    Commit(String),
}

impl View for PipelineError {
    type V = ErrorView;

    open spec fn view(&self) -> ErrorView {
        match self {
            PipelineError::Encode(_) => ErrorView::Encode,
            PipelineError::Upload(e) => ErrorView::Upload(*e),
            PipelineError::Commit(complaint) => ErrorView::Commit(complaint@),
        }
    }
}

/// The text of an upload failure. A rejected upload says that it is not tried
/// again.
pub open spec fn failed_upload_text(e: UploadError) -> Seq<char> {
    match e {
        UploadError::Auth(m) => "upload rejected, not retrying: "@ + m@,
        _ => upload_error_text(e),
    }
}

/// The text of an upload failure.
pub fn failed_upload(e: &UploadError) -> (r: String)
    ensures
        r@ == failed_upload_text(*e),
{
    match e {
        UploadError::Auth(m) => {
            let mut out: String = String::new();
            out.push_str("upload rejected, not retrying: ");
            out.push_str(m.as_str());
            assert(out@ =~= failed_upload_text(*e));
            out
        },
        _ => e.to_string(),
    }
}

/// What has to be done next, or the answer.
#[derive(Debug)]
pub enum Action {
    /// Read the clock.
    ReadClock,
    /// Put `bytes` at `name`, overwriting whatever is there.
    Put { name: ObjectName, bytes: Vec<u8> },
    /// Pause for `delay`.
    Wait { delay: Duration },
    /// Record with the broker that everything before `offset` is durably
    /// stored. `offset` is the *next offset to read*, Kafka's convention.
    Commit { topic: String, partition: i32, offset: u64 },
    /// A record was taken in; this is what came of it.
    Offered(FlushOutcome),
    /// A sweep over partitions is over; these are its outcomes.
    Swept(Vec<FlushOutcome>),
    /// The call failed.
    Failed(PipelineError),
}

impl View for Action {
    type V = ActionView;

    open spec fn view(&self) -> ActionView {
        match self {
            Action::ReadClock => ActionView::ReadClock,
            Action::Put { name, bytes } => ActionView::Put { name: name@, bytes: bytes@ },
            Action::Wait { delay } => ActionView::Wait { delay: delay@ },
            Action::Commit { topic, partition, offset } => ActionView::Commit {
                topic: topic@,
                partition: *partition,
                offset: *offset,
            },
            Action::Offered(outcome) => ActionView::Offered(*outcome),
            Action::Swept(outcomes) => ActionView::Swept(outcomes@),
            Action::Failed(e) => ActionView::Failed(e@),
        }
    }
}

// ─── State ──────────────────────────────────────────────────────────────────

/// What happens once the flush in progress has succeeded.
enum Goal {
    /// The record that started the next range is taken in.
    Admit(ParsedRecord),
    /// The outcome is the answer.
    Answer,
    /// The other partitions are flushed, and all outcomes are the answer.
    Sweep { rest: Vec<(String, i32)>, outcomes: Vec<FlushOutcome> },
}

impl View for Goal {
    type V = GoalView;

    closed spec fn view(&self) -> GoalView {
        match self {
            Goal::Admit(record) => GoalView::Admit(*record),
            Goal::Answer => GoalView::Answer,
            Goal::Sweep { rest, outcomes } => GoalView::Sweep {
                rest: key_views(rest@),
                outcomes: outcomes@,
            },
        }
    }
}

/// What the flush in progress waits for.
enum Stage {
    AwaitClock,
    AwaitPut { name: ObjectName, bytes: Vec<u8>, attempt: u32 },
    AwaitRetry { name: ObjectName, bytes: Vec<u8>, attempt: u32 },
    AwaitCommit { offset: u64 },
}

impl View for Stage {
    type V = StageView;

    closed spec fn view(&self) -> StageView {
        match self {
            Stage::AwaitClock => StageView::AwaitClock,
            Stage::AwaitPut { name, bytes, attempt } => StageView::AwaitPut {
                name: name@,
                bytes: bytes@,
                attempt: *attempt,
            },
            Stage::AwaitRetry { name, bytes, attempt } => StageView::AwaitRetry {
                name: name@,
                bytes: bytes@,
                attempt: *attempt,
            },
            Stage::AwaitCommit { offset } => StageView::AwaitCommit { offset: *offset },
        }
    }
}

/// A flush in progress.
struct Task {
    key: (String, i32),
    now_ms: u64,
    goal: Goal,
    stage: Stage,
}

impl View for Task {
    type V = TaskView;

    closed spec fn view(&self) -> TaskView {
        TaskView { key: self.key@, now_ms: self.now_ms, goal: self.goal@, stage: self.stage@ }
    }
}

/// The view of an optional task.
spec fn task_view(task: Option<Task>) -> Option<TaskView> {
    match task {
        Some(t) => Some(t@),
        None => None,
    }
}

/// Drives records into batches, uploads them, and commits, in that order.
pub struct Pipeline {
    range_size: NonZeroU64,
    idle_ms: u64,
    retry: RetryPolicy,
    /// The range that each partition is filling.
    batches: BatchTable<(String, i32)>,
    /// The ranges that were left before they were committed.
    left: BatchTable<((String, i32), BatchRange)>,
    stats: Stats,
    task: Option<Task>,
}

impl View for Pipeline {
    type V = PipelineView;

    closed spec fn view(&self) -> PipelineView {
        PipelineView {
            range_size: self.range_size@,
            idle_ms: self.idle_ms,
            max_attempts: self.retry.max_attempts,
            base_delay: self.retry.base_delay@,
            batches: self.batches@,
            left: self.left@,
            stats: self.stats,
            task: task_view(self.task),
        }
    }
}

/// The file, where there is one.
pub open spec fn encoded_view(encoded: Result<Vec<u8>, EncodeError>) -> Option<Seq<u8>> {
    match encoded {
        Ok(bytes) => Some(bytes@),
        Err(_) => None,
    }
}

/// The broker's answer.
pub open spec fn commit_view(result: Result<(), String>) -> Result<(), Seq<char>> {
    match result {
        Ok(_) => Ok(()),
        Err(complaint) => Err(complaint@),
    }
}

/// The bytes, once more.
fn copy_bytes(bytes: &Vec<u8>) -> (r: Vec<u8>)
    ensures
        r@ == bytes@,
{
    let r: Vec<u8> = bytes.clone();
    assert(r@ =~= bytes@);
    r
}

impl Pipeline {
    /// A pipeline that holds nothing yet.
    pub fn new(range_size: NonZeroU64, idle: Duration, retry: RetryPolicy) -> (r: Pipeline)
        ensures
            r@ == initial(
                range_size@,
                clamped_millis((idle@ / 1_000_000) as int) as u64,
                retry.max_attempts,
                retry.base_delay@,
            ),
            inv(r@),
    {
        let _width: u64 = range_size.get();
        Pipeline {
            range_size,
            idle_ms: clamp_millis(idle.as_millis()),
            retry,
            batches: BatchTable::new(),
            left: BatchTable::new(),
            stats: Stats::default(),
            task: None,
        }
    }

    /// The counters.
    #[must_use]
    pub fn stats(&self) -> (r: Stats)
        ensures
            r == self@.stats,
    {
        self.stats
    }

    /// Number of partitions currently holding buffered records.
    #[must_use]
    pub fn active_partitions(&self) -> (r: usize)
        ensures
            self@.batches.dom().finite(),
            r == self@.batches.dom().len(),
    {
        self.batches.len()
    }

    /// Whether there is room for `record`: no text column of its batch outgrows
    /// what the writer can index, and it is not the very last offset of all.
    pub fn can_take(&self, record: &ParsedRecord) -> (r: bool)
        ensures
            r == (admissible(self@, *record) && record.meta.offset < u64::MAX),
    {
        if record.meta.offset == u64::MAX {
            return false;
        }
        let key: (String, i32) = (record.meta.topic.clone(), record.meta.partition);
        let range: BatchRange = BatchRange::containing(record.meta.offset, self.range_size);
        if let Some(batch) = self.batches.get(&key) {
            let existing: BatchRange = batch.range();
            proof {
                lemma_range_is_its_boundaries(existing, range);
            }
            if existing == range {
                return batch.has_room_for(record);
            }
        }
        match self.left.get(&(key, range)) {
            Some(batch) => batch.has_room_for(record),
            None => PartitionBatcher::new(range, 0).has_room_for(record),
        }
    }

    /// Whether no counter is about to overflow, with `revoked` partitions to be
    /// revoked.
    pub fn can_count(&self, revoked: usize) -> (r: bool)
        ensures
            r == (self@.stats.records < u64::MAX && self@.stats.uploads < u64::MAX
                && self@.stats.revocations + revoked <= u64::MAX),
    {
        self.stats.records < u64::MAX && self.stats.uploads < u64::MAX && revoked as u64 <= u64::MAX
            - self.stats.revocations
    }

    /// Feed one consumed record in.
    ///
    /// May lead to an upload, and if the range is complete, to a commit. Where
    /// the record is outside its partition's current range, and that has not
    /// been uploaded yet, the old range goes out first; if that fails, the
    /// record is not taken in.
    pub fn offer(&mut self, record: ParsedRecord, now_ms: u64) -> (r: Action)
        requires
            inv(old(self)@),
            enabled(old(self)@, Event::Offer { record, now_ms }),
        ensures
            (final(self)@, r@) == step(old(self)@, Event::Offer { record, now_ms }),
            inv(final(self)@),
    {
        proof {
            every_step_keeps_order(self@, Event::Offer { record, now_ms });
        }
        self.stats.records = self.stats.records + 1;
        if record.is_malformed() {
            self.stats.malformed = self.stats.malformed + 1;
        }
        let key: (String, i32) = (record.meta.topic.clone(), record.meta.partition);
        let range: BatchRange = BatchRange::containing(record.meta.offset, self.range_size);
        let over: bool = match self.batches.get(&key) {
            Some(existing) => {
                let current: BatchRange = existing.range();
                proof {
                    lemma_range_is_its_boundaries(current, range);
                }
                current != range && existing.is_dirty()
            },
            None => false,
        };
        if over {
            self.begin_flush(key, now_ms, Goal::Admit(record))
        } else {
            self.take_record(record, now_ms)
        }
    }

    /// Flush any partition that has gone quiet.
    pub fn tick(&mut self, now_ms: u64) -> (r: Action)
        requires
            inv(old(self)@),
            old(self)@.task is None,
        ensures
            sweeps(
                old(self)@,
                now_ms,
                Wanted::Idle { now_ms, idle_ms: old(self)@.idle_ms },
                final(self)@,
                r@,
            ),
            inv(final(self)@),
    {
        let wanted: Wanted = Wanted::Idle { now_ms, idle_ms: self.idle_ms };
        let keys: Vec<(String, i32)> = self.batches.keys(wanted);
        proof {
            lemma_listed_keys(self@, key_views(keys@), wanted, now_ms);
            every_step_keeps_order(self@, Event::Sweep { keys: key_views(keys@), now_ms });
        }
        self.sweep(keys, now_ms, Vec::new())
    }

    /// Upload whatever is buffered, committing only complete ranges.
    ///
    /// Used at shutdown: uploading a partial range is free progress, because
    /// the object is overwritten when the range later completes.
    pub fn flush_all(&mut self, now_ms: u64) -> (r: Action)
        requires
            inv(old(self)@),
            old(self)@.task is None,
        ensures
            sweeps(old(self)@, now_ms, Wanted::Dirty, final(self)@, r@),
            inv(final(self)@),
    {
        let keys: Vec<(String, i32)> = self.batches.keys(Wanted::Dirty);
        proof {
            lemma_listed_keys(self@, key_views(keys@), Wanted::Dirty, now_ms);
            every_step_keeps_order(self@, Event::Sweep { keys: key_views(keys@), now_ms });
        }
        self.sweep(keys, now_ms, Vec::new())
    }

    /// Drop buffered state for partitions we no longer own. The records are
    /// uncommitted, so the next owner will re-read them.
    pub fn revoke(&mut self, partitions: &[(String, i32)])
        requires
            inv(old(self)@),
            enabled(old(self)@, Event::Revoke { keys: key_views(partitions@) }),
        ensures
            final(self)@ == step(old(self)@, Event::Revoke { keys: key_views(partitions@) }).0,
            inv(final(self)@),
    {
        let ghost before = self@;
        let ghost keys = key_views(partitions@);
        let mut i: usize = 0;
        assert(keys.take(0) == Seq::<Key>::empty());
        while i < partitions.len()
            invariant
                i <= partitions.len(),
                inv(before),
                before.task is None,
                keys == key_views(partitions@),
                before.stats.revocations + keys.len() <= u64::MAX,
                self@ == revoke_all(before, keys.take(i as int)),
            decreases partitions.len() - i,
        {
            proof {
                lemma_revoke(before, keys.take(i as int));
                assert(keys.take(i + 1).drop_last() == keys.take(i as int));
                assert(keys.take(i + 1).last() == partitions@[i as int]@);
            }
            let ghost current = self@;
            match self.batches.take(&partitions[i]) {
                Some(_) => {
                    self.stats.revocations = self.stats.revocations + 1;
                },
                None => {},
            }
            self.left.forget(&partitions[i], None, None);
            assert(self@ == revoke_one(current, partitions@[i as int]@));
            i = i + 1;
        }
        proof {
            assert(keys.take(i as int) == keys);
            lemma_revoke(before, keys);
        }
    }

    /// The clock has been read: encode the batch as of `now` and have it
    /// uploaded.
    pub fn clock_read(&mut self, now: UtcTime) -> (r: Action)
        requires
            inv(old(self)@),
            old(self)@.task matches Some(task) && task.stage is AwaitClock,
        ensures
            (final(self)@, r@) == step(
                old(self)@,
                Event::Clock {
                    written_at: now@,
                    encoded: staged_file(
                        old(self)@.batches[old(self)@.task->0.key].records,
                        now@,
                    ),
                },
            ),
            r matches Action::Failed(PipelineError::Encode(e)) ==> e is File,
            r matches Action::Put { bytes, .. } ==> reads_back(
                bytes@,
                old(self)@.batches[old(self)@.task->0.key].records,
                now@,
            ),
            inv(final(self)@),
    {
        let encoded: Result<Vec<u8>, EncodeError> = match &self.task {
            Some(task) => match self.batches.get(&task.key) {
                Some(batch) => write_batch(batch.records(), now),
                None => unreached(),
            },
            None => unreached(),
        };
        self.begin_upload(now, encoded)
    }

    /// The batch has been encoded: have it uploaded under the name that its
    /// range has on the day of writing.
    ///
    /// `now` is the write date, not an event timestamp.
    pub fn begin_upload(&mut self, now: UtcTime, encoded: Result<Vec<u8>, EncodeError>) -> (r:
        Action)
        requires
            inv(old(self)@),
            old(self)@.task matches Some(task) && task.stage is AwaitClock,
        ensures
            (final(self)@, r@) == step(
                old(self)@,
                Event::Clock {
                    written_at: now@,
                    encoded: encoded_view(encoded),
                },
            ),
            encoded matches Err(e) ==> r == Action::Failed(PipelineError::Encode(e)),
            inv(final(self)@),
    {
        proof {
            every_step_keeps_order(
                self@,
                Event::Clock {
                    written_at: now@,
                    encoded: encoded_view(encoded),
                },
            );
        }
        let task: Task = self.task.take().unwrap();
        let bytes: Vec<u8> = match encoded {
            Ok(bytes) => bytes,
            Err(e) => {
                return Action::Failed(PipelineError::Encode(e));
            },
        };
        let range: BatchRange = match self.batches.get(&task.key) {
            Some(batch) => batch.range(),
            None => unreached(),
        };
        let date: String = now.date();
        let name: ObjectName = ObjectName::for_range(
            task.key.0.as_str(),
            task.key.1,
            date.as_str(),
            range,
        );
        let sent: Action = Action::Put { name: name.clone(), bytes: copy_bytes(&bytes) };
        self.task = Some(
            Task {
                key: task.key,
                now_ms: task.now_ms,
                goal: task.goal,
                stage: Stage::AwaitPut { name, bytes, attempt: 1 },
            },
        );
        sent
    }

    /// The sink has answered.
    ///
    /// Auth and permanent failures are not retried: retrying a 401 turns one
    /// misconfiguration into a rate-limit event.
    pub fn put_done(&mut self, result: Result<(), UploadError>) -> (r: Action)
        requires
            inv(old(self)@),
            enabled(old(self)@, Event::PutDone { result }),
        ensures
            (final(self)@, r@) == step(old(self)@, Event::PutDone { result }),
            inv(final(self)@),
    {
        proof {
            every_step_keeps_order(self@, Event::PutDone { result });
        }
        let ghost v = self@;
        let Task { key, now_ms, goal, stage } = self.task.take().unwrap();
        let (name, bytes, attempt): (ObjectName, Vec<u8>, u32) = match stage {
            Stage::AwaitPut { name, bytes, attempt } => (name, bytes, attempt),
            _ => unreached(),
        };
        match result {
            Ok(()) => {
                proof {
                    if v.batches[key@].is_complete() {
                        lemma_complete_ends_early(v, key@);
                    }
                    assert(put_step(self@, v.task->0, name@, bytes@, attempt, Ok(())) == put_step(
                        v,
                        v.task->0,
                        name@,
                        bytes@,
                        attempt,
                        Ok(()),
                    ));
                }
                self.stored(key, now_ms, goal)
            },
            Err(e) => {
                if !e.is_retryable() || attempt >= self.retry.max_attempts {
                    return Action::Failed(PipelineError::Upload(e));
                }
                let delay: Duration = self.retry.delay(attempt).unwrap();
                self.task = Some(
                    Task { key, now_ms, goal, stage: Stage::AwaitRetry { name, bytes, attempt } },
                );
                Action::Wait { delay }
            },
        }
    }

    /// The pause is over: try again.
    pub fn waited(&mut self) -> (r: Action)
        requires
            inv(old(self)@),
            enabled(old(self)@, Event::Waited),
        ensures
            (final(self)@, r@) == step(old(self)@, Event::Waited),
            inv(final(self)@),
    {
        proof {
            every_step_keeps_order(self@, Event::Waited);
        }
        let Task { key, now_ms, goal, stage } = self.task.take().unwrap();
        let (name, bytes, attempt): (ObjectName, Vec<u8>, u32) = match stage {
            Stage::AwaitRetry { name, bytes, attempt } => (name, bytes, attempt),
            _ => unreached(),
        };
        let sent: Action = Action::Put { name: name.clone(), bytes: copy_bytes(&bytes) };
        self.task = Some(
            Task {
                key,
                now_ms,
                goal,
                stage: Stage::AwaitPut { name, bytes, attempt: attempt + 1 },
            },
        );
        sent
    }

    /// The broker has answered.
    pub fn commit_done(&mut self, result: Result<(), String>) -> (r: Action)
        requires
            inv(old(self)@),
            old(self)@.task matches Some(task) && task.stage is AwaitCommit,
        ensures
            (final(self)@, r@) == step(
                old(self)@,
                Event::CommitDone {
                    answer: commit_view(result),
                },
            ),
            inv(final(self)@),
    {
        proof {
            every_step_keeps_order(
                self@,
                Event::CommitDone {
                    answer: commit_view(result),
                },
            );
        }
        let ghost v = self@;
        let Task { key, now_ms, goal, stage } = self.task.take().unwrap();
        let offset: u64 = match stage {
            Stage::AwaitCommit { offset } => offset,
            _ => unreached(),
        };
        match result {
            Ok(()) => {
                self.stats.commits = self.stats.commits + 1;
                let _uploaded = self.batches.take(&key);
                let awaited: Option<BatchRange> = match &goal {
                    Goal::Admit(record) => Some(
                        BatchRange::containing(record.meta.offset, self.range_size),
                    ),
                    _ => None,
                };
                self.left.forget(&key, Some(offset), awaited);
                proof {
                    lemma_done_after_commit(v, offset);
                    assert(range_view(awaited) == awaited_range(v, v.task->0.goal));
                    assert(settle(self@, v.task->0, FlushOutcome::Committed(offset)) == commit_step(
                        v,
                        v.task->0,
                        offset,
                        Ok(()),
                    ));
                }
                self.finish(now_ms, goal, FlushOutcome::Committed(offset))
            },
            Err(complaint) => Action::Failed(PipelineError::Commit(complaint)),
        }
    }

    /// Begin to flush a partition.
    fn begin_flush(&mut self, key: (String, i32), now_ms: u64, goal: Goal) -> (r: Action)
        ensures
            (final(self)@, r@) == begin(old(self)@, key@, now_ms, goal@),
    {
        self.task = Some(Task { key, now_ms, goal, stage: Stage::AwaitClock });
        Action::ReadClock
    }

    /// Take a record in; flush its partition if that completes the range.
    fn take_record(&mut self, record: ParsedRecord, now_ms: u64) -> (r: Action)
        requires
            fits(batch_for(old(self)@, record, now_ms).records.push(record)),
        ensures
            (final(self)@, r@) == take_in(old(self)@, record, now_ms),
    {
        let ghost before = self@;
        let key: (String, i32) = (record.meta.topic.clone(), record.meta.partition);
        let range: BatchRange = BatchRange::containing(record.meta.offset, self.range_size);
        // A range that was left goes on from where it was.
        let aside: Option<PartitionBatcher> = self.left.take(&(key.copied(), range));
        let reopened: PartitionBatcher = match aside {
            Some(batch) => batch,
            None => PartitionBatcher::new(range, now_ms),
        };
        let base: PartitionBatcher = match self.batches.take(&key) {
            Some(existing) => {
                let current: BatchRange = existing.range();
                proof {
                    lemma_range_is_its_boundaries(current, range);
                }
                if current == range {
                    existing
                } else {
                    self.left.put((key.copied(), current), existing);
                    reopened
                }
            },
            None => reopened,
        };
        assert(base@ == batch_for(before, record, now_ms));
        let batch: PartitionBatcher = base.push(record, now_ms);
        let complete: bool = batch.is_complete();
        let ghost pushed = batch@;
        self.batches.put(key.copied(), batch);
        assert(before.batches.remove(key@).insert(key@, pushed) =~= before.batches.insert(
            key@,
            pushed,
        ));
        assert(self.left@ == left_after(before, record));
        self.task = None;
        if complete {
            self.begin_flush(key, now_ms, Goal::Answer)
        } else {
            Action::Offered(FlushOutcome::Nothing)
        }
    }

    /// Flush the partitions in `keys`, one after the other.
    fn sweep(
        &mut self,
        keys: Vec<(String, i32)>,
        now_ms: u64,
        outcomes: Vec<FlushOutcome>,
    ) -> (r: Action)
        ensures
            (final(self)@, r@) == sweep_step(old(self)@, key_views(keys@), now_ms, outcomes@),
    {
        let mut rest: Vec<(String, i32)> = keys;
        if rest.len() == 0 {
            self.task = None;
            Action::Swept(outcomes)
        } else {
            let key: (String, i32) = rest.remove(0);
            assert(key_views(rest@) =~= key_views(keys@).skip(1));
            self.begin_flush(key, now_ms, Goal::Sweep { rest, outcomes })
        }
    }

    /// The flush in progress is over, with success.
    fn finish(&mut self, now_ms: u64, goal: Goal, outcome: FlushOutcome) -> (r: Action)
        requires
            goal matches Goal::Admit(record) ==> fits(
                batch_for(old(self)@, record, now_ms).records.push(record),
            ),
        ensures
            forall|task: TaskView|
                #![trigger settle(old(self)@, task, outcome)]
                task.now_ms == now_ms && task.goal == goal@ ==> (final(self)@, r@) == settle(
                    old(self)@,
                    task,
                    outcome,
                ),
    {
        match goal {
            Goal::Admit(record) => self.take_record(record, now_ms),
            Goal::Answer => {
                self.task = None;
                Action::Offered(outcome)
            },
            Goal::Sweep { rest, outcomes } => {
                let mut outcomes: Vec<FlushOutcome> = outcomes;
                outcomes.push(outcome);
                self.sweep(rest, now_ms, outcomes)
            },
        }
    }

    /// The object is stored: commit where the range is complete, and keep the
    /// records where it is not, so that the next upload of this range is a
    /// superset rather than a replacement.
    fn stored(&mut self, key: (String, i32), now_ms: u64, goal: Goal) -> (r: Action)
        requires
            old(self)@.batches.contains_key(key@),
            old(self)@.stats.uploads < u64::MAX,
            old(self)@.stats.partial_uploads < u64::MAX,
            old(self)@.batches[key@].is_complete() ==> old(self)@.batches[key@].range.end
                < u64::MAX,
            goal_ok(old(self)@, key@, goal@),
        ensures
            forall|task: TaskView, name: Seq<char>, bytes: Seq<u8>, attempt: u32|
                #![trigger put_step(old(self)@, task, name, bytes, attempt, Ok(()))]
                task.key == key@ && task.now_ms == now_ms && task.goal == goal@ ==> (
                    final(self)@,
                    r@,
                ) == put_step(old(self)@, task, name, bytes, attempt, Ok(())),
    {
        let ghost before = self@;
        self.stats.uploads = self.stats.uploads + 1;
        let (complete, range): (bool, BatchRange) = match self.batches.get(&key) {
            Some(batch) => (batch.is_complete(), batch.range()),
            None => unreached(),
        };
        if complete {
            let offset: u64 = range.commit_offset();
            let asked: Action = Action::Commit {
                topic: key.0.clone(),
                partition: key.1,
                offset,
            };
            self.task = Some(Task { key, now_ms, goal, stage: Stage::AwaitCommit { offset } });
            asked
        } else {
            self.stats.partial_uploads = self.stats.partial_uploads + 1;
            let batch: PartitionBatcher = self.batches.take(&key).unwrap();
            let ghost kept = batch@.uploaded(now_ms);
            let ghost k = key@;
            self.batches.put(key, batch.mark_uploaded(now_ms));
            assert(before.batches.remove(k).insert(k, kept) =~= before.batches.insert(k, kept));
            self.finish(now_ms, goal, FlushOutcome::UploadedWithoutCommit)
        }
    }
}

/// Whether a call has begun to flush, in some order, the partitions whose batch
/// is wanted.
pub open spec fn sweeps(
    before: PipelineView,
    now_ms: u64,
    wanted: Wanted,
    after: PipelineView,
    action: ActionView,
) -> bool {
    exists|keys: Seq<Key>|
        #![trigger lists(keys, before.batches, wanted)]
        lists(keys, before.batches, wanted) && (after, action) == step(
            before,
            Event::Sweep { keys, now_ms },
        )
}

/// The listed partitions can be swept where only dirty batches are wanted.
proof fn lemma_listed_keys(
    v: PipelineView,
    keys: Seq<Key>,
    wanted: Wanted,
    now_ms: u64,
)
    requires
        v.task is None,
        lists(keys, v.batches, wanted),
        wanted is Dirty || wanted is Idle,
    ensures
        enabled(v, Event::Sweep { keys, now_ms }),
{
    assert forall|i: int| #![trigger keys[i]] 0 <= i < keys.len() implies v.batches.contains_key(
        keys[i],
    ) && v.batches[keys[i]].dirty by {
        assert(keys.contains(keys[i]));
    }
}

// ─── Laws ───────────────────────────────────────────────────────────────────

/// What the rules are stated of is what is handed out and handed in: every
/// action is seen with the very name, bytes, delay, partition, offset, outcomes
/// and error that it holds.
pub proof fn an_action_is_seen_as_it_is(action: Action)
    ensures
        action is ReadClock <==> action@ is ReadClock,
        action matches Action::Put { name, bytes } ==> action@ == (ActionView::Put {
            name: name@,
            bytes: bytes@,
        }),
        action matches Action::Wait { delay } ==> action@ == (ActionView::Wait { delay: delay@ }),
        action matches Action::Commit { topic, partition, offset } ==> action@
            == (ActionView::Commit { topic: topic@, partition, offset }),
        action matches Action::Offered(outcome) ==> action@ == ActionView::Offered(outcome),
        action matches Action::Swept(outcomes) ==> action@ == ActionView::Swept(outcomes@),
        action matches Action::Failed(PipelineError::Encode(_)) ==> action@ == ActionView::Failed(
            ErrorView::Encode,
        ),
        action matches Action::Failed(PipelineError::Upload(e)) ==> action@ == ActionView::Failed(
            ErrorView::Upload(e),
        ),
        action matches Action::Failed(PipelineError::Commit(complaint)) ==> action@
            == ActionView::Failed(ErrorView::Commit(complaint@)),
{
}

/// The answers of the writer and of the broker are taken as they come.
pub proof fn an_answer_is_seen_as_it_is(
    encoded: Result<Vec<u8>, EncodeError>,
    result: Result<(), String>,
)
    ensures
        encoded matches Ok(bytes) ==> encoded_view(encoded) == Some(bytes@),
        encoded is Err ==> encoded_view(encoded) is None,
        result is Ok ==> commit_view(result) == Ok::<(), Seq<char>>(()),
        result matches Err(complaint) ==> commit_view(result) == Err::<(), Seq<char>>(complaint@),
{
}

/// A failed upload says why, in full; one that was rejected for want of
/// authentication says that it is not retried.
pub proof fn a_failed_upload_says_why(e: UploadError)
    ensures
        e matches UploadError::Auth(m) ==> failed_upload_text(e)
            == "upload rejected, not retrying: "@ + m@,
        e matches UploadError::Retryable(m) ==> failed_upload_text(e)
            == "retryable upload failure: "@ + m@,
        e matches UploadError::Permanent(m) ==> failed_upload_text(e)
            == "permanent upload failure: "@ + m@,
{
}

} // verus!
