//! The rules of accumulate → upload → commit, as a state machine.
//!
//! Nothing here runs. [`step`] says, for every state of a pipeline and every
//! event, what the next state is and what has to be done next; the pipeline's
//! methods are proved to take exactly these steps.
//!
//! # Rule 1: commit after upload, never before
//!
//! An offset committed ahead of a durable write is silent data loss at the next
//! rebalance. A commit is only ever asked for in answer to a successful put.
//!
//! # Rule 2: a partial batch uploads but does not commit
//!
//! A low-traffic partition flushes on an idle timer, holding (say) offsets
//! `0..=12` of the range `[0, 9999]`. It writes them under the *full range's*
//! name, so completing the range later overwrites in place.
//!
//! Committing after that would acknowledge 9 987 offsets that were never read,
//! so a partial flush commits nothing. Clearing the buffer would let the next
//! upload overwrite the object that held `0..=12` with one that does not, so a
//! partial flush keeps its records, and each later upload of that range is a
//! superset of the last.
//!
//! That goes for a range that is left for another one too. Its records are put
//! aside, and a seek back into the range goes on from them. They are let go
//! once an offset past the range has been committed, or the partition is revoked.
//!
//! What is kept in memory is therefore one range for a partition that completes
//! each range before the next, but not in general: ranges that are left before
//! they are complete are kept until there is a commit past them. A partition
//! whose ranges never complete keeps all of them. The bound is stated in
//! [`crate::delivery`]: of the ranges before a committed offset, one at most.
//!
//! # Rule 3: a revoked partition is dropped, not flushed
//!
//! On revocation the buffered records are uncommitted by construction, so the
//! next owner re-reads them from the last committed offset.

use vstd::prelude::*;

use crate::batching::RangeView;
use crate::envelope::ParsedRecord;
use crate::sink::UploadError;

verus! {

use crate::batch_table::{key_of, without, BatchView, Key, RangeId};
use crate::batching::{every_offset_is_covered, object_name, range_of};
use crate::calendar::utc_date;
use crate::parquet_writer::fits;
use crate::retry::delay_after;
use crate::units::MAX_NANOS;

// ─── States ─────────────────────────────────────────────────────────────────

/// What a flush did, from the caller's point of view.
#[derive(Debug, Clone, Copy, PartialEq, Eq, Structural)]
pub enum FlushOutcome {
    /// Range complete: uploaded, then committed this offset.
    Committed(u64),
    /// Partial range: uploaded, nothing committed, records retained.
    UploadedWithoutCommit,
    /// Nothing to do.
    Nothing,
}

/// Counters worth looking at in a log line.
#[derive(Debug, Clone, Copy, PartialEq, Eq, Structural)]
pub struct Stats {
    pub records: u64,
    pub malformed: u64,
    pub uploads: u64,
    pub commits: u64,
    pub partial_uploads: u64,
    pub revocations: u64,
}

impl Stats {
    /// Nothing counted yet.
    pub open spec fn zero() -> Stats {
        Stats {
            records: 0,
            malformed: 0,
            uploads: 0,
            commits: 0,
            partial_uploads: 0,
            revocations: 0,
        }
    }
}

impl Default for Stats {
    fn default() -> (r: Stats)
        ensures
            r == Stats::zero(),
    {
        Stats {
            records: 0,
            malformed: 0,
            uploads: 0,
            commits: 0,
            partial_uploads: 0,
            revocations: 0,
        }
    }
}

/// What happens once the flush in progress has succeeded.
pub enum GoalView {
    /// The record that started the next range is taken in.
    Admit(ParsedRecord),
    /// The outcome is the answer.
    Answer,
    /// The other partitions are flushed, and all outcomes are the answer.
    Sweep { rest: Seq<Key>, outcomes: Seq<FlushOutcome> },
}

/// What the flush in progress waits for.
pub enum StageView {
    /// The time of writing.
    AwaitClock,
    /// The outcome of putting `bytes` at `name`.
    AwaitPut { name: Seq<char>, bytes: Seq<u8>, attempt: u32 },
    /// The end of the pause before the next attempt.
    AwaitRetry { name: Seq<char>, bytes: Seq<u8>, attempt: u32 },
    /// The outcome of committing `offset`.
    AwaitCommit { offset: u64 },
}

/// A flush in progress.
pub struct TaskView {
    /// The partition being flushed.
    pub key: Key,
    /// When the flush was asked for.
    pub now_ms: u64,
    pub goal: GoalView,
    pub stage: StageView,
}

/// The state of a pipeline.
pub struct PipelineView {
    pub range_size: nat,
    pub idle_ms: u64,
    pub max_attempts: u32,
    /// The wait after the first attempt, in nanoseconds.
    pub base_delay: nat,
    /// The range that each partition is filling.
    pub batches: Map<Key, BatchView>,
    /// The ranges that were left before they were committed, all uploaded.
    pub left: Map<RangeId, BatchView>,
    pub stats: Stats,
    pub task: Option<TaskView>,
}

/// Why a call failed.
pub enum ErrorView {
    /// The batch could not be encoded.
    Encode,
    /// The upload failed for good.
    Upload(UploadError),
    /// The commit failed.
    Commit(Seq<char>),
}

/// What has to be done next, or the answer.
pub enum ActionView {
    /// Read the clock.
    ReadClock,
    /// Put `bytes` at `name`, overwriting whatever is there.
    Put { name: Seq<char>, bytes: Seq<u8> },
    /// Pause for `delay` nanoseconds.
    Wait { delay: nat },
    /// Record that everything before `offset` is durably stored.
    Commit { topic: Seq<char>, partition: i32, offset: u64 },
    /// A record was taken in; this is what came of it.
    Offered(FlushOutcome),
    /// A sweep over partitions is over; these are its outcomes.
    Swept(Seq<FlushOutcome>),
    /// The call failed.
    Failed(ErrorView),
    /// Nothing more to do.
    Quiet,
}

/// What can happen to a pipeline.
pub enum Event {
    /// A record arrives.
    Offer { record: ParsedRecord, now_ms: u64 },
    /// These partitions are to be flushed.
    Sweep { keys: Seq<Key>, now_ms: u64 },
    /// These partitions now belong to someone else.
    Revoke { keys: Seq<Key> },
    /// It is `written_at` microseconds past the epoch, and this is the batch as
    /// written then, where it could be encoded.
    Clock { written_at: int, encoded: Option<Seq<u8>> },
    /// The sink has answered.
    PutDone { result: Result<(), UploadError> },
    /// The pause is over.
    Waited,
    /// The broker has answered.
    CommitDone { answer: Result<(), Seq<char>> },
}

// ─── Steps ──────────────────────────────────────────────────────────────────

/// A pipeline before its first record.
pub open spec fn initial(
    range_size: nat,
    idle_ms: u64,
    max_attempts: u32,
    base_delay: nat,
) -> PipelineView {
    PipelineView {
        range_size,
        idle_ms,
        max_attempts,
        base_delay,
        batches: Map::empty(),
        left: Map::empty(),
        stats: Stats::zero(),
        task: None,
    }
}

/// The range that a record falls into.
pub open spec fn record_range(v: PipelineView, record: ParsedRecord) -> RangeView {
    range_of(record.meta.offset as int, v.range_size as int)
}

/// The batch that a record is added to: its partition's, where that is for the
/// record's range; the one put aside when that range was left; or a fresh one.
pub open spec fn batch_for(v: PipelineView, record: ParsedRecord, now_ms: u64) -> BatchView {
    let key = key_of(record);
    let range = record_range(v, record);
    if v.batches.contains_key(key) && v.batches[key].range == range {
        v.batches[key]
    } else if v.left.contains_key((key, range)) {
        v.left[(key, range)]
    } else {
        BatchView::fresh(range, now_ms)
    }
}

/// The ranges put aside once a record is taken in: its own no longer, and the
/// one that its partition leaves.
pub open spec fn left_after(v: PipelineView, record: ParsedRecord) -> Map<RangeId, BatchView> {
    let key = key_of(record);
    let range = record_range(v, record);
    let others = v.left.remove((key, range));
    if v.batches.contains_key(key) && v.batches[key].range != range {
        others.insert((key, v.batches[key].range), v.batches[key])
    } else {
        others
    }
}

/// Whether the record's partition holds another range that is not uploaded yet.
pub open spec fn crosses_a_boundary(v: PipelineView, record: ParsedRecord) -> bool {
    let key = key_of(record);
    v.batches.contains_key(key) && v.batches[key].range != record_range(v, record)
        && v.batches[key].dirty
}

/// Begin to flush a partition.
pub open spec fn begin(v: PipelineView, key: Key, now_ms: u64, goal: GoalView) -> (
    PipelineView,
    ActionView,
) {
    (
        PipelineView {
            task: Some(TaskView { key, now_ms, goal, stage: StageView::AwaitClock }),
            ..v
        },
        ActionView::ReadClock,
    )
}

/// Take a record in; flush its partition if that completes the range.
pub open spec fn take_in(v: PipelineView, record: ParsedRecord, now_ms: u64) -> (
    PipelineView,
    ActionView,
) {
    let key = key_of(record);
    let batch = batch_for(v, record, now_ms).pushed(record, now_ms);
    let taken = PipelineView {
        batches: v.batches.insert(key, batch),
        left: left_after(v, record),
        task: None,
        ..v
    };
    if batch.is_complete() {
        begin(taken, key, now_ms, GoalView::Answer)
    } else {
        (taken, ActionView::Offered(FlushOutcome::Nothing))
    }
}

/// Count a record.
pub open spec fn counted(stats: Stats, record: ParsedRecord) -> Stats {
    Stats {
        records: (stats.records + 1) as u64,
        malformed: if record.body is Malformed {
            (stats.malformed + 1) as u64
        } else {
            stats.malformed
        },
        ..stats
    }
}

/// A record arrives.
///
/// A record outside the current range means the range is over: completed, or
/// skipped past. Either way the old batch goes out before the new one starts.
pub open spec fn offer_step(v: PipelineView, record: ParsedRecord, now_ms: u64) -> (
    PipelineView,
    ActionView,
) {
    let seen = PipelineView { stats: counted(v.stats, record), ..v };
    if crosses_a_boundary(v, record) {
        begin(seen, key_of(record), now_ms, GoalView::Admit(record))
    } else {
        take_in(seen, record, now_ms)
    }
}

/// Partitions are to be flushed, one after the other.
pub open spec fn sweep_step(
    v: PipelineView,
    keys: Seq<Key>,
    now_ms: u64,
    outcomes: Seq<FlushOutcome>,
) -> (PipelineView, ActionView) {
    if keys.len() == 0 {
        (PipelineView { task: None, ..v }, ActionView::Swept(outcomes))
    } else {
        begin(v, keys[0], now_ms, GoalView::Sweep { rest: keys.skip(1), outcomes })
    }
}

/// One partition now belongs to someone else: whatever is held of it is dropped.
pub open spec fn revoke_one(v: PipelineView, key: Key) -> PipelineView {
    PipelineView {
        batches: v.batches.remove(key),
        left: without(v.left, key, None, None),
        stats: if v.batches.contains_key(key) {
            Stats { revocations: (v.stats.revocations + 1) as u64, ..v.stats }
        } else {
            v.stats
        },
        ..v
    }
}

/// Partitions now belong to someone else.
pub open spec fn revoke_all(v: PipelineView, keys: Seq<Key>) -> PipelineView
    decreases keys.len(),
{
    if keys.len() == 0 {
        v
    } else {
        revoke_one(revoke_all(v, keys.drop_last()), keys.last())
    }
}

/// The flush in progress is over, without success.
pub open spec fn fail(v: PipelineView, error: ErrorView) -> (PipelineView, ActionView) {
    (PipelineView { task: None, ..v }, ActionView::Failed(error))
}

/// The flush in progress is over, with success.
pub open spec fn settle(v: PipelineView, task: TaskView, outcome: FlushOutcome) -> (
    PipelineView,
    ActionView,
) {
    match task.goal {
        GoalView::Admit(record) => take_in(v, record, task.now_ms),
        GoalView::Answer => (PipelineView { task: None, ..v }, ActionView::Offered(outcome)),
        GoalView::Sweep { rest, outcomes } => sweep_step(
            v,
            rest,
            task.now_ms,
            outcomes.push(outcome),
        ),
    }
}

/// Go on waiting for something else.
pub open spec fn at_stage(v: PipelineView, task: TaskView, stage: StageView) -> PipelineView {
    PipelineView { task: Some(TaskView { stage, ..task }), ..v }
}

/// The time of writing is known, and so is the object.
pub open spec fn clock_step(
    v: PipelineView,
    task: TaskView,
    written_at: int,
    encoded: Option<Seq<u8>>,
) -> (PipelineView, ActionView) {
    let name = object_name(
        task.key.0,
        task.key.1 as int,
        utc_date(written_at),
        v.batches[task.key].range,
    );
    match encoded {
        None => fail(v, ErrorView::Encode),
        Some(bytes) => (
            at_stage(v, task, StageView::AwaitPut { name, bytes, attempt: 1 }),
            ActionView::Put { name, bytes },
        ),
    }
}

/// Whether a failed attempt is followed by another one.
pub open spec fn tries_again(v: PipelineView, error: UploadError, attempt: u32) -> bool {
    error is Retryable && attempt < v.max_attempts
}

/// The sink has answered.
pub open spec fn put_step(
    v: PipelineView,
    task: TaskView,
    name: Seq<char>,
    bytes: Seq<u8>,
    attempt: u32,
    result: Result<(), UploadError>,
) -> (PipelineView, ActionView) {
    let batch = v.batches[task.key];
    match result {
        Ok(_) => {
            let stored = Stats { uploads: (v.stats.uploads + 1) as u64, ..v.stats };
            if batch.is_complete() {
                let offset = (batch.range.end + 1) as u64;
                (
                    PipelineView {
                        stats: stored,
                        ..at_stage(v, task, StageView::AwaitCommit { offset })
                    },
                    ActionView::Commit { topic: task.key.0, partition: task.key.1, offset },
                )
            } else {
                let kept = PipelineView {
                    stats: Stats { partial_uploads: (stored.partial_uploads + 1) as u64, ..stored },
                    batches: v.batches.insert(task.key, batch.uploaded(task.now_ms)),
                    ..v
                };
                settle(kept, task, FlushOutcome::UploadedWithoutCommit)
            }
        },
        Err(error) => {
            if tries_again(v, error, attempt) {
                (
                    at_stage(v, task, StageView::AwaitRetry { name, bytes, attempt }),
                    ActionView::Wait { delay: delay_after(v.base_delay, attempt as int) },
                )
            } else {
                fail(v, ErrorView::Upload(error))
            }
        },
    }
}

/// The range that is about to be opened, where a record waits to be taken in.
pub open spec fn awaited_range(v: PipelineView, goal: GoalView) -> Option<RangeView> {
    match goal {
        GoalView::Admit(record) => Some(record_range(v, record)),
        _ => None,
    }
}

/// The broker has answered. With the offset committed, the ranges before it are
/// let go, unless one is about to be opened again.
pub open spec fn commit_step(
    v: PipelineView,
    task: TaskView,
    offset: u64,
    result: Result<(), Seq<char>>,
) -> (PipelineView, ActionView) {
    match result {
        Ok(_) => {
            let done = PipelineView {
                stats: Stats { commits: (v.stats.commits + 1) as u64, ..v.stats },
                batches: v.batches.remove(task.key),
                left: without(v.left, task.key, Some(offset), awaited_range(v, task.goal)),
                ..v
            };
            settle(done, task, FlushOutcome::Committed(offset))
        },
        Err(complaint) => fail(v, ErrorView::Commit(complaint)),
    }
}

/// What happens next, and what has to be done about it.
pub open spec fn step(v: PipelineView, event: Event) -> (PipelineView, ActionView) {
    match event {
        Event::Offer { record, now_ms } => offer_step(v, record, now_ms),
        Event::Sweep { keys, now_ms } => sweep_step(v, keys, now_ms, Seq::empty()),
        Event::Revoke { keys } => (revoke_all(v, keys), ActionView::Quiet),
        Event::Clock { written_at, encoded } => clock_step(v, v.task->0, written_at, encoded),
        Event::PutDone { result } => match v.task->0.stage {
            StageView::AwaitPut { name, bytes, attempt } => put_step(
                v,
                v.task->0,
                name,
                bytes,
                attempt,
                result,
            ),
            _ => (v, ActionView::Quiet),
        },
        Event::Waited => match v.task->0.stage {
            StageView::AwaitRetry { name, bytes, attempt } => (
                at_stage(
                    v,
                    v.task->0,
                    StageView::AwaitPut { name, bytes, attempt: (attempt + 1) as u32 },
                ),
                ActionView::Put { name, bytes },
            ),
            _ => (v, ActionView::Quiet),
        },
        Event::CommitDone { answer } => match v.task->0.stage {
            StageView::AwaitCommit { offset } => commit_step(v, v.task->0, offset, answer),
            _ => (v, ActionView::Quiet),
        },
    }
}

// ─── What always holds ──────────────────────────────────────────────────────

/// What holds of every batch: it has records, all of one partition and all of
/// its range.
pub open spec fn batch_ok(range_size: nat, key: Key, batch: BatchView) -> bool {
    &&& batch.records.len() > 0
    &&& forall|i: int|
        #![trigger batch.records[i]]
        0 <= i < batch.records.len() ==> {
            &&& key_of(batch.records[i]) == key
            &&& batch.records[i].meta.offset < u64::MAX
            &&& range_of(batch.records[i].meta.offset as int, range_size as int) == batch.range
        }
}

/// What holds of the goal of a flush.
pub open spec fn goal_ok(v: PipelineView, key: Key, goal: GoalView) -> bool {
    match goal {
        GoalView::Admit(record) => {
            &&& key_of(record) == key
            &&& record.meta.offset < u64::MAX
            &&& record_range(v, record) != v.batches[key].range
            &&& admissible(v, record)
        },
        GoalView::Answer => true,
        GoalView::Sweep { rest, .. } => {
            &&& rest.no_duplicates()
            &&& !rest.contains(key)
            &&& forall|i: int|
                #![trigger rest[i]]
                0 <= i < rest.len() ==> v.batches.contains_key(rest[i]) && v.batches[rest[i]].dirty
        },
    }
}

/// What holds of the stage of a flush.
pub open spec fn stage_ok(v: PipelineView, key: Key, stage: StageView) -> bool {
    match stage {
        StageView::AwaitClock => true,
        StageView::AwaitPut { attempt, .. } => attempt == 1 || 1 < attempt <= v.max_attempts,
        StageView::AwaitRetry { attempt, .. } => 1 <= attempt < v.max_attempts,
        StageView::AwaitCommit { offset } => v.batches[key].is_complete() && offset
            == v.batches[key].range.end + 1,
    }
}

/// What holds of a flush in progress: its partition has something to upload.
pub open spec fn task_ok(v: PipelineView, task: TaskView) -> bool {
    &&& v.batches.contains_key(task.key)
    &&& v.batches[task.key].dirty
    &&& goal_ok(v, task.key, task.goal)
    &&& stage_ok(v, task.key, task.stage)
}

/// Whether an upload has been counted whose commit has not.
pub open spec fn commit_pending(v: PipelineView) -> int {
    if v.task is Some && v.task->0.stage is AwaitCommit {
        1
    } else {
        0
    }
}

/// What the counters have to do with each other: a malformed record is a
/// record, and an upload comes before each commit.
pub open spec fn stats_ok(v: PipelineView) -> bool {
    &&& v.stats.malformed <= v.stats.records
    &&& v.stats.commits + v.stats.partial_uploads + commit_pending(v) <= v.stats.uploads
}

/// What holds of the batches of all partitions.
pub open spec fn batches_ok(range_size: nat, batches: Map<Key, BatchView>) -> bool {
    forall|key: Key| #[trigger]
        batches.contains_key(key) ==> batch_ok(range_size, key, batches[key])
}

/// What holds of a range put aside: it is uploaded, and is not the one that its
/// partition is filling.
pub open spec fn aside_ok(
    range_size: nat,
    id: RangeId,
    aside: BatchView,
    batches: Map<Key, BatchView>,
) -> bool {
    &&& batch_ok(range_size, id.0, aside)
    &&& aside.range == id.1
    &&& !aside.dirty
    &&& !(batches.contains_key(id.0) && batches[id.0].range == id.1)
}

/// What holds of the ranges put aside.
pub open spec fn left_ok(
    range_size: nat,
    left: Map<RangeId, BatchView>,
    batches: Map<Key, BatchView>,
) -> bool {
    forall|id: RangeId| #[trigger]
        left.contains_key(id) ==> aside_ok(range_size, id, left[id], batches)
}

/// What holds of a pipeline at all times.
pub open spec fn inv(v: PipelineView) -> bool {
    &&& 0 < v.range_size <= u64::MAX
    &&& batches_ok(v.range_size, v.batches)
    &&& left_ok(v.range_size, v.left, v.batches)
    &&& stats_ok(v)
    &&& v.task matches Some(task) ==> task_ok(v, task)
}

/// Whether there is room for the record: no text column of its batch outgrows
/// what the writer can index.
pub open spec fn admissible(v: PipelineView, record: ParsedRecord) -> bool {
    fits(batch_for(v, record, 0).records.push(record))
}

/// Whether an event can happen in a state. Between two calls there is no flush
/// in progress, and during one only what the flush waits for can happen. The
/// very last offset of all has no next one to commit; the counters must not
/// overflow; and a wait must be one that a duration can hold.
pub open spec fn enabled(v: PipelineView, event: Event) -> bool {
    match event {
        Event::Offer { record, .. } => {
            &&& v.task is None
            &&& record.meta.offset < u64::MAX
            &&& v.stats.records < u64::MAX
            &&& admissible(v, record)
        },
        Event::Sweep { keys, .. } => {
            &&& v.task is None
            &&& keys.no_duplicates()
            &&& forall|i: int|
                #![trigger keys[i]]
                0 <= i < keys.len() ==> v.batches.contains_key(keys[i]) && v.batches[keys[i]].dirty
        },
        Event::Revoke { keys } => {
            &&& v.task is None
            &&& v.stats.revocations + keys.len() <= u64::MAX
        },
        Event::Clock { .. } => v.task is Some && v.task->0.stage is AwaitClock,
        Event::PutDone { result } => {
            &&& v.task is Some
            &&& v.task->0.stage matches StageView::AwaitPut { attempt, .. } && {
                &&& v.stats.uploads < u64::MAX
                &&& result matches Err(error) ==> (tries_again(v, error, attempt) ==> delay_after(
                    v.base_delay,
                    attempt as int,
                ) <= MAX_NANOS)
            }
        },
        Event::Waited => v.task is Some && v.task->0.stage is AwaitRetry,
        Event::CommitDone { .. } => v.task is Some && v.task->0.stage is AwaitCommit,
    }
}

/// A complete batch ends before the last offset of all.
pub proof fn lemma_complete_ends_early(v: PipelineView, key: Key)
    requires
        inv(v),
        v.batches.contains_key(key),
        v.batches[key].is_complete(),
    ensures
        0 <= v.batches[key].range.end < u64::MAX,
        v.batches[key].range.start <= v.batches[key].range.end,
{
    let batch = v.batches[key];
    let i = batch.records.len() - 1;
    assert(batch.records[i].meta.offset < u64::MAX);
    every_offset_is_covered(batch.records[i].meta.offset as int, v.range_size as int);
}

/// Taking a record in keeps everything in order, where a range that it makes
/// its partition leave is uploaded.
pub proof fn lemma_take_in(v: PipelineView, record: ParsedRecord, now_ms: u64)
    requires
        inv(PipelineView { task: None, ..v }),
        record.meta.offset < u64::MAX,
        !crosses_a_boundary(v, record),
    ensures
        inv(take_in(v, record, now_ms).0),
{
    let key = key_of(record);
    let range = record_range(v, record);
    let base = batch_for(v, record, now_ms);
    let batch = base.pushed(record, now_ms);
    let after = take_in(v, record, now_ms).0;
    assert(base.records.len() > 0 ==> batch_ok(v.range_size, key, base));
    assert(base.range == range);
    assert(batch_ok(v.range_size, key, batch)) by {
        assert forall|i: int| #![trigger batch.records[i]] 0 <= i < batch.records.len() implies {
            &&& key_of(batch.records[i]) == key
            &&& batch.records[i].meta.offset < u64::MAX
            &&& range_of(batch.records[i].meta.offset as int, v.range_size as int) == batch.range
        } by {
            if i < base.records.len() {
                assert(base.records[i] == batch.records[i]);
            }
        }
    }
    assert(batches_ok(after.range_size, after.batches)) by {
        assert forall|k: Key| #[trigger] after.batches.contains_key(k) implies batch_ok(
            after.range_size,
            k,
            after.batches[k],
        ) by {
            if k != key {
                assert(v.batches.contains_key(k));
            }
        }
    }
    assert(left_ok(after.range_size, after.left, after.batches)) by {
        assert forall|id: RangeId| #[trigger] after.left.contains_key(id) implies aside_ok(
            after.range_size,
            id,
            after.left[id],
            after.batches,
        ) by {
            if v.batches.contains_key(key) && v.batches[key].range != range && id == (
                key,
                v.batches[key].range,
            ) {
                assert(batch_ok(v.range_size, key, v.batches[key]));
            } else {
                assert(v.left.contains_key(id));
            }
        }
    }
}

/// Going on with a sweep keeps everything in order.
pub proof fn lemma_sweep(
    v: PipelineView,
    keys: Seq<Key>,
    now_ms: u64,
    outcomes: Seq<FlushOutcome>,
)
    requires
        inv(PipelineView { task: None, ..v }),
        keys.no_duplicates(),
        forall|i: int|
            #![trigger keys[i]]
            0 <= i < keys.len() ==> v.batches.contains_key(keys[i]) && v.batches[keys[i]].dirty,
    ensures
        inv(sweep_step(v, keys, now_ms, outcomes).0),
{
    if keys.len() > 0 {
        let rest = keys.skip(1);
        let after = sweep_step(v, keys, now_ms, outcomes).0;
        assert(v.batches.contains_key(keys[0]));
        assert forall|i: int| #![trigger rest[i]] 0 <= i < rest.len() implies after.batches.contains_key(
            rest[i],
        ) && after.batches[rest[i]].dirty by {
            assert(rest[i] == keys[i + 1]);
        }
        if rest.contains(keys[0]) {
            let i = choose|i: int| 0 <= i < rest.len() && rest[i] == keys[0];
            assert(keys[i + 1] == keys[0]);
        }
        assert(rest.no_duplicates()) by {
            assert forall|i: int, j: int|
                0 <= i < rest.len() && 0 <= j < rest.len() && i != j implies rest[i] != rest[j] by {
                assert(rest[i] == keys[i + 1] && rest[j] == keys[j + 1]);
            }
        }
    }
}

/// Ending a flush keeps everything in order, where only the flushed partition
/// has changed, and has nothing more to upload.
pub proof fn lemma_settle(v: PipelineView, after: PipelineView, outcome: FlushOutcome)
    requires
        inv(v),
        v.task is Some,
        after.range_size == v.range_size,
        after.max_attempts == v.max_attempts,
        inv(PipelineView { task: None, ..after }),
        forall|k: Key|
            #![trigger after.batches.contains_key(k)]
            k != v.task->0.key ==> after.batches.contains_key(k) == v.batches.contains_key(k)
                && after.batches[k] == v.batches[k],
        after.batches.contains_key(v.task->0.key) ==> !after.batches[v.task->0.key].dirty,
    ensures
        inv(settle(after, v.task->0, outcome).0),
{
    let task = v.task->0;
    match task.goal {
        GoalView::Admit(record) => {
            lemma_take_in(after, record, task.now_ms);
        },
        GoalView::Answer => {},
        GoalView::Sweep { rest, outcomes } => {
            assert forall|i: int| #![trigger rest[i]] 0 <= i < rest.len() implies after.batches.contains_key(
                rest[i],
            ) && after.batches[rest[i]].dirty by {
                assert(rest.contains(rest[i]));
                assert(rest[i] != task.key);
                assert(v.batches.contains_key(rest[i]));
                assert(after.batches.contains_key(rest[i]) == v.batches.contains_key(rest[i]));
            }
            lemma_sweep(after, rest, task.now_ms, outcomes.push(outcome));
        },
    }
}

/// What holds of batches and ranges goes on holding where no more is held of
/// them.
proof fn lemma_no_more_is_held(v: PipelineView, after: PipelineView)
    requires
        batches_ok(v.range_size, v.batches),
        left_ok(v.range_size, v.left, v.batches),
        after.range_size == v.range_size,
        forall|k: Key| #[trigger]
            after.batches.contains_key(k) ==> v.batches.contains_key(k) && after.batches[k].records
                == v.batches[k].records && after.batches[k].range == v.batches[k].range,
        forall|id: RangeId| #[trigger]
            after.left.contains_key(id) ==> v.left.contains_key(id) && after.left[id] == v.left[id],
    ensures
        batches_ok(after.range_size, after.batches),
        left_ok(after.range_size, after.left, after.batches),
{
}

/// What a list holds is its last element and what comes before it.
pub proof fn lemma_first_and_last(keys: Seq<Key>)
    requires
        keys.len() > 0,
    ensures
        forall|k: Key| #[trigger]
            keys.contains(k) <==> keys.drop_last().contains(k) || k == keys.last(),
{
    let rest = keys.drop_last();
    assert forall|k: Key| #[trigger] keys.contains(k) <==> rest.contains(k) || k == keys.last() by {
        if keys.contains(k) {
            let i = choose|i: int| 0 <= i < keys.len() && keys[i] == k;
            if i < rest.len() {
                assert(rest[i] == k);
            }
        }
        if rest.contains(k) {
            let i = choose|i: int| 0 <= i < rest.len() && rest[i] == k;
            assert(keys[i] == k);
        }
        assert(keys[keys.len() - 1] == keys.last());
    }
}

/// Revoking partitions keeps everything in order, and takes away exactly them.
pub proof fn lemma_revoke(v: PipelineView, keys: Seq<Key>)
    requires
        inv(v),
        v.task is None,
        v.stats.revocations + keys.len() <= u64::MAX,
    ensures
        inv(revoke_all(v, keys)),
        revoke_all(v, keys).stats.revocations <= v.stats.revocations + keys.len(),
        revoke_all(v, keys) == (PipelineView {
            batches: revoke_all(v, keys).batches,
            left: revoke_all(v, keys).left,
            stats: Stats { revocations: revoke_all(v, keys).stats.revocations, ..v.stats },
            ..v
        }),
        forall|k: Key|
            #![trigger revoke_all(v, keys).batches.contains_key(k)]
            revoke_all(v, keys).batches.contains_key(k) <==> v.batches.contains_key(k)
                && !keys.contains(k),
        forall|k: Key|
            #![trigger revoke_all(v, keys).batches[k]]
            revoke_all(v, keys).batches.contains_key(k) ==> revoke_all(v, keys).batches[k]
                == v.batches[k],
        forall|id: RangeId|
            #![trigger revoke_all(v, keys).left.contains_key(id)]
            revoke_all(v, keys).left.contains_key(id) <==> v.left.contains_key(id)
                && !keys.contains(id.0),
        forall|id: RangeId|
            #![trigger revoke_all(v, keys).left[id]]
            revoke_all(v, keys).left.contains_key(id) ==> revoke_all(v, keys).left[id]
                == v.left[id],
    decreases keys.len(),
{
    if keys.len() > 0 {
        let rest = keys.drop_last();
        let last = keys.last();
        lemma_revoke(v, rest);
        let before = revoke_all(v, rest);
        let after = revoke_one(before, last);
        lemma_first_and_last(keys);
        assert forall|k: Key|
            #![trigger after.batches.contains_key(k)]
            after.batches.contains_key(k) <==> v.batches.contains_key(k) && !keys.contains(k) by {
            assert(before.batches.contains_key(k) <==> v.batches.contains_key(k) && !rest.contains(
                k,
            ));
        }
        assert forall|k: Key|
            #![trigger after.batches[k]]
            after.batches.contains_key(k) implies after.batches[k] == v.batches[k] by {
            assert(before.batches.contains_key(k));
            assert(before.batches[k] == v.batches[k]);
        }
        assert forall|id: RangeId|
            #![trigger after.left.contains_key(id)]
            after.left.contains_key(id) <==> v.left.contains_key(id) && !keys.contains(id.0) by {
            assert(before.left.contains_key(id) <==> v.left.contains_key(id) && !rest.contains(
                id.0,
            ));
        }
        assert forall|id: RangeId|
            #![trigger after.left[id]]
            after.left.contains_key(id) implies after.left[id] == v.left[id] by {
            assert(before.left.contains_key(id));
            assert(before.left[id] == v.left[id]);
        }
        lemma_no_more_is_held(before, after);
    }
}

/// The state once an incomplete batch has been uploaded.
pub open spec fn kept_after_put(v: PipelineView) -> PipelineView {
    let task = v.task->0;
    PipelineView {
        stats: Stats {
            uploads: (v.stats.uploads + 1) as u64,
            partial_uploads: (v.stats.partial_uploads + 1) as u64,
            ..v.stats
        },
        batches: v.batches.insert(task.key, v.batches[task.key].uploaded(task.now_ms)),
        ..v
    }
}

/// The state once a complete batch has been committed.
pub open spec fn done_after_commit(v: PipelineView, offset: u64) -> PipelineView {
    let task = v.task->0;
    PipelineView {
        stats: Stats { commits: (v.stats.commits + 1) as u64, ..v.stats },
        batches: v.batches.remove(task.key),
        left: without(v.left, task.key, Some(offset), awaited_range(v, task.goal)),
        ..v
    }
}

/// Noting that a batch has been uploaded keeps everything in order, and leaves
/// room for the record that waits.
pub proof fn lemma_kept_after_put(v: PipelineView)
    requires
        inv(v),
        v.task is Some,
        !(v.task->0.stage is AwaitCommit),
        v.stats.uploads < u64::MAX,
    ensures
        inv(PipelineView { task: None, ..kept_after_put(v) }),
        v.task->0.goal matches GoalView::Admit(record) ==> batch_for(
            kept_after_put(v),
            record,
            0,
        ) == batch_for(v, record, 0),
{
    let free = PipelineView { task: None, ..kept_after_put(v) };
    lemma_no_more_is_held(v, free);
}

/// Letting a committed batch go keeps everything in order, and leaves room for
/// the record that waits.
pub proof fn lemma_done_after_commit(v: PipelineView, offset: u64)
    requires
        inv(v),
        v.task matches Some(task) && task.stage == (StageView::AwaitCommit { offset }),
    ensures
        inv(PipelineView { task: None, ..done_after_commit(v, offset) }),
        v.task->0.goal matches GoalView::Admit(record) ==> batch_for(
            done_after_commit(v, offset),
            record,
            0,
        ) == batch_for(v, record, 0),
{
    let free = PipelineView { task: None, ..done_after_commit(v, offset) };
    lemma_no_more_is_held(v, free);
}

/// Every step keeps everything in order.
pub proof fn every_step_keeps_order(v: PipelineView, event: Event)
    requires
        inv(v),
        enabled(v, event),
    ensures
        inv(step(v, event).0),
        step(v, event).0.range_size == v.range_size,
        step(v, event).0.idle_ms == v.idle_ms,
        step(v, event).0.max_attempts == v.max_attempts,
        step(v, event).0.base_delay == v.base_delay,
{
    match event {
        Event::Offer { record, now_ms } => {
            let seen = PipelineView { stats: counted(v.stats, record), ..v };
            if !crosses_a_boundary(v, record) {
                lemma_take_in(seen, record, now_ms);
            }
        },
        Event::Sweep { keys, now_ms } => {
            assert(PipelineView { task: None, ..v } == v);
            lemma_sweep(v, keys, now_ms, Seq::empty());
        },
        Event::Revoke { keys } => {
            lemma_revoke(v, keys);
        },
        Event::PutDone { result } => {
            if result is Ok {
                if v.batches[v.task->0.key].is_complete() {
                    lemma_complete_ends_early(v, v.task->0.key);
                } else {
                    lemma_kept_after_put(v);
                    lemma_settle(v, kept_after_put(v), FlushOutcome::UploadedWithoutCommit);
                }
            }
        },
        Event::CommitDone { answer } => {
            if answer is Ok {
                let offset = v.task->0.stage->offset;
                lemma_done_after_commit(v, offset);
                lemma_settle(v, done_after_commit(v, offset), FlushOutcome::Committed(offset));
            }
        },
        _ => {},
    }
}

} // verus!
