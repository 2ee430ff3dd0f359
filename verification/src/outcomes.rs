//! What comes of each call, in terms of the records and offsets that go in: what
//! is added to which batch, when a flush begins, what is uploaded under which
//! name, when an offset is committed and which, and when an upload is tried
//! again.

use vstd::prelude::*;

use crate::batch_table::Wanted;
use crate::batching::RangeView;
use crate::envelope::ParsedRecord;
use crate::protocol::FlushOutcome;
use crate::sink::UploadError;

verus! {

use crate::batch_table::{lists, BatchView, Key};
use crate::batching::{object_name, range_of};
use crate::calendar::utc_date;
use crate::parquet_writer::fits;
use crate::pipeline::sweeps;
use crate::protocol::{
    admissible, batch_ok, enabled, every_step_keeps_order, initial, inv, lemma_complete_ends_early,
    lemma_revoke, revoke_all, step, ActionView, ErrorView, Event, GoalView, PipelineView,
    StageView, TaskView,
};
use crate::retry::delay_after;

// ─── Records in ─────────────────────────────────────────────────────────────

/// What is held of the range that `offset` of a partition falls into.
pub open spec fn held_before(v: PipelineView, key: Key, offset: u64) -> Seq<ParsedRecord> {
    let range = range_of(offset as int, v.range_size as int);
    if v.batches.contains_key(key) && v.batches[key].range == range {
        v.batches[key].records
    } else if v.left.contains_key((key, range)) {
        v.left[(key, range)].records
    } else {
        Seq::empty()
    }
}

/// Whether a record has gone in at the end of what was held of its range, at
/// `now_ms`; and where its offset is the last of the range or past it, a flush
/// of the range has begun.
pub open spec fn has_gone_in(
    after: PipelineView,
    action: ActionView,
    record: ParsedRecord,
    before: Seq<ParsedRecord>,
    now_ms: u64,
) -> bool {
    let key = (record.meta.topic@, record.meta.partition);
    let range = range_of(record.meta.offset as int, after.range_size as int);
    &&& after.batches.contains_key(key)
    &&& after.batches[key].range == range
    &&& after.batches[key].records == before + seq![record]
    &&& after.batches[key].dirty
    &&& after.batches[key].last_append_ms == now_ms
    &&& !after.left.contains_key((key, range))
    &&& record.meta.offset >= range.end ==> action == ActionView::ReadClock && after.task == Some(
        TaskView { key, now_ms, goal: GoalView::Answer, stage: StageView::AwaitClock },
    )
    &&& record.meta.offset < range.end ==> action == ActionView::Offered(FlushOutcome::Nothing)
        && after.task is None
}

/// A record that arrives goes in at the end of what is held of its range. Where
/// its offset reaches the end of the range, a flush begins at once, however many
/// records there are; and where it does not, that is all.
pub proof fn a_record_goes_in_at_the_end_of_its_range(
    v: PipelineView,
    record: ParsedRecord,
    now_ms: u64,
)
    requires
        inv(v),
        enabled(v, (Event::Offer { record, now_ms })),
        ({
            let key = (record.meta.topic@, record.meta.partition);
            v.batches.contains_key(key) && v.batches[key].dirty ==> v.batches[key].range
                == range_of(record.meta.offset as int, v.range_size as int)
        }),
    ensures
        ({
            let key = (record.meta.topic@, record.meta.partition);
            let range = range_of(record.meta.offset as int, v.range_size as int);
            let (after, action) = step(v, (Event::Offer { record, now_ms }));
            &&& has_gone_in(
                after,
                action,
                record,
                held_before(v, key, record.meta.offset),
                now_ms,
            )
            // A range that was left for this one is put aside, and nothing else
            // is touched.
            &&& v.batches.contains_key(key) && v.batches[key].range != range
                ==> after.left.contains_key((key, v.batches[key].range)) && after.left[(
                key,
                v.batches[key].range,
            )] == v.batches[key]
            &&& forall|k: Key|
                #![trigger after.batches.contains_key(k)]
                k != key ==> after.batches.contains_key(k) == v.batches.contains_key(k)
                    && after.batches[k] == v.batches[k]
            &&& forall|k: Key, r: RangeView|
                #![trigger after.left.contains_key((k, r))]
                k != key || (r != range && !(v.batches.contains_key(key) && v.batches[key].range
                    == r)) ==> after.left.contains_key((k, r)) == v.left.contains_key((k, r))
                    && after.left[(k, r)] == v.left[(k, r)]
        }),
{
    let key = (record.meta.topic@, record.meta.partition);
    let range = range_of(record.meta.offset as int, v.range_size as int);
    let after = step(v, (Event::Offer { record, now_ms })).0;
    let before = held_before(v, key, record.meta.offset);
    if v.left.contains_key((key, range)) {
        assert(v.left[(key, range)].range == range);
    }
    assert(after.batches[key].records =~= before + seq![record]);
}

/// Where a record arrives while its partition holds another range that has
/// something to upload, that range is flushed first, and the record waits.
pub proof fn another_range_goes_out_first(v: PipelineView, record: ParsedRecord, now_ms: u64)
    requires
        inv(v),
        enabled(v, (Event::Offer { record, now_ms })),
        ({
            let key = (record.meta.topic@, record.meta.partition);
            v.batches.contains_key(key) && v.batches[key].dirty && v.batches[key].range != range_of(
                record.meta.offset as int,
                v.range_size as int,
            )
        }),
    ensures
        ({
            let key = (record.meta.topic@, record.meta.partition);
            let (after, action) = step(v, (Event::Offer { record, now_ms }));
            &&& action == ActionView::ReadClock
            &&& after.task == Some(
                TaskView {
                    key,
                    now_ms,
                    goal: GoalView::Admit(record),
                    stage: StageView::AwaitClock,
                },
            )
            &&& after.batches == v.batches
            &&& after.left == v.left
        }),
{
}

/// Every record that arrives is counted, and a malformed one also as such.
pub proof fn every_record_is_counted(v: PipelineView, record: ParsedRecord, now_ms: u64)
    requires
        inv(v),
        enabled(v, (Event::Offer { record, now_ms })),
    ensures
        ({
            let stats = step(v, (Event::Offer { record, now_ms })).0.stats;
            &&& stats.records == v.stats.records + 1
            &&& record.body is Malformed ==> stats.malformed == v.stats.malformed + 1
            &&& record.body is Parsed ==> stats.malformed == v.stats.malformed
            &&& stats.uploads == v.stats.uploads
            &&& stats.commits == v.stats.commits
            &&& stats.partial_uploads == v.stats.partial_uploads
            &&& stats.revocations == v.stats.revocations
        }),
{
}

/// When a record can be taken: between calls, unless it is at the very last
/// offset of all, the counter is full, or a column of its batch would hold more
/// text than can be indexed.
pub proof fn a_record_can_be_taken_where_there_is_room(
    v: PipelineView,
    record: ParsedRecord,
    now_ms: u64,
)
    requires
        inv(v),
    ensures
        ({
            let key = (record.meta.topic@, record.meta.partition);
            let room = fits(held_before(v, key, record.meta.offset) + seq![record]);
            &&& admissible(v, record) <==> room
            &&& enabled(v, (Event::Offer { record, now_ms })) <==> v.task is None
                && record.meta.offset < 18_446_744_073_709_551_615 && v.stats.records
                < 18_446_744_073_709_551_615 && room
        }),
{
    let key = (record.meta.topic@, record.meta.partition);
    let before = held_before(v, key, record.meta.offset);
    assert(before + seq![record] =~= before.push(record));
}

/// When anything else can happen: partitions with something to upload can be
/// swept, and any can be revoked, between calls; and what a flush waits for can
/// happen while it waits for it. A counter that would overflow and a wait that no
/// span can hold are the only other bounds.
pub proof fn whatever_is_waited_for_can_happen(
    v: PipelineView,
    keys: Seq<Key>,
    now_ms: u64,
    written_at: int,
    encoded: Option<Seq<u8>>,
    error: UploadError,
    answer: Result<(), Seq<char>>,
)
    requires
        inv(v),
    ensures
        enabled(v, (Event::Sweep { keys, now_ms })) <==> v.task is None && keys.no_duplicates()
            && forall|i: int|
            #![trigger keys[i]]
            0 <= i < keys.len() ==> v.batches.contains_key(keys[i]) && v.batches[keys[i]].dirty,
        enabled(v, (Event::Revoke { keys })) <==> v.task is None && v.stats.revocations
            + keys.len() <= 18_446_744_073_709_551_615,
        v.task is None ==> {
            &&& !enabled(v, (Event::Clock { written_at, encoded }))
            &&& !enabled(v, (Event::PutDone { result: Ok(()) }))
            &&& !enabled(v, Event::Waited)
            &&& !enabled(v, (Event::CommitDone { answer }))
        },
        v.task matches Some(task) ==> {
            &&& enabled(v, (Event::Clock { written_at, encoded })) <==> task.stage is AwaitClock
            &&& enabled(v, Event::Waited) <==> task.stage is AwaitRetry
            &&& enabled(v, (Event::CommitDone { answer })) <==> task.stage is AwaitCommit
            &&& enabled(v, (Event::PutDone { result: Ok(()) })) <==> task.stage is AwaitPut
                && v.stats.uploads < 18_446_744_073_709_551_615
            &&& task.stage matches StageView::AwaitPut { attempt, .. } ==> (enabled(
                v,
                (Event::PutDone { result: Err(error) }),
            ) <==> v.stats.uploads < 18_446_744_073_709_551_615 && (error is Retryable && attempt
                < v.max_attempts ==> delay_after(v.base_delay, attempt as int)
                <= 18_446_744_073_709_551_615_999_999_999))
        },
{
}

/// A pipeline starts with nothing.
pub proof fn a_pipeline_starts_empty(
    range_size: nat,
    idle_ms: u64,
    max_attempts: u32,
    base_delay: nat,
    key: Key,
    range: RangeView,
)
    ensures
        ({
            let v = initial(range_size, idle_ms, max_attempts, base_delay);
            &&& v.range_size == range_size
            &&& v.idle_ms == idle_ms
            &&& v.max_attempts == max_attempts
            &&& v.base_delay == base_delay
            &&& !v.batches.contains_key(key)
            &&& !v.left.contains_key((key, range))
            &&& v.task is None
            &&& v.stats.records == 0 && v.stats.malformed == 0 && v.stats.uploads == 0
            &&& v.stats.commits == 0 && v.stats.partial_uploads == 0 && v.stats.revocations == 0
        }),
{
}

// ─── Uploads ────────────────────────────────────────────────────────────────

/// Once the time of writing is known, the batch is put under the name of its
/// topic, its partition, that day and its range; it is the first attempt. A
/// batch that could not be encoded ends the call, and stays as it is.
pub proof fn a_batch_is_put_under_the_name_of_its_range(
    v: PipelineView,
    written_at: int,
    encoded: Option<Seq<u8>>,
)
    requires
        inv(v),
        enabled(v, (Event::Clock { written_at, encoded })),
    ensures
        ({
            let task = v.task->0;
            let name = object_name(
                task.key.0,
                task.key.1 as int,
                utc_date(written_at),
                v.batches[task.key].range,
            );
            let (after, action) = step(v, (Event::Clock { written_at, encoded }));
            &&& encoded matches Some(bytes) ==> action == (ActionView::Put { name, bytes })
                && after.task == Some(
                TaskView { stage: StageView::AwaitPut { name, bytes, attempt: 1 }, ..task },
            )
            &&& encoded is None ==> action == ActionView::Failed(ErrorView::Encode)
                && after.task is None
            &&& after.batches == v.batches
            &&& after.left == v.left
            &&& after.stats == v.stats
        }),
{
}

/// A retryable failure is retried, whatever the flush is for: as long as there
/// are attempts left the same bytes are put at the same name again after a wait,
/// and only a failure of the last attempt, or one that is not retryable, ends
/// the call. Nothing that is held or counted changes.
pub proof fn a_retryable_failure_is_retried(v: PipelineView, error: UploadError, attempt: u32)
    requires
        inv(v),
        enabled(v, (Event::PutDone { result: Err(error) })),
        v.task->0.stage matches StageView::AwaitPut { attempt: a, .. } && a == attempt,
    ensures
        ({
            let task = v.task->0;
            let name = task.stage->AwaitPut_name;
            let bytes = task.stage->AwaitPut_bytes;
            let (after, action) = step(v, (Event::PutDone { result: Err(error) }));
            let again = step(after, Event::Waited);
            &&& error is Retryable && attempt < v.max_attempts ==> {
                &&& action == (ActionView::Wait {
                    delay: delay_after(v.base_delay, attempt as int),
                })
                &&& enabled(after, Event::Waited)
                &&& again.1 == (ActionView::Put { name, bytes })
                &&& again.0.task == Some(
                    TaskView {
                        stage: StageView::AwaitPut { name, bytes, attempt: (attempt + 1) as u32 },
                        ..task
                    },
                )
                &&& again.0.batches == v.batches && again.0.left == v.left && again.0.stats
                    == v.stats
            }
            &&& !(error is Retryable) || attempt >= v.max_attempts ==> {
                &&& action == ActionView::Failed(ErrorView::Upload(error))
                &&& after.task is None
            }
            &&& after.batches == v.batches
            &&& after.left == v.left
            &&& after.stats == v.stats
        }),
{
}

/// A range that has been read to its end is committed once it is stored: the
/// answer to its put is to commit the offset after the range, however many
/// records there are and whatever the flush is for.
pub proof fn a_complete_range_is_committed_once_it_is_stored(v: PipelineView)
    requires
        inv(v),
        enabled(v, (Event::PutDone { result: Ok(()) })),
        v.batches[v.task->0.key].records.last().meta.offset
            >= v.batches[v.task->0.key].range.end,
    ensures
        ({
            let task = v.task->0;
            let end = v.batches[task.key].range.end;
            let (after, action) = step(v, (Event::PutDone { result: Ok(()) }));
            &&& end < u64::MAX
            &&& action == (ActionView::Commit {
                topic: task.key.0,
                partition: task.key.1,
                offset: (end + 1) as u64,
            })
            &&& after.task == Some(
                TaskView { stage: StageView::AwaitCommit { offset: (end + 1) as u64 }, ..task },
            )
            &&& after.batches == v.batches
            &&& after.left == v.left
            &&& after.stats.uploads == v.stats.uploads + 1
            &&& after.stats.partial_uploads == v.stats.partial_uploads
            &&& after.stats.commits == v.stats.commits
            &&& after.stats.records == v.stats.records && after.stats.malformed
                == v.stats.malformed && after.stats.revocations == v.stats.revocations
        }),
{
    assert(batch_ok(v.range_size, v.task->0.key, v.batches[v.task->0.key]));
    assert(v.batches[v.task->0.key].is_complete());
    lemma_complete_ends_early(v, v.task->0.key);
}

/// Whether a call goes on after a flush with this outcome: an offer answers with
/// it, and a sweep takes the next partition, or answers with all outcomes.
pub open spec fn goes_on(
    after: PipelineView,
    action: ActionView,
    task: TaskView,
    outcome: FlushOutcome,
) -> bool {
    match task.goal {
        GoalView::Answer => action == ActionView::Offered(outcome) && after.task is None,
        GoalView::Sweep { rest, outcomes } => if rest.len() == 0 {
            action == ActionView::Swept(outcomes + seq![outcome]) && after.task is None
        } else {
            action == ActionView::ReadClock && after.task == Some(
                TaskView {
                    key: rest[0],
                    now_ms: task.now_ms,
                    goal: GoalView::Sweep { rest: rest.skip(1), outcomes: outcomes + seq![outcome] },
                    stage: StageView::AwaitClock,
                },
            )
        },
        GoalView::Admit(_) => true,
    }
}

/// A range that has not been read to its end is kept once it is stored, with all
/// its records, and nothing is committed. The call goes on; and a record that
/// waited goes in.
pub proof fn an_incomplete_range_is_kept_once_it_is_stored(v: PipelineView)
    requires
        inv(v),
        enabled(v, (Event::PutDone { result: Ok(()) })),
        v.batches[v.task->0.key].records.last().meta.offset < v.batches[v.task->0.key].range.end,
    ensures
        ({
            let task = v.task->0;
            let kept = BatchView {
                dirty: false,
                last_append_ms: task.now_ms,
                ..v.batches[task.key]
            };
            let (after, action) = step(v, (Event::PutDone { result: Ok(()) }));
            &&& goes_on(after, action, task, FlushOutcome::UploadedWithoutCommit)
            &&& !(task.goal is Admit) ==> after.batches == v.batches.insert(task.key, kept)
                && after.left == v.left
            &&& task.goal matches GoalView::Admit(record) ==> {
                &&& has_gone_in(
                    after,
                    action,
                    record,
                    held_before(v, task.key, record.meta.offset),
                    task.now_ms,
                )
                &&& after.left.contains_key((task.key, kept.range)) && after.left[(
                    task.key,
                    kept.range,
                )] == kept
            }
            // Nothing else is touched.
            &&& forall|k: Key|
                #![trigger after.batches.contains_key(k)]
                k != task.key ==> after.batches.contains_key(k) == v.batches.contains_key(k)
                    && after.batches[k] == v.batches[k]
            &&& forall|k: Key, r: RangeView|
                #![trigger after.left.contains_key((k, r))]
                k != task.key || (r != kept.range && !(task.goal matches GoalView::Admit(record)
                    && range_of(record.meta.offset as int, v.range_size as int) == r))
                    ==> after.left.contains_key((k, r)) == v.left.contains_key((k, r))
                    && after.left[(k, r)] == v.left[(k, r)]
            &&& after.stats.uploads == v.stats.uploads + 1
            &&& after.stats.partial_uploads == v.stats.partial_uploads + 1
            &&& after.stats.commits == v.stats.commits
            &&& after.stats.records == v.stats.records && after.stats.malformed
                == v.stats.malformed && after.stats.revocations == v.stats.revocations
        }),
{
    let task = v.task->0;
    let after = step(v, (Event::PutDone { result: Ok(()) })).0;
    assert(!v.batches[task.key].is_complete());
    lemma_push_is_append();
    match task.goal {
        GoalView::Admit(record) => {
            let before = held_before(v, task.key, record.meta.offset);
            let range = range_of(record.meta.offset as int, v.range_size as int);
            if v.left.contains_key((task.key, range)) {
                assert(v.left[(task.key, range)].range == range);
            }
            assert(after.batches[task.key].records =~= before + seq![record]);
        },
        _ => {},
    }
}

/// A list of outcomes with one more, written either way.
proof fn lemma_push_is_append()
    ensures
        forall|outcomes: Seq<FlushOutcome>, outcome: FlushOutcome|
            #![trigger outcomes.push(outcome)]
            outcomes.push(outcome) == outcomes + seq![outcome],
{
    assert forall|outcomes: Seq<FlushOutcome>, outcome: FlushOutcome|
        #![trigger outcomes.push(outcome)]
        outcomes.push(outcome) == outcomes + seq![outcome] by {
        assert(outcomes.push(outcome) =~= outcomes + seq![outcome]);
    }
}

// ─── Commits ────────────────────────────────────────────────────────────────

/// Once its range is committed a batch is released, and the outcome is the
/// offset committed. The call goes on; and a record that waited goes in.
pub proof fn a_committed_range_is_released(v: PipelineView, offset: u64)
    requires
        inv(v),
        enabled(v, (Event::CommitDone { answer: Ok(()) })),
        v.task->0.stage == (StageView::AwaitCommit { offset }),
    ensures
        ({
            let task = v.task->0;
            let (after, action) = step(v, (Event::CommitDone { answer: Ok(()) }));
            &&& offset == v.batches[task.key].range.end + 1
            &&& goes_on(after, action, task, FlushOutcome::Committed(offset))
            &&& !(task.goal is Admit) ==> after.batches == v.batches.remove(task.key)
            &&& task.goal matches GoalView::Admit(record) ==> has_gone_in(
                after,
                action,
                record,
                held_before(v, task.key, record.meta.offset),
                task.now_ms,
            )
            &&& forall|k: Key|
                #![trigger after.batches.contains_key(k)]
                k != task.key ==> after.batches.contains_key(k) == v.batches.contains_key(k)
                    && after.batches[k] == v.batches[k]
            &&& after.stats.commits == v.stats.commits + 1
            &&& after.stats.uploads == v.stats.uploads
            &&& after.stats.partial_uploads == v.stats.partial_uploads
            &&& after.stats.records == v.stats.records && after.stats.malformed
                == v.stats.malformed && after.stats.revocations == v.stats.revocations
        }),
{
    let task = v.task->0;
    let after = step(v, (Event::CommitDone { answer: Ok(()) })).0;
    lemma_push_is_append();
    match task.goal {
        GoalView::Admit(record) => {
            let before = held_before(v, task.key, record.meta.offset);
            let range = range_of(record.meta.offset as int, v.range_size as int);
            if v.left.contains_key((task.key, range)) {
                assert(v.left[(task.key, range)].range == range);
            }
            assert(after.batches[task.key].records =~= before + seq![record]);
        },
        _ => {},
    }
}

/// Of the ranges put aside, a commit lets go of those of its partition that end
/// before the offset, and of no other. (The range that a waiting record falls
/// into is filled again.)
pub proof fn a_commit_lets_go_of_what_it_covers(
    v: PipelineView,
    offset: u64,
    key: Key,
    range: RangeView,
)
    requires
        inv(v),
        enabled(v, (Event::CommitDone { answer: Ok(()) })),
        v.task->0.stage == (StageView::AwaitCommit { offset }),
        v.task->0.goal matches GoalView::Admit(record) ==> (key, range) != (
            v.task->0.key,
            range_of(record.meta.offset as int, v.range_size as int),
        ),
    ensures
        ({
            let after = step(v, (Event::CommitDone { answer: Ok(()) })).0;
            &&& after.left.contains_key((key, range)) <==> v.left.contains_key((key, range)) && (key
                != v.task->0.key || range.end >= offset)
            &&& after.left.contains_key((key, range)) ==> after.left[(key, range)] == v.left[(
                key,
                range,
            )]
        }),
{
}

/// A commit that fails ends the call with the broker's complaint, and the batch
/// waits to be uploaded again.
pub proof fn a_failed_commit_ends_the_call(v: PipelineView, complaint: Seq<char>)
    requires
        inv(v),
        enabled(v, (Event::CommitDone { answer: Err(complaint) })),
    ensures
        ({
            let (after, action) = step(v, (Event::CommitDone { answer: Err(complaint) }));
            &&& action == ActionView::Failed(ErrorView::Commit(complaint))
            &&& after.task is None
            &&& after.batches == v.batches
            &&& after.left == v.left
            &&& after.stats == v.stats
            &&& after.batches.contains_key(v.task->0.key) && after.batches[v.task->0.key].dirty
        }),
{
}

/// A range that is completed goes all the way: the offer of its last offset
/// uploads it under the name of the range, commits the offset after it, answers
/// with that offset, and releases the batch.
pub proof fn completing_a_range_uploads_and_commits_it(
    v: PipelineView,
    record: ParsedRecord,
    now_ms: u64,
    written_at: int,
    bytes: Seq<u8>,
)
    requires
        inv(v),
        enabled(v, (Event::Offer { record, now_ms })),
        v.stats.uploads < u64::MAX,
        record.meta.offset >= range_of(record.meta.offset as int, v.range_size as int).end,
        ({
            let key = (record.meta.topic@, record.meta.partition);
            v.batches.contains_key(key) && v.batches[key].dirty ==> v.batches[key].range
                == range_of(record.meta.offset as int, v.range_size as int)
        }),
    ensures
        ({
            let key = (record.meta.topic@, record.meta.partition);
            let range = range_of(record.meta.offset as int, v.range_size as int);
            let name = object_name(key.0, key.1 as int, utc_date(written_at), range);
            let offered = step(v, (Event::Offer { record, now_ms }));
            let named = step(offered.0, (Event::Clock { written_at, encoded: Some(bytes) }));
            let stored = step(named.0, (Event::PutDone { result: Ok(()) }));
            let committed = step(stored.0, (Event::CommitDone { answer: Ok(()) }));
            &&& offered.1 == ActionView::ReadClock
            &&& offered.0.batches[key].records == held_before(v, key, record.meta.offset) + seq![
                record,
            ]
            &&& named.1 == (ActionView::Put { name, bytes })
            &&& stored.1 == (ActionView::Commit {
                topic: record.meta.topic@,
                partition: record.meta.partition,
                offset: (range.end + 1) as u64,
            })
            &&& committed.1 == ActionView::Offered(
                FlushOutcome::Committed((range.end + 1) as u64),
            )
            &&& !committed.0.batches.contains_key(key)
            &&& committed.0.task is None
            &&& committed.0.stats.uploads == v.stats.uploads + 1
            &&& committed.0.stats.commits == v.stats.commits + 1
        }),
{
    let offered = step(v, (Event::Offer { record, now_ms })).0;
    a_record_goes_in_at_the_end_of_its_range(v, record, now_ms);
    every_step_keeps_order(v, (Event::Offer { record, now_ms }));
    every_record_is_counted(v, record, now_ms);
    let clock = Event::Clock { written_at, encoded: Some(bytes) };
    let named = step(offered, clock).0;
    a_batch_is_put_under_the_name_of_its_range(offered, written_at, Some(bytes));
    every_step_keeps_order(offered, clock);
    let put = Event::PutDone { result: Ok(()) };
    assert(enabled(named, put));
    let key = (record.meta.topic@, record.meta.partition);
    assert(named.batches[key].records.last() == record);
    let stored = step(named, put).0;
    a_complete_range_is_committed_once_it_is_stored(named);
    every_step_keeps_order(named, put);
    let range = range_of(record.meta.offset as int, v.range_size as int);
    a_committed_range_is_released(stored, (range.end + 1) as u64);
}

// ─── Sweeps ─────────────────────────────────────────────────────────────────

/// Whether a partition has something to upload and was quiet for as long as it
/// takes. A clock that went backwards counts as no time.
pub open spec fn is_quiet(v: PipelineView, key: Key, now_ms: u64) -> bool {
    &&& v.batches.contains_key(key)
    &&& v.batches[key].dirty
    &&& v.idle_ms == 0 || now_ms >= v.batches[key].last_append_ms + v.idle_ms
}

/// Whether a sweep has begun that flushes exactly the partitions that `wanted`
/// picks, each once: nothing but the first flush has begun, or nothing at all
/// where there is none to flush.
pub open spec fn sweep_has_begun(
    v: PipelineView,
    after: PipelineView,
    action: ActionView,
    now_ms: u64,
    wanted: spec_fn(Key) -> bool,
) -> bool {
    ||| {
        &&& forall|key: Key| !(#[trigger] wanted(key))
        &&& action == ActionView::Swept(Seq::<FlushOutcome>::empty())
        &&& after == v
    }
    ||| {
        &&& action == ActionView::ReadClock
        &&& after.batches == v.batches && after.left == v.left && after.stats == v.stats
        &&& after.task matches Some(task) && {
            &&& task.stage is AwaitClock
            &&& task.now_ms == now_ms
            &&& wanted(task.key)
            &&& task.goal matches GoalView::Sweep { rest, outcomes } && {
                &&& outcomes.len() == 0
                &&& forall|key: Key| #[trigger]
                    wanted(key) <==> key == task.key || rest.contains(key)
                &&& forall|i: int, j: int|
                    #![trigger rest[i], rest[j]]
                    0 <= i < j < rest.len() ==> rest[i] != rest[j]
                &&& !rest.contains(task.key)
            }
        }
    }
}

/// A tick flushes exactly the partitions that have gone quiet, each of them
/// once.
pub proof fn a_tick_flushes_the_quiet_partitions(
    v: PipelineView,
    now_ms: u64,
    after: PipelineView,
    action: ActionView,
)
    requires
        inv(v),
        v.task is None,
        sweeps(v, now_ms, (Wanted::Idle { now_ms, idle_ms: v.idle_ms }), after, action),
    ensures
        sweep_has_begun(v, after, action, now_ms, |key: Key| is_quiet(v, key, now_ms)),
{
    let wanted = Wanted::Idle { now_ms, idle_ms: v.idle_ms };
    let keys = choose|keys: Seq<Key>|
        #![trigger lists(keys, v.batches, wanted)]
        lists(keys, v.batches, wanted) && (after, action) == step(
            v,
            Event::Sweep { keys, now_ms },
        );
    assert forall|key: Key| keys.contains(key) <==> #[trigger] is_quiet(v, key, now_ms) by {
        assert(keys.contains(key) <==> v.batches.contains_key(key) && wanted.accepts(
            v.batches[key],
        ));
    }
    lemma_sweep_has_begun(v, keys, now_ms, |key: Key| is_quiet(v, key, now_ms));
}

/// The last flush flushes exactly the partitions that have something to upload,
/// each of them once.
pub proof fn a_flush_of_all_flushes_what_is_not_uploaded(
    v: PipelineView,
    now_ms: u64,
    after: PipelineView,
    action: ActionView,
)
    requires
        inv(v),
        v.task is None,
        sweeps(v, now_ms, Wanted::Dirty, after, action),
    ensures
        sweep_has_begun(
            v,
            after,
            action,
            now_ms,
            |key: Key| v.batches.contains_key(key) && v.batches[key].dirty,
        ),
{
    let keys = choose|keys: Seq<Key>|
        #![trigger lists(keys, v.batches, Wanted::Dirty)]
        lists(keys, v.batches, Wanted::Dirty) && (after, action) == step(
            v,
            Event::Sweep { keys, now_ms },
        );
    assert forall|key: Key| keys.contains(key) <==> v.batches.contains_key(key)
        && #[trigger] v.batches[key].dirty by {
        assert(keys.contains(key) <==> v.batches.contains_key(key) && Wanted::Dirty.accepts(
            v.batches[key],
        ));
    }
    lemma_sweep_has_begun(
        v,
        keys,
        now_ms,
        |key: Key| v.batches.contains_key(key) && v.batches[key].dirty,
    );
}

proof fn lemma_sweep_has_begun(
    v: PipelineView,
    keys: Seq<Key>,
    now_ms: u64,
    wanted: spec_fn(Key) -> bool,
)
    requires
        v.task is None,
        keys.no_duplicates(),
        forall|key: Key| keys.contains(key) <==> #[trigger] wanted(key),
    ensures
        ({
            let (after, action) = step(v, (Event::Sweep { keys, now_ms }));
            sweep_has_begun(v, after, action, now_ms, wanted)
        }),
{
    let (after, action) = step(v, (Event::Sweep { keys, now_ms }));
    if keys.len() == 0 {
        assert forall|key: Key| !(#[trigger] wanted(key)) by {
            assert(!keys.contains(key));
        }
    } else {
        let first = keys[0];
        let rest = keys.skip(1);
        assert(keys.contains(first));
        assert forall|key: Key| #[trigger] wanted(key) <==> key == first || rest.contains(key) by {
            if keys.contains(key) && key != first {
                let i = choose|i: int| 0 <= i < keys.len() && keys[i] == key;
                assert(rest[i - 1] == key);
            }
            if rest.contains(key) {
                let i = choose|i: int| 0 <= i < rest.len() && rest[i] == key;
                assert(keys[i + 1] == key);
            }
        }
        assert forall|i: int, j: int|
            #![trigger rest[i], rest[j]]
            0 <= i < j < rest.len() implies rest[i] != rest[j] by {
            assert(rest[i] == keys[i + 1] && rest[j] == keys[j + 1]);
        }
        if rest.contains(first) {
            let i = choose|i: int| 0 <= i < rest.len() && rest[i] == first;
            assert(keys[i + 1] == first);
        }
        assert(after.task->0.goal->outcomes =~= Seq::<FlushOutcome>::empty());
    }
}

// ─── Revocations ────────────────────────────────────────────────────────────

/// A revocation takes away all that is held of the partitions named, and of no
/// others, and asks for nothing: no upload, no commit.
pub proof fn a_revocation_drops_the_partitions_named(
    v: PipelineView,
    keys: Seq<Key>,
    key: Key,
    range: RangeView,
)
    requires
        inv(v),
        enabled(v, (Event::Revoke { keys })),
    ensures
        ({
            let (after, action) = step(v, (Event::Revoke { keys }));
            &&& action == ActionView::Quiet
            &&& after.task is None
            &&& keys.contains(key) ==> !after.batches.contains_key(key) && !after.left.contains_key(
                (key, range),
            )
            &&& !keys.contains(key) ==> {
                &&& after.batches.contains_key(key) == v.batches.contains_key(key)
                &&& v.batches.contains_key(key) ==> after.batches[key] == v.batches[key]
                &&& after.left.contains_key((key, range)) == v.left.contains_key((key, range))
                &&& v.left.contains_key((key, range)) ==> after.left[(key, range)] == v.left[(
                    key,
                    range,
                )]
            }
            &&& after.stats.records == v.stats.records && after.stats.malformed
                == v.stats.malformed && after.stats.uploads == v.stats.uploads
            &&& after.stats.commits == v.stats.commits && after.stats.partial_uploads
                == v.stats.partial_uploads
        }),
{
    lemma_revoke(v, keys);
    let after = revoke_all(v, keys);
    assert(after.batches.contains_key(key) <==> v.batches.contains_key(key) && !keys.contains(key));
    assert(after.left.contains_key((key, range)) <==> v.left.contains_key((key, range))
        && !keys.contains(key));
    if after.batches.contains_key(key) {
        assert(after.batches[key] == v.batches[key]);
    }
    if after.left.contains_key((key, range)) {
        assert(after.left[(key, range)] == v.left[(key, range)]);
    }
}

} // verus!
