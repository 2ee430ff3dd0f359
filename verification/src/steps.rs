//! What every step of the protocol guarantees, whatever the sink and the broker
//! answer and in whatever order records come.

use vstd::prelude::*;
use vstd::seq_lib::seq_to_set_is_finite;

use crate::batch_table::Wanted;
use crate::batching::RangeView;
use crate::envelope::ParsedRecord;
use crate::protocol::FlushOutcome;
use crate::sink::UploadError;

verus! {

use crate::batch_table::{key_of, lists, BatchView, Key};
use crate::protocol::{
    awaited_range, batch_for, counted, crosses_a_boundary, done_after_commit, enabled,
    every_step_keeps_order, inv, kept_after_put, lemma_done_after_commit, lemma_first_and_last,
    lemma_kept_after_put, lemma_revoke, record_range, revoke_all, step, take_in, ActionView,
    ErrorView, Event, GoalView, PipelineView, StageView,
};

// ─── What is held of a range ────────────────────────────────────────────────

/// The records held of a range: those of its partition's batch, or those put
/// aside when the range was left.
pub open spec fn held(v: PipelineView, key: Key, range: RangeView) -> Option<Seq<ParsedRecord>> {
    if v.batches.contains_key(key) && v.batches[key].range == range {
        Some(v.batches[key].records)
    } else if v.left.contains_key((key, range)) {
        Some(v.left[(key, range)].records)
    } else {
        None
    }
}

/// Taking a record in adds it to what is held of its range, and changes nothing
/// else.
pub proof fn lemma_take_in_held(
    v: PipelineView,
    record: ParsedRecord,
    now_ms: u64,
    key: Key,
    range: RangeView,
)
    requires
        inv(PipelineView { task: None, ..v }),
    ensures
        held(take_in(v, record, now_ms).0, key, range) == if (key, range) == (
            key_of(record),
            record_range(v, record),
        ) {
            Some(
                match held(v, key, range) {
                    Some(records) => records.push(record),
                    None => seq![record],
                },
            )
        } else {
            held(v, key, range)
        },
{
    let base = batch_for(v, record, now_ms);
    if v.left.contains_key((key_of(record), record_range(v, record))) {
        assert(PipelineView { task: None, ..v }.left.contains_key(
            (key_of(record), record_range(v, record)),
        ));
    }
    assert(take_in(v, record, now_ms).0.batches[key_of(record)] == base.pushed(record, now_ms));
    assert(Seq::<ParsedRecord>::empty().push(record) =~= seq![record]);
}

/// Noting an upload changes nothing of what is held.
pub proof fn lemma_kept_held(v: PipelineView, key: Key, range: RangeView)
    requires
        v.task is Some,
        v.batches.contains_key(v.task->0.key),
    ensures
        held(kept_after_put(v), key, range) == held(v, key, range),
{
}

/// Letting a committed batch go takes away its range, and the ranges before it
/// but for the one about to be opened.
pub proof fn lemma_done_held(v: PipelineView, offset: u64, key: Key, range: RangeView)
    requires
        inv(v),
        v.task matches Some(task) && task.stage == (StageView::AwaitCommit { offset }),
    ensures
        held(done_after_commit(v, offset), key, range) == if key == v.task->0.key && range.end
            < offset && awaited_range(v, v.task->0.goal) != Some(range) {
            None
        } else {
            held(v, key, range)
        },
{
    let task = v.task->0;
    if held(v, key, range) is Some && !(v.batches.contains_key(key) && v.batches[key].range
        == range) {
        assert(v.left.contains_key((key, range)));
    }
    if v.left.contains_key((task.key, v.batches[task.key].range)) {
        assert(false);
    }
}

/// Revoking partitions takes away what is held of them, and nothing else.
pub proof fn lemma_revoke_held(v: PipelineView, keys: Seq<Key>, key: Key, range: RangeView)
    requires
        inv(v),
        v.task is None,
        v.stats.revocations + keys.len() <= u64::MAX,
    ensures
        held(revoke_all(v, keys), key, range) == if keys.contains(key) {
            None
        } else {
            held(v, key, range)
        },
{
    lemma_revoke(v, keys);
    let after = revoke_all(v, keys);
    assert(after.batches.contains_key(key) <==> v.batches.contains_key(key) && !keys.contains(key));
    assert(after.left.contains_key((key, range)) <==> v.left.contains_key((key, range))
        && !keys.contains(key));
    if after.batches.contains_key(key) {
        assert(after.batches[key] == v.batches[key]);
    }
    if after.left.contains_key((key, range)) {
        assert(after.left[(key, range)] == v.left[(key, range)]);
    }
}

/// The record that a step takes in, if it does.
pub open spec fn taken(v: PipelineView, event: Event) -> Option<ParsedRecord> {
    match event {
        Event::Offer { record, .. } => if crosses_a_boundary(v, record) {
            None
        } else {
            Some(record)
        },
        Event::PutDone { result } => match v.task->0.goal {
            GoalView::Admit(record) => if result is Ok && !v.batches[v.task->0.key].is_complete() {
                Some(record)
            } else {
                None
            },
            _ => None,
        },
        Event::CommitDone { answer } => match v.task->0.goal {
            GoalView::Admit(record) => if answer is Ok {
                Some(record)
            } else {
                None
            },
            _ => None,
        },
        _ => None,
    }
}

/// Whether an event lets a range go: an offset past it has been committed, or
/// its partition has been revoked.
pub open spec fn lets_go(v: PipelineView, event: Event, key: Key, range: RangeView) -> bool {
    match event {
        Event::Revoke { keys } => keys.contains(key),
        Event::CommitDone { answer } => {
            &&& answer is Ok
            &&& v.task->0.key == key
            &&& v.task->0.stage matches StageView::AwaitCommit { offset } && range.end < offset
            &&& awaited_range(v, v.task->0.goal) != Some(range)
        },
        _ => false,
    }
}

/// What is held of a range after a step, in full: nothing where it is let go,
/// one record more where one is taken in, and the same otherwise.
pub open spec fn held_after(
    v: PipelineView,
    event: Event,
    key: Key,
    range: RangeView,
) -> Option<Seq<ParsedRecord>> {
    let before = if lets_go(v, event, key, range) {
        None
    } else {
        held(v, key, range)
    };
    match taken(v, event) {
        Some(record) => if (key, range) == (key_of(record), record_range(v, record)) {
            Some(
                match before {
                    Some(records) => records.push(record),
                    None => seq![record],
                },
            )
        } else {
            before
        },
        None => before,
    }
}

/// Every step changes what is held of a range as said, and in no other way.
pub proof fn what_is_held_after_a_step(
    v: PipelineView,
    event: Event,
    key: Key,
    range: RangeView,
)
    requires
        inv(v),
        enabled(v, event),
    ensures
        held(step(v, event).0, key, range) == held_after(v, event, key, range),
{
    match event {
        Event::Offer { record, now_ms } => {
            let seen = PipelineView { stats: counted(v.stats, record), ..v };
            assert(held(seen, key, range) == held(v, key, range));
            if !crosses_a_boundary(v, record) {
                lemma_take_in_held(seen, record, now_ms, key, range);
            }
        },
        Event::Revoke { keys } => {
            lemma_revoke_held(v, keys, key, range);
        },
        Event::PutDone { result } => {
            let task = v.task->0;
            if result is Ok && !v.batches[task.key].is_complete() {
                let kept = kept_after_put(v);
                lemma_kept_after_put(v);
                lemma_kept_held(v, key, range);
                match task.goal {
                    GoalView::Admit(record) => {
                        lemma_take_in_held(kept, record, task.now_ms, key, range);
                    },
                    _ => {},
                }
            }
        },
        Event::CommitDone { answer } => {
            if answer is Ok {
                let task = v.task->0;
                let offset = task.stage->offset;
                let done = done_after_commit(v, offset);
                lemma_done_after_commit(v, offset);
                lemma_done_held(v, offset, key, range);
                match task.goal {
                    GoalView::Admit(record) => {
                        lemma_take_in_held(done, record, task.now_ms, key, range);
                    },
                    _ => {},
                }
            }
        },
        _ => {},
    }
}

/// What is held of a range only ever grows at the end, while the range is held:
/// each upload of a range holds all that the last one held.
pub proof fn a_range_only_grows(v: PipelineView, event: Event, key: Key, range: RangeView)
    requires
        inv(v),
        enabled(v, event),
        held(v, key, range) is Some,
        !lets_go(v, event, key, range),
    ensures
        held(step(v, event).0, key, range) is Some,
        held(v, key, range)->0.is_prefix_of(held(step(v, event).0, key, range)->0),
{
    what_is_held_after_a_step(v, event, key, range);
    let before = held(v, key, range)->0;
    let after = held(step(v, event).0, key, range)->0;
    assert(before =~= after.subrange(0, before.len() as int));
}

/// Records leave the buffer for two reasons only: an offset past their range has
/// been committed, or their partition has been revoked.
pub proof fn records_leave_the_buffer_only_when_safe(
    v: PipelineView,
    event: Event,
    key: Key,
    range: RangeView,
)
    requires
        inv(v),
        enabled(v, event),
        held(v, key, range) is Some,
        held(step(v, event).0, key, range) is None,
    ensures
        lets_go(v, event, key, range),
{
    what_is_held_after_a_step(v, event, key, range);
}

/// The partition that an event is about.
pub open spec fn concerns(v: PipelineView, event: Event, key: Key) -> bool {
    match event {
        Event::Offer { record, .. } => key_of(record) == key,
        Event::Sweep { .. } => false,
        Event::Revoke { keys } => keys.contains(key),
        _ => v.task->0.key == key,
    }
}

/// Partitions are independent: an event leaves alone every partition that it is
/// not about.
pub proof fn partitions_are_independent(
    v: PipelineView,
    event: Event,
    key: Key,
    range: RangeView,
)
    requires
        inv(v),
        enabled(v, event),
        !concerns(v, event, key),
    ensures
        step(v, event).0.batches.contains_key(key) == v.batches.contains_key(key),
        v.batches.contains_key(key) ==> step(v, event).0.batches[key] == v.batches[key],
        held(step(v, event).0, key, range) == held(v, key, range),
{
    what_is_held_after_a_step(v, event, key, range);
    match event {
        Event::Revoke { keys } => {
            lemma_revoke(v, keys);
            assert(revoke_all(v, keys).batches.contains_key(key) <==> v.batches.contains_key(key)
                && !keys.contains(key));
            if v.batches.contains_key(key) {
                assert(revoke_all(v, keys).batches[key] == v.batches[key]);
            }
        },
        _ => {},
    }
}

// ─── Commits and uploads ────────────────────────────────────────────────────

/// Commit after upload, never before: the one thing that a commit is ever asked
/// for in answer to is a successful put of a complete range, and the offset is
/// the next one after that range.
pub proof fn a_commit_answers_a_put(v: PipelineView, event: Event)
    requires
        inv(v),
        enabled(v, event),
        step(v, event).1 is Commit,
    ensures
        event matches Event::PutDone { result } && result is Ok,
        v.task->0.stage is AwaitPut,
        v.batches[v.task->0.key].is_complete(),
        step(v, event).1 == (ActionView::Commit {
            topic: v.task->0.key.0,
            partition: v.task->0.key.1,
            offset: (v.batches[v.task->0.key].range.end + 1) as u64,
        }),
{
}

/// Once an offset is committed, nothing is held any more of the ranges before
/// it, but for the one range that a waiting record falls into.
pub proof fn a_commit_lets_go_of_the_ranges_before_it(
    v: PipelineView,
    event: Event,
    offset: u64,
    range: RangeView,
)
    requires
        inv(v),
        enabled(v, event),
        event matches Event::CommitDone { answer } && answer is Ok,
        v.task->0.stage == (StageView::AwaitCommit { offset }),
        held(step(v, event).0, v.task->0.key, range) is Some,
        range.end < offset,
    ensures
        awaited_range(v, v.task->0.goal) == Some(range),
{
    what_is_held_after_a_step(v, event, v.task->0.key, range);
}

/// A partial flush commits nothing and keeps its records: the answer to a put
/// of an incomplete range is no commit, and all of the range is still held.
pub proof fn a_partial_flush_commits_nothing(v: PipelineView, event: Event)
    requires
        inv(v),
        enabled(v, event),
        event matches Event::PutDone { result } && result is Ok,
        !v.batches[v.task->0.key].is_complete(),
    ensures
        !(step(v, event).1 is Commit),
        step(v, event).0.stats.commits == v.stats.commits,
        held(step(v, event).0, v.task->0.key, v.batches[v.task->0.key].range) == Some(
            v.batches[v.task->0.key].records,
        ),
        !(v.task->0.goal is Admit) ==> step(v, event).0.batches.contains_key(v.task->0.key)
            && !step(v, event).0.batches[v.task->0.key].dirty,
{
    if step(v, event).1 is Commit {
        a_commit_answers_a_put(v, event);
    }
    what_is_held_after_a_step(v, event, v.task->0.key, v.batches[v.task->0.key].range);
}

/// Whatever is not retryable is not retried: an upload that was refused for
/// want of authentication, or for good, ends the call with that error.
pub proof fn a_refused_upload_is_never_retried(v: PipelineView, error: UploadError)
    requires
        inv(v),
        enabled(v, (Event::PutDone { result: Err(error) })),
        !(error is Retryable),
    ensures
        step(v, (Event::PutDone { result: Err(error) })).1 == ActionView::Failed(
            ErrorView::Upload(error),
        ),
        step(v, (Event::PutDone { result: Err(error) })).0.task is None,
{
}

/// A failed upload commits nothing and loses nothing, whatever the error and
/// whether or not it is tried again.
pub proof fn a_failed_upload_commits_nothing(v: PipelineView, error: UploadError)
    requires
        inv(v),
        enabled(v, (Event::PutDone { result: Err(error) })),
    ensures
        step(v, (Event::PutDone { result: Err(error) })).1 is Wait || step(
            v,
            (Event::PutDone { result: Err(error) }),
        ).1 is Failed,
        step(v, (Event::PutDone { result: Err(error) })).0.batches == v.batches,
        step(v, (Event::PutDone { result: Err(error) })).0.left == v.left,
        step(v, (Event::PutDone { result: Err(error) })).0.stats == v.stats,
{
}

/// A failed commit loses nothing: the batch stays, to be uploaded and committed
/// again.
pub proof fn a_failed_commit_keeps_the_batch(v: PipelineView, complaint: Seq<char>)
    requires
        inv(v),
        enabled(v, (Event::CommitDone { answer: Err(complaint) })),
    ensures
        step(v, (Event::CommitDone { answer: Err(complaint) })).1 == ActionView::Failed(
            ErrorView::Commit(complaint),
        ),
        step(v, (Event::CommitDone { answer: Err(complaint) })).0.batches == v.batches,
        step(v, (Event::CommitDone { answer: Err(complaint) })).0.left == v.left,
        v.batches[v.task->0.key].dirty,
{
}

/// An object is put no more often than the policy allows, and once at least: at
/// every put, the attempts so far are fewer than the policy's, or none.
pub proof fn attempts_are_bounded(v: PipelineView, event: Event)
    requires
        inv(v),
        enabled(v, event),
        step(v, event).1 is Put,
    ensures
        step(v, event).0.task matches Some(task) && (task.stage matches StageView::AwaitPut {
            attempt,
            ..
        } && (attempt == 1 || attempt <= v.max_attempts) && (event is Waited ==> attempt > 1)),
{
    every_step_keeps_order(v, event);
}

/// A retry puts the same bytes at the same name.
pub proof fn a_retry_repeats_the_put(v: PipelineView, error: UploadError)
    requires
        inv(v),
        enabled(v, (Event::PutDone { result: Err(error) })),
        step(v, (Event::PutDone { result: Err(error) })).1 is Wait,
    ensures
        ({
            let waiting = step(v, (Event::PutDone { result: Err(error) })).0;
            &&& enabled(waiting, Event::Waited)
            &&& v.task->0.stage matches StageView::AwaitPut { name, bytes, attempt } && {
                &&& step(waiting, Event::Waited).1 == (ActionView::Put { name, bytes })
                &&& step(waiting, Event::Waited).0.task->0.stage == (StageView::AwaitPut {
                    name,
                    bytes,
                    attempt: (attempt + 1) as u32,
                })
            }
        }),
{
}

/// An offset that could not be read still advances the batch: whether a record
/// is malformed makes no difference to its partition's range, to how many
/// records it holds, or to what is done next.
pub proof fn a_malformed_record_advances_the_batch(
    v: PipelineView,
    a: ParsedRecord,
    b: ParsedRecord,
    now_ms: u64,
)
    requires
        inv(v),
        a.meta == b.meta,
        enabled(v, (Event::Offer { record: a, now_ms })),
        enabled(v, (Event::Offer { record: b, now_ms })),
    ensures
        ({
            let (after_a, action_a) = step(v, (Event::Offer { record: a, now_ms }));
            let (after_b, action_b) = step(v, (Event::Offer { record: b, now_ms }));
            let key = key_of(a);
            &&& action_a == action_b
            &&& after_a.batches.contains_key(key) && after_b.batches.contains_key(key)
            &&& after_a.batches[key].range == after_b.batches[key].range
            &&& after_a.batches[key].records.len() == after_b.batches[key].records.len()
            &&& after_a.batches[key].is_complete() == after_b.batches[key].is_complete()
        }),
{
}

/// A batch that has been uploaded is not idle until something is added to it:
/// it is not uploaded again for nothing.
pub proof fn an_uploaded_batch_is_not_uploaded_again(
    batch: BatchView,
    now_ms: u64,
    later_ms: u64,
    idle_ms: u64,
)
    ensures
        !batch.uploaded(now_ms).dirty,
        !batch.uploaded(now_ms).is_idle(later_ms, idle_ms),
{
}

// ─── Revocations ────────────────────────────────────────────────────────────

/// A revocation counts exactly the partitions that held a batch, each of them
/// once, however often it is named.
pub proof fn a_revocation_counts_what_was_held(v: PipelineView, keys: Seq<Key>)
    requires
        inv(v),
        enabled(v, (Event::Revoke { keys })),
    ensures
        step(v, (Event::Revoke { keys })).0.stats.revocations == v.stats.revocations
            + v.batches.dom().intersect(keys.to_set()).len(),
    decreases keys.len(),
{
    let named = v.batches.dom().intersect(keys.to_set());
    if keys.len() == 0 {
        assert(named =~= Set::<Key>::empty());
    } else {
        let rest = keys.drop_last();
        let last = keys.last();
        let fewer = v.batches.dom().intersect(rest.to_set());
        a_revocation_counts_what_was_held(v, rest);
        lemma_revoke(v, rest);
        let before = revoke_all(v, rest);
        assert(before.batches.contains_key(last) <==> v.batches.contains_key(last)
            && !rest.contains(last));
        lemma_first_and_last(keys);
        seq_to_set_is_finite(rest);
        if v.batches.contains_key(last) {
            assert(named =~= fewer.insert(last));
        } else {
            assert(named =~= fewer);
        }
    }
}

// ─── Sweeps ─────────────────────────────────────────────────────────────────

/// Whether an event is one that a flush waits for.
pub open spec fn is_answer(event: Event) -> bool {
    event is Clock || event is PutDone || event is Waited || event is CommitDone
}

/// The state and the action after a sweep has begun and these have been
/// answered.
pub open spec fn during_sweep(
    v: PipelineView,
    keys: Seq<Key>,
    now_ms: u64,
    answers: Seq<Event>,
) -> (PipelineView, ActionView)
    decreases answers.len(),
{
    if answers.len() == 0 {
        step(v, Event::Sweep { keys, now_ms })
    } else {
        step(during_sweep(v, keys, now_ms, answers.drop_last()).0, answers.last())
    }
}

/// Whether these answers can come, one after the other, in a sweep.
pub open spec fn can_answer(
    v: PipelineView,
    keys: Seq<Key>,
    now_ms: u64,
    answers: Seq<Event>,
) -> bool
    decreases answers.len(),
{
    answers.len() > 0 ==> {
        &&& can_answer(v, keys, now_ms, answers.drop_last())
        &&& is_answer(answers.last())
        &&& enabled(during_sweep(v, keys, now_ms, answers.drop_last()).0, answers.last())
    }
}

/// Whether nothing of the partition waits to be uploaded.
pub open spec fn is_clean(v: PipelineView, key: Key) -> bool {
    v.batches.contains_key(key) ==> !v.batches[key].dirty
}

/// How far a sweep has come: `n` partitions are flushed, and the next one is
/// being flushed unless all of them are.
pub open spec fn swept_so_far(
    v: PipelineView,
    keys: Seq<Key>,
    now: PipelineView,
    n: int,
) -> bool {
    &&& inv(now)
    &&& forall|i: int| #![trigger keys[i]] 0 <= i < n ==> is_clean(now, keys[i])
    &&& forall|k: Key|
        #![trigger now.batches.contains_key(k)]
        !keys.contains(k) ==> now.batches.contains_key(k) == v.batches.contains_key(k)
            && now.batches[k] == v.batches[k]
    &&& now.idle_ms == v.idle_ms
    &&& now.task matches Some(task) ==> {
        &&& 0 <= n < keys.len()
        &&& task.key == keys[n]
        &&& task.goal matches GoalView::Sweep { rest, outcomes } && rest == keys.skip(n + 1)
            && outcomes.len() == n
    }
}

/// How far a sweep has come after these answers: in progress, over with one
/// outcome for each partition, or failed.
proof fn lemma_sweep_progress(
    v: PipelineView,
    keys: Seq<Key>,
    now_ms: u64,
    answers: Seq<Event>,
) -> (n: int)
    requires
        inv(v),
        enabled(v, (Event::Sweep { keys, now_ms })),
        can_answer(v, keys, now_ms, answers),
    ensures
        0 <= n <= keys.len(),
        ({
            let (now, action) = during_sweep(v, keys, now_ms, answers);
            &&& swept_so_far(v, keys, now, n)
            &&& action matches ActionView::Swept(outcomes) ==> n == keys.len() && outcomes.len()
                == n && now.task is None
        }),
    decreases answers.len(),
{
    if answers.len() == 0 {
        every_step_keeps_order(v, Event::Sweep { keys, now_ms });
        0
    } else {
        let rest_answers = answers.drop_last();
        let event = answers.last();
        let n = lemma_sweep_progress(v, keys, now_ms, rest_answers);
        let before = during_sweep(v, keys, now_ms, rest_answers).0;
        let (now, action) = during_sweep(v, keys, now_ms, answers);
        every_step_keeps_order(before, event);
        let task = before.task->0;
        assert(keys.contains(keys[n]));
        assert forall|i: int| #![trigger keys[i]] 0 <= i < n implies is_clean(now, keys[i]) by {
            assert(is_clean(before, keys[i]));
            assert(keys[i] != keys[n]);
        }
        assert forall|k: Key|
            #![trigger now.batches.contains_key(k)]
            !keys.contains(k) implies now.batches.contains_key(k) == v.batches.contains_key(k)
            && now.batches[k] == v.batches[k] by {
            assert(before.batches.contains_key(k) == v.batches.contains_key(k));
        }
        let moved_on = (event matches Event::PutDone { result } && result is Ok
            && !before.batches[task.key].is_complete()) || (event matches Event::CommitDone {
            answer,
        } && answer is Ok);
        if moved_on {
            let rest = keys.skip(n + 1);
            assert(is_clean(now, keys[n]));
            if rest.len() > 0 {
                assert(rest[0] == keys[n + 1]);
                assert(rest.skip(1) =~= keys.skip(n + 2));
            }
            n + 1
        } else {
            n
        }
    }
}

/// A sweep that is over has one outcome for each partition that was to be
/// flushed, and has left nothing to upload in any of them.
pub proof fn a_sweep_flushes_each_partition_once(
    v: PipelineView,
    keys: Seq<Key>,
    now_ms: u64,
    answers: Seq<Event>,
    i: int,
)
    requires
        inv(v),
        enabled(v, (Event::Sweep { keys, now_ms })),
        can_answer(v, keys, now_ms, answers),
        during_sweep(v, keys, now_ms, answers).1 is Swept,
        0 <= i < keys.len(),
    ensures
        during_sweep(v, keys, now_ms, answers).1->Swept_0.len() == keys.len(),
        is_clean(during_sweep(v, keys, now_ms, answers).0, keys[i]),
{
    let n = lemma_sweep_progress(v, keys, now_ms, answers);
}

/// A second sweep right after one that is over does nothing, where nothing new
/// has come: whether it is for idle partitions at the same time, or for all
/// that have something to upload.
pub proof fn a_second_sweep_does_nothing(
    v: PipelineView,
    wanted: Wanted,
    keys: Seq<Key>,
    now_ms: u64,
    answers: Seq<Event>,
    again: Seq<Key>,
    later_ms: u64,
)
    requires
        inv(v),
        wanted == (Wanted::Idle { now_ms, idle_ms: v.idle_ms }) || wanted == Wanted::Dirty,
        lists(keys, v.batches, wanted),
        enabled(v, (Event::Sweep { keys, now_ms })),
        can_answer(v, keys, now_ms, answers),
        during_sweep(v, keys, now_ms, answers).1 is Swept,
        lists(again, during_sweep(v, keys, now_ms, answers).0.batches, wanted),
    ensures
        again.len() == 0,
        step(
            during_sweep(v, keys, now_ms, answers).0,
            (Event::Sweep { keys: again, now_ms: later_ms }),
        ) == (
            during_sweep(v, keys, now_ms, answers).0,
            ActionView::Swept(Seq::<FlushOutcome>::empty()),
        ),
{
    let n = lemma_sweep_progress(v, keys, now_ms, answers);
    let now = during_sweep(v, keys, now_ms, answers).0;
    if again.len() > 0 {
        let k = again[0];
        assert(again.contains(k));
        assert(now.batches.contains_key(k));
        if keys.contains(k) {
            let i = choose|i: int| 0 <= i < keys.len() && keys[i] == k;
            assert(is_clean(now, keys[i]));
        }
    }
}

} // verus!
