//! What the protocol is good for: uploads keep what was uploaded, commits cover
//! what is stored, and no record is lost.
//!
//! A [`World`] is a pipeline together with what it talks to (the bucket and the
//! broker) and with the history that the claims are about. Its steps are those
//! of [`crate::protocol::step`], where the sink stores what it says it has
//! stored.
//!
//! How much can be claimed depends on how the broker delivers ([`Delivery`]).
//! Whatever it does, a commit follows the upload of its range, and each upload
//! of a range holds what the last one held until an offset past it has been
//! committed. Nothing is lost as long as nothing before the committed offset is
//! delivered again, and then what is kept in memory of a partition lies at or
//! past its committed offset, but for one range. And where each partition comes
//! in order, the committed
//! offset means what it says.

use vstd::prelude::*;

use crate::batching::RangeView;
use crate::envelope::ParsedRecord;

verus! {

use crate::batch_table::{key_of, BatchView, Key, RangeId};
use crate::batching::{
    a_commit_resumes_at_a_range_start, a_range_is_as_wide_as_asked,
    distinct_batches_have_distinct_names, every_offset_is_covered,
    every_offset_in_a_range_maps_to_it, object_name, range_of,
};
use crate::calendar::{a_date_holds_no_slash, utc_date};
use crate::parquet_writer::{reads_back, staged_file};
use crate::protocol::{
    awaited_range, batch_ok, commit_pending, counted, crosses_a_boundary, done_after_commit,
    enabled, every_step_keeps_order, initial, inv, kept_after_put, lemma_complete_ends_early,
    lemma_done_after_commit, lemma_kept_after_put, lemma_revoke, record_range, revoke_all, step,
    take_in, ActionView, Event, GoalView, PipelineView, StageView, TaskView,
};
use crate::steps::{
    a_commit_answers_a_put, a_range_only_grows, held, lemma_done_held, lemma_kept_held,
    lemma_revoke_held, lemma_take_in_held, lets_go, taken, what_is_held_after_a_step,
};

// ─── The world ──────────────────────────────────────────────────────────────

/// A pipeline, what it talks to, and what has happened so far.
pub struct World {
    pub pipeline: PipelineView,
    /// The objects in the bucket, by name.
    pub bucket: Map<Seq<char>, Seq<u8>>,
    /// The next offset to read of each partition, as the broker has it.
    pub committed: Map<Key, int>,
    /// The furthest offset ever committed of each partition.
    pub furthest: Map<Key, int>,
    /// The records taken in from each partition since it was last assigned.
    pub received: Map<Key, Seq<ParsedRecord>>,
    /// What the object last stored for a range of a partition was made of: the
    /// records, and when it was written.
    pub latest: Map<RangeId, (Seq<ParsedRecord>, int)>,
    /// The records last stored of each range that is still held.
    pub uploaded: Map<RangeId, Seq<ParsedRecord>>,
    /// The ranges whose last upload was followed by a commit that failed.
    pub uncommitted: Set<RangeId>,
    /// When the object being uploaded was written.
    pub written_at: int,
    /// How many commits have failed.
    pub failed_commits: nat,
}

/// The records taken in from a partition.
pub open spec fn got(w: World, key: Key) -> Seq<ParsedRecord> {
    if w.received.contains_key(key) {
        w.received[key]
    } else {
        Seq::empty()
    }
}

/// The range that the flush in progress uploads.
pub open spec fn flushed_range(v: PipelineView) -> RangeId {
    (v.task->0.key, v.batches[v.task->0.key].range)
}

/// The world after the flush in progress has stored its object.
pub open spec fn after_put(w: World) -> World {
    let v = w.pipeline;
    let records = v.batches[v.task->0.key].records;
    match v.task->0.stage {
        StageView::AwaitPut { name, bytes, .. } => World {
            bucket: w.bucket.insert(name, bytes),
            latest: w.latest.insert(flushed_range(v), (records, w.written_at)),
            uploaded: w.uploaded.insert(flushed_range(v), records),
            uncommitted: w.uncommitted.remove(flushed_range(v)),
            ..w
        },
        _ => w,
    }
}

/// The world after the flush in progress has committed.
pub open spec fn after_commit(w: World) -> World {
    let task = w.pipeline.task->0;
    match task.stage {
        StageView::AwaitCommit { offset } => World {
            committed: w.committed.insert(task.key, offset as int),
            furthest: w.furthest.insert(
                task.key,
                if w.furthest.contains_key(task.key) && w.furthest[task.key] > offset {
                    w.furthest[task.key]
                } else {
                    offset as int
                },
            ),
            ..w
        },
        _ => w,
    }
}

/// What an event does outside of the pipeline.
pub open spec fn effects(w: World, event: Event) -> World {
    match event {
        Event::Clock { written_at, .. } => World { written_at, ..w },
        Event::PutDone { result } => if result is Ok {
            after_put(w)
        } else {
            w
        },
        Event::CommitDone { answer } => if answer is Ok {
            after_commit(w)
        } else {
            World {
                failed_commits: w.failed_commits + 1,
                uncommitted: w.uncommitted.insert(flushed_range(w.pipeline)),
                ..w
            }
        },
        Event::Revoke { keys } => World { received: w.received.remove_keys(keys.to_set()), ..w },
        _ => w,
    }
}

/// The world with one more record received.
pub open spec fn receive(w: World, record: ParsedRecord) -> World {
    let key = key_of(record);
    World { received: w.received.insert(key, got(w, key).push(record)), ..w }
}

/// The world with the pipeline in its next state. Of ranges that are let go,
/// what was uploaded is no longer kept track of.
pub open spec fn advance(w: World, event: Event, pipeline: PipelineView) -> World {
    World {
        uploaded: Map::new(
            |id: RangeId|
                w.uploaded.contains_key(id) && !lets_go(w.pipeline, event, id.0, id.1),
            |id: RangeId| w.uploaded[id],
        ),
        pipeline,
        ..w
    }
}

/// The next world.
pub open spec fn next(w: World, event: Event) -> World {
    let after = effects(w, event);
    let counted = match taken(w.pipeline, event) {
        Some(record) => receive(after, record),
        None => after,
    };
    advance(counted, event, step(w.pipeline, event).0)
}

// ─── Runs ───────────────────────────────────────────────────────────────────

/// How the broker delivers.
pub enum Delivery {
    /// Anyhow.
    Any,
    /// Seeking back at times, but never before the committed offset.
    Onward,
    /// Each partition in order, from the committed offset on.
    InOrder,
}

/// Whether a record is before the furthest offset committed of its partition.
pub open spec fn is_below(w: World, record: ParsedRecord) -> bool {
    let key = key_of(record);
    w.furthest.contains_key(key) && record.meta.offset < w.furthest[key]
}

/// Whether an offset is further on than all of the records.
pub open spec fn is_after(records: Seq<ParsedRecord>, offset: u64) -> bool {
    forall|i: int| #![trigger records[i]] 0 <= i < records.len() ==> records[i].meta.offset < offset
}

/// Whether a record is further on than everything received from its partition,
/// and no earlier than what has been committed.
pub open spec fn in_order(w: World, record: ParsedRecord) -> bool {
    let key = key_of(record);
    &&& is_after(got(w, key), record.meta.offset)
    &&& w.committed.contains_key(key) ==> w.committed[key] <= record.meta.offset
}

/// Whether a broker that delivers in that way can deliver the record now.
pub open spec fn delivers(w: World, record: ParsedRecord, delivery: Delivery) -> bool {
    match delivery {
        Delivery::Any => true,
        Delivery::Onward => !is_below(w, record),
        Delivery::InOrder => in_order(w, record),
    }
}

/// Whether an event can happen in a world. A batch is encoded as it is, and
/// what is read from the file is the batch, as [`crate::pipeline::Pipeline::clock_read`]
/// has it.
pub open spec fn allowed(w: World, event: Event, delivery: Delivery) -> bool {
    &&& enabled(w.pipeline, event)
    &&& match event {
        Event::Offer { record, .. } => delivers(w, record, delivery),
        Event::Clock { written_at, encoded } => {
            let records = w.pipeline.batches[w.pipeline.task->0.key].records;
            &&& encoded == staged_file(records, written_at)
            &&& encoded matches Some(bytes) ==> reads_back(bytes, records, written_at)
        },
        _ => true,
    }
}

/// A world before its first event: an empty pipeline, whatever the bucket holds
/// and the broker has been told.
pub open spec fn is_start(w: World) -> bool {
    &&& 0 < w.pipeline.range_size <= u64::MAX
    &&& w.pipeline == initial(
        w.pipeline.range_size,
        w.pipeline.idle_ms,
        w.pipeline.max_attempts,
        w.pipeline.base_delay,
    )
    &&& w.furthest == w.committed
    &&& w.received == Map::<Key, Seq<ParsedRecord>>::empty()
    &&& w.latest == Map::<RangeId, (Seq<ParsedRecord>, int)>::empty()
    &&& w.uploaded == Map::<RangeId, Seq<ParsedRecord>>::empty()
    &&& w.uncommitted == Set::<RangeId>::empty()
    &&& w.failed_commits == 0
}

/// The world after a run of events.
pub open spec fn after_run(w: World, events: Seq<Event>) -> World
    decreases events.len(),
{
    if events.len() == 0 {
        w
    } else {
        next(after_run(w, events.drop_last()), events.last())
    }
}

/// Whether a run of events can happen.
pub open spec fn is_run(w: World, events: Seq<Event>, delivery: Delivery) -> bool
    decreases events.len(),
{
    events.len() > 0 ==> is_run(w, events.drop_last(), delivery) && allowed(
        after_run(w, events.drop_last()),
        events.last(),
        delivery,
    )
}

// ─── What holds however the broker delivers ─────────────────────────────────

/// Whether the object last stored for the batch's range was made of all of it.
pub open spec fn is_batch_stored(w: World, key: Key, batch: BatchView) -> bool {
    w.latest.contains_key((key, batch.range)) && w.latest[(key, batch.range)].0 == batch.records
}

/// The name of the object that was written at `written_at` for a range.
pub open spec fn staged_name(key: Key, range: RangeView, written_at: int) -> Seq<char> {
    object_name(key.0, key.1 as int, utc_date(written_at), range)
}

/// Whether the bucket holds the file made of these records at `written_at`,
/// under the name for the range, and what is read from it is those records.
pub open spec fn is_object(
    w: World,
    key: Key,
    range: RangeView,
    records: Seq<ParsedRecord>,
    written_at: int,
) -> bool {
    let name = staged_name(key, range, written_at);
    &&& w.bucket.contains_key(name)
    &&& staged_file(records, written_at) == Some(w.bucket[name])
    &&& reads_back(w.bucket[name], records, written_at)
}

/// Whether the bucket holds what was stored last for a range.
pub open spec fn bucket_holds(w: World, key: Key, range: RangeView) -> bool {
    &&& 0 <= range.start
    &&& 0 <= range.end
    &&& is_object(w, key, range, w.latest[(key, range)].0, w.latest[(key, range)].1)
}

/// Whether an object being uploaded is what the batch was encoded to.
pub open spec fn is_encoded_batch(
    w: World,
    key: Key,
    name: Seq<char>,
    bytes: Seq<u8>,
) -> bool {
    let batch = w.pipeline.batches[key];
    &&& name == staged_name(key, batch.range, w.written_at)
    &&& staged_file(batch.records, w.written_at) == Some(bytes)
    &&& reads_back(bytes, batch.records, w.written_at)
}

/// What holds of the flush in progress.
pub open spec fn flush_ok(w: World, task: TaskView) -> bool {
    match task.stage {
        StageView::AwaitClock => true,
        StageView::AwaitPut { name, bytes, .. } => is_encoded_batch(w, task.key, name, bytes),
        StageView::AwaitRetry { name, bytes, .. } => is_encoded_batch(w, task.key, name, bytes),
        StageView::AwaitCommit { .. } => is_batch_stored(
            w,
            task.key,
            w.pipeline.batches[task.key],
        ),
    }
}

/// Whether what was last uploaded of a range is the beginning of what is held.
pub open spec fn extends_the_upload(w: World, id: RangeId) -> bool {
    held(w.pipeline, id.0, id.1) matches Some(records) && w.uploaded[id].is_prefix_of(records)
}

/// Whether the batch has more than what was last uploaded of its range, where it
/// has something to upload, no commit of it has failed, and none is on its way.
pub open spec fn outgrows_the_upload(w: World, key: Key) -> bool {
    let batch = w.pipeline.batches[key];
    let id = (key, batch.range);
    let committing = w.pipeline.task matches Some(task) && task.key == key
        && task.stage is AwaitCommit;
    w.pipeline.batches.contains_key(key) && batch.dirty && w.uploaded.contains_key(id)
        && !w.uncommitted.contains(id) && !committing ==> w.uploaded[id].len()
        < batch.records.len()
}

/// Whether every upload has been followed by a commit that succeeded, failed or
/// is on its way, or was a partial one.
pub open spec fn uploads_add_up(w: World) -> bool {
    let stats = w.pipeline.stats;
    stats.uploads == stats.commits + stats.partial_uploads + w.failed_commits + commit_pending(
        w.pipeline,
    )
}

/// What holds of a world at all times, however the broker delivers.
pub open spec fn world_inv(w: World) -> bool {
    &&& inv(w.pipeline)
    &&& forall|key: Key, range: RangeView| #[trigger]
        w.latest.contains_key((key, range)) ==> bucket_holds(w, key, range)
    &&& forall|id: RangeId| #[trigger] w.uploaded.contains_key(id) ==> extends_the_upload(w, id)
    &&& forall|key: Key| #[trigger] outgrows_the_upload(w, key)
    &&& w.pipeline.task matches Some(task) ==> flush_ok(w, task)
    &&& uploads_add_up(w)
}

/// Storing an object keeps the bucket in order.
proof fn lemma_after_put_bucket(w: World)
    requires
        world_inv(w),
        w.pipeline.task matches Some(task) && task.stage is AwaitPut,
    ensures
        forall|key: Key, range: RangeView| #[trigger]
            after_put(w).latest.contains_key((key, range)) ==> bucket_holds(
                after_put(w),
                key,
                range,
            ),
{
    let v = w.pipeline;
    let task = v.task->0;
    let batch = v.batches[task.key];
    let after = after_put(w);
    assert(batch_ok(v.range_size, task.key, batch));
    let first = batch.records[0];
    every_offset_is_covered(first.meta.offset as int, v.range_size as int);
    a_range_is_as_wide_as_asked(first.meta.offset as int, v.range_size as int);
    assert(0 <= batch.range.start) by {
        vstd::arithmetic::div_mod::lemma_div_pos_is_pos(
            first.meta.offset as int,
            v.range_size as int,
        );
        vstd::arithmetic::mul::lemma_mul_nonnegative(
            first.meta.offset as int / v.range_size as int,
            v.range_size as int,
        );
    }
    assert forall|key: Key, range: RangeView| #[trigger]
        after.latest.contains_key((key, range)) implies bucket_holds(after, key, range) by {
        if (key, range) != (task.key, batch.range) {
            assert(w.latest.contains_key((key, range)));
            assert(bucket_holds(w, key, range));
            let (records, written_at) = w.latest[(key, range)];
            let name = staged_name(key, range, written_at);
            let put_name = staged_name(task.key, batch.range, w.written_at);
            if name == put_name {
                a_date_holds_no_slash(written_at);
                a_date_holds_no_slash(w.written_at);
                distinct_batches_have_distinct_names(
                    key.0,
                    key.1 as int,
                    utc_date(written_at),
                    range,
                    task.key.0,
                    task.key.1 as int,
                    utc_date(w.written_at),
                    batch.range,
                );
                assert(key == task.key);
            }
        }
    }
}

/// Every step keeps a world in order, however the broker delivers.
proof fn lemma_next(w: World, event: Event)
    requires
        world_inv(w),
        allowed(w, event, Delivery::Any),
    ensures
        world_inv(next(w, event)),
{
    let v = w.pipeline;
    let after = next(w, event);
    every_step_keeps_order(v, event);
    let put = event matches Event::PutDone { result } && result is Ok;
    if put {
        lemma_after_put_bucket(w);
    }
    assert forall|key: Key, range: RangeView| #[trigger]
        after.latest.contains_key((key, range)) implies bucket_holds(after, key, range) by {
        if put {
            assert(after_put(w).latest.contains_key((key, range)));
            assert(bucket_holds(after_put(w), key, range));
        } else {
            assert(bucket_holds(w, key, range));
        }
    }
    assert forall|id: RangeId| #[trigger] after.uploaded.contains_key(
        id,
    ) implies extends_the_upload(after, id) by {
        if put && id == flushed_range(v) {
            let records = v.batches[id.0].records;
            assert(held(v, id.0, id.1) == Some(records));
            a_range_only_grows(v, event, id.0, id.1);
        } else {
            assert(w.uploaded.contains_key(id));
            assert(extends_the_upload(w, id));
            a_range_only_grows(v, event, id.0, id.1);
            let (a, b, c) = (
                w.uploaded[id],
                held(v, id.0, id.1)->0,
                held(step(v, event).0, id.0, id.1)->0,
            );
            assert(a =~= b.subrange(0, a.len() as int));
            assert(b =~= c.subrange(0, b.len() as int));
            assert(a =~= c.subrange(0, a.len() as int)) by {
                assert forall|i: int| 0 <= i < a.len() implies a[i] == c[i] by {
                    assert(a[i] == b.subrange(0, a.len() as int)[i]);
                    assert(b[i] == c.subrange(0, b.len() as int)[i]);
                }
            }
        }
    }
    if event is Revoke {
        lemma_revoke(v, event->Revoke_keys);
    }
    assert forall|key: Key| #[trigger] outgrows_the_upload(after, key) by {
        assert(outgrows_the_upload(w, key));
        let id = (key, after.pipeline.batches[key].range);
        what_is_held_after_a_step(v, event, key, id.1);
        if after.uploaded.contains_key(id) && w.uploaded.contains_key(id) {
            assert(extends_the_upload(w, id));
        }
    }
}

/// Every run keeps a world in order.
pub proof fn every_run_keeps_order(w: World, events: Seq<Event>, delivery: Delivery)
    requires
        is_start(w),
        is_run(w, events, delivery),
    ensures
        world_inv(after_run(w, events)),
        after_run(w, events).pipeline.range_size == w.pipeline.range_size,
    decreases events.len(),
{
    if events.len() > 0 {
        every_run_keeps_order(w, events.drop_last(), delivery);
        let before = after_run(w, events.drop_last());
        lemma_next(before, events.last());
        every_step_keeps_order(before.pipeline, events.last());
    }
}

/// Commit after upload, never before: a commit is only ever asked for in answer
/// to a successful put, and by then the bucket holds an object for the range
/// before that offset, made of all that is held of it. That range has been read
/// to its end, and the offset starts the next one.
pub proof fn a_commit_comes_after_the_upload(
    w: World,
    events: Seq<Event>,
    event: Event,
    delivery: Delivery,
    topic: Seq<char>,
    partition: i32,
    offset: u64,
)
    requires
        is_start(w),
        is_run(w, events.push(event), delivery),
        step(after_run(w, events).pipeline, event).1 == (ActionView::Commit {
            topic,
            partition,
            offset,
        }),
    ensures
        event matches Event::PutDone { result } && result is Ok,
        offset as int % w.pipeline.range_size as int == 0,
        ({
            let now = after_run(w, events.push(event));
            let batch = now.pipeline.batches[(topic, partition)];
            &&& now.pipeline.batches.contains_key((topic, partition))
            &&& batch.range.end + 1 == offset
            &&& batch.records.last().meta.offset >= batch.range.end
            &&& is_object(now, (topic, partition), batch.range, batch.records, now.written_at)
        }),
{
    let all = events.push(event);
    assert(all.drop_last() == events);
    every_run_keeps_order(w, events, delivery);
    let before = after_run(w, events);
    let v = before.pipeline;
    let key = (topic, partition);
    a_commit_answers_a_put(v, event);
    lemma_complete_ends_early(v, key);
    let batch = v.batches[key];
    assert(batch_ok(v.range_size, key, batch));
    let last = batch.records.len() - 1;
    assert(batch.records[last].meta.offset < u64::MAX);
    a_commit_resumes_at_a_range_start(
        batch.records[last].meta.offset as int,
        v.range_size as int,
    );
}

/// Each upload of a range is a superset of the last: what was uploaded of a
/// range, and has not been let go since, is the beginning of what is uploaded
/// of it next. It is a strict one, unless the commit after the last upload
/// failed: then the same records may go up again. A range is let go when an offset past it is committed or its
/// partition is revoked, and for nothing else.
pub proof fn each_upload_of_a_range_is_a_superset(
    w: World,
    events: Seq<Event>,
    event: Event,
    delivery: Delivery,
)
    requires
        is_start(w),
        is_run(w, events.push(event), delivery),
        event matches Event::PutDone { result } && result is Ok,
    ensures
        ({
            let before = after_run(w, events);
            let now = after_run(w, events.push(event));
            let (key, range) = flushed_range(before.pipeline);
            let records = before.pipeline.batches[key].records;
            &&& before.uploaded.contains_key((key, range)) ==> {
                let last = before.uploaded[(key, range)];
                &&& last.is_prefix_of(records)
                &&& !before.uncommitted.contains((key, range)) ==> last.len() < records.len()
            }
            &&& is_object(now, key, range, records, before.written_at)
            &&& now.uploaded.contains_key((key, range)) && now.uploaded[(key, range)] == records
        }),
{
    let all = events.push(event);
    assert(all.drop_last() == events);
    every_run_keeps_order(w, events, delivery);
    let before = after_run(w, events);
    let id = flushed_range(before.pipeline);
    assert(outgrows_the_upload(before, id.0));
    if before.uploaded.contains_key(id) {
        assert(extends_the_upload(before, id));
    }
}

/// What was uploaded of a range is kept track of from one step to the next,
/// until the range is let go.
pub proof fn an_upload_counts_until_its_range_is_let_go(
    w: World,
    events: Seq<Event>,
    event: Event,
    delivery: Delivery,
    id: RangeId,
)
    requires
        is_start(w),
        is_run(w, events.push(event), delivery),
        after_run(w, events).uploaded.contains_key(id),
    ensures
        after_run(w, events.push(event)).uploaded.contains_key(id) <==> !lets_go(
            after_run(w, events).pipeline,
            event,
            id.0,
            id.1,
        ),
{
    let all = events.push(event);
    assert(all.drop_last() == events);
}

/// Uploads add up: each one was followed by a commit, by a commit that failed,
/// by one that is on its way, or was of an incomplete range.
pub proof fn every_upload_is_accounted_for(w: World, events: Seq<Event>, delivery: Delivery)
    requires
        is_start(w),
        is_run(w, events, delivery),
    ensures
        uploads_add_up(after_run(w, events)),
{
    every_run_keeps_order(w, events, delivery);
}

// ─── What holds where nothing committed is delivered again ──────────────────

/// Whether the object last stored for the record's range was made of records
/// that the record is one of.
pub open spec fn is_stored(w: World, key: Key, record: ParsedRecord) -> bool {
    let range = record_range(w.pipeline, record);
    w.latest.contains_key((key, range)) && w.latest[(key, range)].0.contains(record)
}

/// Whether an offset past the range has been committed.
pub open spec fn is_passed(w: World, key: Key, range: RangeView) -> bool {
    w.furthest.contains_key(key) && range.end < w.furthest[key]
}

/// Where a record is: among what is held of its range; or, where nothing is
/// held, in the object of the range, and an offset past it has been committed.
pub open spec fn is_covered(w: World, key: Key, record: ParsedRecord) -> bool {
    let range = record_range(w.pipeline, record);
    match held(w.pipeline, key, range) {
        Some(records) => records.contains(record),
        None => is_stored(w, key, record) && is_passed(w, key, range),
    }
}

/// Whether the records come from one partition.
pub open spec fn is_from(key: Key, records: Seq<ParsedRecord>) -> bool {
    forall|i: int|
        #![trigger records[i]]
        0 <= i < records.len() ==> key_of(records[i]) == key && records[i].meta.offset < u64::MAX
}

/// Whether all of the records are among the others.
pub open spec fn all_among(records: Seq<ParsedRecord>, others: Seq<ParsedRecord>) -> bool {
    forall|i: int| #![trigger records[i]] 0 <= i < records.len() ==> others.contains(records[i])
}

/// What holds of every partition: what was received is covered, what is held
/// was received, and what has nothing new is stored.
pub open spec fn partition_ok(w: World, key: Key) -> bool {
    let records = got(w, key);
    let v = w.pipeline;
    &&& is_from(key, records)
    &&& forall|i: int|
        #![trigger records[i]]
        0 <= i < records.len() ==> is_covered(w, key, records[i])
    &&& forall|range: RangeView|
        #![trigger held(v, key, range)]
        held(v, key, range) is Some ==> all_among(held(v, key, range)->0, records)
    &&& v.batches.contains_key(key) && !v.batches[key].dirty ==> is_batch_stored(
        w,
        key,
        v.batches[key],
    )
    &&& forall|range: RangeView| #[trigger]
        v.left.contains_key((key, range)) ==> is_batch_stored(w, key, v.left[(key, range)])
}

/// Whether any of the records falls into the range.
pub open spec fn any_in_range(
    records: Seq<ParsedRecord>,
    range_size: nat,
    range: RangeView,
) -> bool {
    exists|i: int|
        #![trigger records[i]]
        0 <= i < records.len() && range_of(records[i].meta.offset as int, range_size as int)
            == range
}

/// Whether a record would open a range again of which records were received and
/// nothing is held.
pub open spec fn reopens(w: World, record: ParsedRecord) -> bool {
    let key = key_of(record);
    let range = record_range(w.pipeline, record);
    held(w.pipeline, key, range) is None && any_in_range(
        got(w, key),
        w.pipeline.range_size,
        range,
    )
}

/// What holds of a world at all times where nothing committed is delivered
/// again.
pub open spec fn onward_inv(w: World) -> bool {
    &&& forall|key: Key| #[trigger] partition_ok(w, key)
    &&& w.pipeline.task matches Some(task) ==> (task.goal matches GoalView::Admit(record)
        ==> !reopens(w, record))
}

/// What holds of a partition goes on holding where what is held of each range
/// stays, or is let go once it is stored and an offset past it is committed.
proof fn lemma_partition_kept(a: World, b: World, key: Key)
    requires
        partition_ok(a, key),
        a.pipeline.range_size == b.pipeline.range_size,
        got(a, key) == got(b, key),
        a.furthest.contains_key(key) ==> b.furthest.contains_key(key) && a.furthest[key]
            <= b.furthest[key],
        forall|range: RangeView|
            #![trigger held(b.pipeline, key, range)]
            held(b.pipeline, key, range) == held(a.pipeline, key, range) || (held(
                b.pipeline,
                key,
                range,
            ) is None && b.latest.contains_key((key, range)) && Some(b.latest[(key, range)].0)
                == held(a.pipeline, key, range) && is_passed(b, key, range)),
        forall|range: RangeView|
            #![trigger held(b.pipeline, key, range)]
            held(a.pipeline, key, range) is None && a.latest.contains_key((key, range))
                ==> b.latest.contains_key((key, range)) && b.latest[(key, range)]
                == a.latest[(key, range)],
        b.pipeline.batches.contains_key(key) && !b.pipeline.batches[key].dirty ==> is_batch_stored(
            b,
            key,
            b.pipeline.batches[key],
        ),
        forall|range: RangeView| #[trigger]
            b.pipeline.left.contains_key((key, range)) ==> is_batch_stored(
                b,
                key,
                b.pipeline.left[(key, range)],
            ),
    ensures
        partition_ok(b, key),
{
    let records = got(a, key);
    assert forall|i: int| #![trigger records[i]] 0 <= i < records.len() implies is_covered(
        b,
        key,
        records[i],
    ) by {
        let range = record_range(a.pipeline, records[i]);
        assert(is_covered(a, key, records[i]));
        assert(record_range(b.pipeline, records[i]) == range);
        assert(held(b.pipeline, key, range) == held(a.pipeline, key, range) || held(
            b.pipeline,
            key,
            range,
        ) is None);
    }
    assert forall|range: RangeView|
        #![trigger held(b.pipeline, key, range)]
        held(b.pipeline, key, range) is Some implies all_among(
        held(b.pipeline, key, range)->0,
        records,
    ) by {
        assert(held(b.pipeline, key, range) == held(a.pipeline, key, range));
    }
}

/// What holds of a partition goes on holding where nothing about it changes.
proof fn lemma_frame(a: World, b: World, key: Key)
    requires
        partition_ok(a, key),
        a.pipeline.range_size == b.pipeline.range_size,
        a.pipeline.batches.contains_key(key) == b.pipeline.batches.contains_key(key),
        a.pipeline.batches.contains_key(key) ==> a.pipeline.batches[key]
            == b.pipeline.batches[key],
        forall|range: RangeView|
            #![trigger b.pipeline.left.contains_key((key, range))]
            a.pipeline.left.contains_key((key, range)) == b.pipeline.left.contains_key(
                (key, range),
            ) && (a.pipeline.left.contains_key((key, range)) ==> a.pipeline.left[(key, range)]
                == b.pipeline.left[(key, range)]),
        got(a, key) == got(b, key),
        a.furthest.contains_key(key) ==> b.furthest.contains_key(key) && a.furthest[key]
            <= b.furthest[key],
        forall|range: RangeView| #[trigger]
            a.latest.contains_key((key, range)) ==> b.latest.contains_key((key, range))
                && b.latest[(key, range)] == a.latest[(key, range)],
    ensures
        partition_ok(b, key),
{
    assert forall|range: RangeView|
        #![trigger held(b.pipeline, key, range)]
        held(b.pipeline, key, range) == held(a.pipeline, key, range) by {
        assert(a.pipeline.left.contains_key((key, range)) == b.pipeline.left.contains_key(
            (key, range),
        ));
    }
    if a.pipeline.batches.contains_key(key) && !a.pipeline.batches[key].dirty {
        assert(a.latest.contains_key((key, a.pipeline.batches[key].range)));
    }
    assert forall|range: RangeView| #[trigger]
        b.pipeline.left.contains_key((key, range)) implies is_batch_stored(
        b,
        key,
        b.pipeline.left[(key, range)],
    ) by {
        assert(a.pipeline.left.contains_key((key, range)));
        assert(is_batch_stored(a, key, a.pipeline.left[(key, range)]));
        assert(a.latest.contains_key((key, a.pipeline.left[(key, range)].range)));
    }
    lemma_partition_kept(a, b, key);
}

/// Taking a record in keeps its partition in order.
proof fn lemma_take_in_partition(w: World, record: ParsedRecord, now_ms: u64, after: World)
    requires
        inv(PipelineView { task: None, ..w.pipeline }),
        partition_ok(w, key_of(record)),
        !reopens(w, record),
        record.meta.offset < u64::MAX,
        !crosses_a_boundary(w.pipeline, record),
        after.pipeline == take_in(w.pipeline, record, now_ms).0,
        after.received == receive(w, record).received,
        after.latest == w.latest,
        after.furthest == w.furthest,
    ensures
        partition_ok(after, key_of(record)),
{
    let v = w.pipeline;
    let key = key_of(record);
    let own = record_range(v, record);
    let before = got(w, key);
    let records = got(after, key);
    let next_v = after.pipeline;
    assert(records == before.push(record));
    assert forall|r: ParsedRecord| before.contains(r) || r == record implies #[trigger]
        records.contains(r) by {
        if before.contains(r) {
            let i = choose|i: int| 0 <= i < before.len() && before[i] == r;
            assert(records[i] == r);
        } else {
            assert(records[before.len() as int] == r);
        }
    }
    assert forall|range: RangeView|
        #![trigger held(next_v, key, range)]
        held(next_v, key, range) == if range == own {
            Some(
                match held(v, key, range) {
                    Some(rs) => rs.push(record),
                    None => seq![record],
                },
            )
        } else {
            held(v, key, range)
        } by {
        lemma_take_in_held(v, record, now_ms, key, range);
    }
    assert forall|i: int| #![trigger records[i]] 0 <= i < records.len() implies key_of(records[i])
        == key && records[i].meta.offset < u64::MAX && is_covered(after, key, records[i]) by {
        let r = records[i];
        let range = record_range(v, r);
        assert(held(next_v, key, range) == held(next_v, key, record_range(next_v, r)));
        if i < before.len() {
            assert(before[i] == r);
            assert(is_covered(w, key, before[i]));
            if range == own {
                assert(any_in_range(before, v.range_size, own));
                let rs = held(v, key, own)->0;
                let j = choose|j: int| 0 <= j < rs.len() && rs[j] == r;
                assert(rs.push(record)[j] == r);
            }
        } else {
            let now_held = held(next_v, key, own)->0;
            assert(now_held[now_held.len() - 1] == record);
        }
    }
    assert forall|range: RangeView|
        #![trigger held(next_v, key, range)]
        held(next_v, key, range) is Some implies all_among(
        held(next_v, key, range)->0,
        records,
    ) by {
        let now_held = held(next_v, key, range)->0;
        assert forall|j: int|
            #![trigger now_held[j]]
            0 <= j < now_held.len() implies records.contains(now_held[j]) by {
            if held(v, key, range) is Some {
                let rs = held(v, key, range)->0;
                assert(all_among(rs, before));
                if j < rs.len() {
                    assert(rs[j] == now_held[j]);
                }
            }
        }
    }
    assert forall|range: RangeView| #[trigger]
        next_v.left.contains_key((key, range)) implies is_batch_stored(
        after,
        key,
        next_v.left[(key, range)],
    ) by {
        if v.batches.contains_key(key) && range == v.batches[key].range {
        } else {
            assert(v.left.contains_key((key, range)));
        }
    }
}

/// Storing an object keeps its partition in order, and its batch is then
/// stored.
proof fn lemma_after_put_partition(w: World)
    requires
        world_inv(w),
        onward_inv(w),
        w.pipeline.task matches Some(task) && task.stage is AwaitPut,
    ensures
        partition_ok(after_put(w), w.pipeline.task->0.key),
        is_batch_stored(
            after_put(w),
            w.pipeline.task->0.key,
            w.pipeline.batches[w.pipeline.task->0.key],
        ),
{
    let v = w.pipeline;
    let key = v.task->0.key;
    let after = after_put(w);
    assert(partition_ok(w, key));
    assert forall|range: RangeView| #[trigger]
        after.pipeline.left.contains_key((key, range)) implies is_batch_stored(
        after,
        key,
        after.pipeline.left[(key, range)],
    ) by {
        assert(is_batch_stored(w, key, v.left[(key, range)]));
    }
    lemma_partition_kept(w, after, key);
}

/// The world once an incomplete batch counts as uploaded, before what the flush
/// was for goes on.
spec fn kept_world(w: World) -> World {
    World { pipeline: kept_after_put(w.pipeline), ..after_put(w) }
}

/// The world once a complete batch is committed and let go, before what the
/// flush was for goes on.
spec fn done_world(w: World) -> World {
    World {
        pipeline: done_after_commit(w.pipeline, w.pipeline.task->0.stage->offset),
        ..after_commit(w)
    }
}

/// Counting an incomplete batch as uploaded keeps every partition in order.
proof fn lemma_kept_world(w: World, key: Key)
    requires
        world_inv(w),
        onward_inv(w),
        w.pipeline.task matches Some(task) && task.stage is AwaitPut,
    ensures
        partition_ok(kept_world(w), key),
{
    let v = w.pipeline;
    let kept = kept_world(w);
    assert(partition_ok(w, key));
    if key == v.task->0.key {
        lemma_after_put_partition(w);
        let stored = after_put(w);
        assert forall|range: RangeView|
            #![trigger held(kept.pipeline, key, range)]
            held(kept.pipeline, key, range) == held(stored.pipeline, key, range) by {
            lemma_kept_held(v, key, range);
        }
        assert forall|range: RangeView| #[trigger]
            kept.pipeline.left.contains_key((key, range)) implies is_batch_stored(
            kept,
            key,
            kept.pipeline.left[(key, range)],
        ) by {
            assert(stored.pipeline.left.contains_key((key, range)));
        }
        lemma_partition_kept(stored, kept, key);
    } else {
        lemma_frame(w, kept, key);
    }
}

/// Letting a committed batch go keeps every partition in order.
proof fn lemma_done_world(w: World, key: Key)
    requires
        world_inv(w),
        onward_inv(w),
        w.pipeline.task matches Some(task) && task.stage is AwaitCommit,
    ensures
        partition_ok(done_world(w), key),
{
    let v = w.pipeline;
    let task = v.task->0;
    let offset = task.stage->offset;
    let done = done_world(w);
    assert(partition_ok(w, key));
    if key == task.key {
        let batch = v.batches[key];
        assert forall|range: RangeView|
            #![trigger held(done.pipeline, key, range)]
            held(done.pipeline, key, range) == held(v, key, range) || (held(
                done.pipeline,
                key,
                range,
            ) is None && done.latest.contains_key((key, range)) && Some(
                done.latest[(key, range)].0,
            ) == held(v, key, range) && is_passed(done, key, range)) by {
            lemma_done_held(v, offset, key, range);
            if held(v, key, range) is Some && range != batch.range {
                assert(v.left.contains_key((key, range)));
                assert(is_batch_stored(w, key, v.left[(key, range)]));
            }
        }
        assert forall|range: RangeView| #[trigger]
            done.pipeline.left.contains_key((key, range)) implies is_batch_stored(
            done,
            key,
            done.pipeline.left[(key, range)],
        ) by {
            assert(v.left.contains_key((key, range)));
            assert(is_batch_stored(w, key, v.left[(key, range)]));
        }
        lemma_partition_kept(w, done, key);
    } else {
        assert forall|range: RangeView|
            #![trigger done.pipeline.left.contains_key((key, range))]
            v.left.contains_key((key, range)) == done.pipeline.left.contains_key((key, range)) && (
            v.left.contains_key((key, range)) ==> v.left[(key, range)] == done.pipeline.left[(
                key,
                range,
            )]) by {}
        lemma_frame(w, done, key);
    }
}

/// Where the pipeline goes on from a state in order, with or without a record
/// to take in, it stays in order.
proof fn lemma_goes_on(w: World, record: Option<ParsedRecord>, now_ms: u64, after: World, key: Key)
    requires
        inv(PipelineView { task: None, ..w.pipeline }),
        partition_ok(w, key),
        after.latest == w.latest,
        after.furthest == w.furthest,
        match record {
            Some(r) => {
                &&& partition_ok(w, key_of(r))
                &&& !reopens(w, r)
                &&& r.meta.offset < u64::MAX
                &&& !crosses_a_boundary(w.pipeline, r)
                &&& after.pipeline == take_in(w.pipeline, r, now_ms).0
                &&& after.received == receive(w, r).received
            },
            None => {
                &&& after.pipeline.batches == w.pipeline.batches
                &&& after.pipeline.left == w.pipeline.left
                &&& after.pipeline.range_size == w.pipeline.range_size
                &&& after.received == w.received
            },
        },
    ensures
        partition_ok(after, key),
{
    match record {
        Some(r) => {
            if key == key_of(r) {
                lemma_take_in_partition(w, r, now_ms, after);
            } else {
                lemma_frame(w, after, key);
            }
        },
        None => {
            lemma_frame(w, after, key);
        },
    }
}

/// A record that is not before the committed offset opens no range again.
proof fn lemma_onward_reopens_nothing(w: World, record: ParsedRecord)
    requires
        world_inv(w),
        onward_inv(w),
        !is_below(w, record),
    ensures
        !reopens(w, record),
{
    let v = w.pipeline;
    let key = key_of(record);
    let records = got(w, key);
    assert(partition_ok(w, key));
    if reopens(w, record) {
        let range = record_range(v, record);
        let i = choose|i: int|
            #![trigger records[i]]
            0 <= i < records.len() && range_of(
                records[i].meta.offset as int,
                v.range_size as int,
            ) == range;
        assert(is_covered(w, key, records[i]));
        every_offset_is_covered(record.meta.offset as int, v.range_size as int);
    }
}

/// Every step keeps a world in order where nothing committed is delivered
/// again.
proof fn lemma_next_onward(w: World, event: Event)
    requires
        world_inv(w),
        onward_inv(w),
        allowed(w, event, Delivery::Onward),
    ensures
        onward_inv(next(w, event)),
{
    let v = w.pipeline;
    let after = next(w, event);
    every_step_keeps_order(v, event);
    match event {
        Event::Offer { record, now_ms } => {
            let seen = World {
                pipeline: PipelineView { stats: counted(v.stats, record), ..v },
                ..w
            };
            lemma_onward_reopens_nothing(w, record);
            assert(reopens(seen, record) == reopens(w, record)) by {
                assert(held(seen.pipeline, key_of(record), record_range(v, record)) == held(
                    v,
                    key_of(record),
                    record_range(v, record),
                ));
            }
            assert forall|key: Key| #[trigger] partition_ok(after, key) by {
                assert(partition_ok(w, key));
                assert(partition_ok(w, key_of(record)));
                lemma_frame(w, seen, key);
                lemma_frame(w, seen, key_of(record));
                lemma_goes_on(seen, taken(v, event), now_ms, after, key);
            }
            if crosses_a_boundary(v, record) {
                assert(held(after.pipeline, key_of(record), record_range(v, record)) == held(
                    v,
                    key_of(record),
                    record_range(v, record),
                ));
            }
        },
        Event::Revoke { keys } => {
            lemma_revoke(v, keys);
            assert forall|key: Key| #[trigger] partition_ok(after, key) by {
                assert(partition_ok(w, key));
                assert(after.pipeline.batches.contains_key(key) <==> v.batches.contains_key(key)
                    && !keys.contains(key));
                if !keys.contains(key) {
                    assert(!keys.to_set().contains(key));
                    if v.batches.contains_key(key) {
                        assert(after.pipeline.batches[key] == v.batches[key]);
                    }
                    assert forall|range: RangeView|
                        #![trigger after.pipeline.left.contains_key((key, range))]
                        v.left.contains_key((key, range)) == after.pipeline.left.contains_key(
                            (key, range),
                        ) && (v.left.contains_key((key, range)) ==> v.left[(key, range)]
                            == after.pipeline.left[(key, range)]) by {
                        assert(revoke_all(v, keys).left.contains_key((key, range)) ==> revoke_all(
                            v,
                            keys,
                        ).left[(key, range)] == v.left[(key, range)]);
                    }
                    lemma_frame(w, after, key);
                } else {
                    assert(keys.to_set().contains(key));
                    assert(got(after, key) == Seq::<ParsedRecord>::empty());
                    assert forall|range: RangeView|
                        #![trigger held(after.pipeline, key, range)]
                        held(after.pipeline, key, range) is None by {
                        lemma_revoke_held(v, keys, key, range);
                    }
                }
            }
        },
        Event::PutDone { result } => {
            lemma_next_onward_put(w, event);
        },
        Event::CommitDone { answer } => {
            lemma_next_onward_commit(w, event);
        },
        _ => {
            lemma_same_holdings(w, after);
        },
    }
}

/// A world in which nothing is held, received, stored or committed otherwise is
/// in order too.
proof fn lemma_same_holdings(w: World, after: World)
    requires
        onward_inv(w),
        after.pipeline.range_size == w.pipeline.range_size,
        after.pipeline.batches == w.pipeline.batches,
        after.pipeline.left == w.pipeline.left,
        after.received == w.received,
        after.latest == w.latest,
        after.furthest == w.furthest,
        after.pipeline.task is None || (w.pipeline.task is Some && after.pipeline.task->0.goal
            == w.pipeline.task->0.goal) || !(after.pipeline.task->0.goal is Admit),
    ensures
        onward_inv(after),
{
    assert forall|key: Key| #[trigger] partition_ok(after, key) by {
        assert(partition_ok(w, key));
        lemma_frame(w, after, key);
    }
    if after.pipeline.task is Some {
        match after.pipeline.task->0.goal {
            GoalView::Admit(record) => {
                assert(held(after.pipeline, key_of(record), record_range(w.pipeline, record))
                    == held(w.pipeline, key_of(record), record_range(w.pipeline, record)));
            },
            _ => {},
        }
    }
}

/// The answer of the sink keeps a world in order.
proof fn lemma_next_onward_put(w: World, event: Event)
    requires
        world_inv(w),
        onward_inv(w),
        allowed(w, event, Delivery::Onward),
        event is PutDone,
    ensures
        onward_inv(next(w, event)),
{
    let v = w.pipeline;
    let task = v.task->0;
    let after = next(w, event);
    every_step_keeps_order(v, event);
    if event->result is Err {
        lemma_same_holdings(w, after);
    } else if v.batches[task.key].is_complete() {
        let stored = after_put(w);
        lemma_after_put_partition(w);
        assert forall|key: Key| #[trigger] partition_ok(after, key) by {
            if key == task.key {
                lemma_frame(stored, after, key);
            } else {
                assert(partition_ok(w, key));
                lemma_frame(w, after, key);
            }
        }
        match task.goal {
            GoalView::Admit(record) => {
                assert(held(after.pipeline, key_of(record), record_range(v, record)) == held(
                    v,
                    key_of(record),
                    record_range(v, record),
                ));
            },
            _ => {},
        }
    } else {
        let kept = kept_world(w);
        lemma_kept_after_put(v);
        match task.goal {
            GoalView::Admit(record) => {
                lemma_kept_held(v, task.key, record_range(v, record));
            },
            _ => {},
        }
        assert forall|key: Key| #[trigger] partition_ok(after, key) by {
            lemma_kept_world(w, key);
            lemma_kept_world(w, task.key);
            lemma_goes_on(kept, taken(v, event), task.now_ms, after, key);
        }
    }
}

/// The answer of the broker keeps a world in order.
proof fn lemma_next_onward_commit(w: World, event: Event)
    requires
        world_inv(w),
        onward_inv(w),
        allowed(w, event, Delivery::Onward),
        event is CommitDone,
    ensures
        onward_inv(next(w, event)),
{
    let v = w.pipeline;
    let task = v.task->0;
    let after = next(w, event);
    every_step_keeps_order(v, event);
    if event->answer is Err {
        lemma_same_holdings(w, after);
    } else {
        let done = done_world(w);
        let offset = task.stage->offset;
        lemma_done_after_commit(v, offset);
        match task.goal {
            GoalView::Admit(record) => {
                lemma_done_held(v, offset, task.key, record_range(v, record));
            },
            _ => {},
        }
        assert forall|key: Key| #[trigger] partition_ok(after, key) by {
            lemma_done_world(w, key);
            lemma_done_world(w, task.key);
            lemma_goes_on(done, taken(v, event), task.now_ms, after, key);
        }
    }
}

/// Every run where nothing committed is delivered again keeps a world in order.
proof fn lemma_runs_onward(w: World, events: Seq<Event>)
    requires
        is_start(w),
        is_run(w, events, Delivery::Onward),
    ensures
        world_inv(after_run(w, events)),
        onward_inv(after_run(w, events)),
    decreases events.len(),
{
    every_run_keeps_order(w, events, Delivery::Onward);
    if events.len() == 0 {
        assert forall|key: Key| #[trigger] partition_ok(w, key) by {
            assert(got(w, key) == Seq::<ParsedRecord>::empty());
        }
    } else {
        lemma_runs_onward(w, events.drop_last());
        lemma_next_onward(after_run(w, events.drop_last()), events.last());
    }
}

/// Whether a record is among what is held of its range.
pub open spec fn is_buffered(w: World, key: Key, record: ParsedRecord) -> bool {
    held(w.pipeline, key, record_range(w.pipeline, record)) matches Some(records)
        && records.contains(record)
}

/// Whether the object written at `written_at` for the record's range holds
/// these records, and this one among them.
pub open spec fn is_in_object(
    w: World,
    key: Key,
    record: ParsedRecord,
    records: Seq<ParsedRecord>,
    written_at: int,
) -> bool {
    records.contains(record) && is_object(
        w,
        key,
        record_range(w.pipeline, record),
        records,
        written_at,
    )
}

/// Whether a record is in an object of the bucket.
pub open spec fn is_durable(w: World, key: Key, record: ParsedRecord) -> bool {
    exists|records: Seq<ParsedRecord>, written_at: int| #[trigger]
        is_in_object(w, key, record, records, written_at)
}

/// What is stored is in the bucket.
proof fn lemma_stored_is_durable(w: World, key: Key, record: ParsedRecord)
    requires
        world_inv(w),
        is_stored(w, key, record),
    ensures
        is_durable(w, key, record),
{
    let range = record_range(w.pipeline, record);
    let (records, written_at) = w.latest[(key, range)];
    assert(bucket_holds(w, key, range));
    assert(is_in_object(w, key, record, records, written_at));
}

/// No record is lost, where nothing before the committed offset is delivered
/// again: whatever was taken in from a partition, and has not been revoked,
/// waits in the buffer or is in the bucket.
pub proof fn no_record_is_lost(w: World, events: Seq<Event>, key: Key, i: int)
    requires
        is_start(w),
        is_run(w, events, Delivery::Onward),
        0 <= i < got(after_run(w, events), key).len(),
    ensures
        is_buffered(after_run(w, events), key, got(after_run(w, events), key)[i]) || is_durable(
            after_run(w, events),
            key,
            got(after_run(w, events), key)[i],
        ),
{
    lemma_runs_onward(w, events);
    let now = after_run(w, events);
    assert(partition_ok(now, key));
    let record = got(now, key)[i];
    assert(is_covered(now, key, record));
    if is_stored(now, key, record) {
        lemma_stored_is_durable(now, key, record);
    }
}

/// When a commit is asked for, every record taken in from that partition is in
/// the bucket, where nothing before the committed offset is delivered again.
pub proof fn a_commit_covers_only_stored_records(
    w: World,
    events: Seq<Event>,
    event: Event,
    topic: Seq<char>,
    partition: i32,
    offset: u64,
    i: int,
)
    requires
        is_start(w),
        is_run(w, events.push(event), Delivery::Onward),
        step(after_run(w, events).pipeline, event).1 == (ActionView::Commit {
            topic,
            partition,
            offset,
        }),
        0 <= i < got(after_run(w, events.push(event)), (topic, partition)).len(),
    ensures
        is_durable(
            after_run(w, events.push(event)),
            (topic, partition),
            got(after_run(w, events.push(event)), (topic, partition))[i],
        ),
{
    let all = events.push(event);
    assert(all.drop_last() == events);
    lemma_runs_onward(w, events);
    lemma_runs_onward(w, all);
    let v = after_run(w, events).pipeline;
    let now = after_run(w, all);
    let key = (topic, partition);
    a_commit_answers_a_put(v, event);
    assert(partition_ok(now, key));
    let record = got(now, key)[i];
    let range = record_range(now.pipeline, record);
    assert(is_covered(now, key, record));
    assert(flush_ok(now, now.pipeline.task->0));
    if held(now.pipeline, key, range) is Some && range != now.pipeline.batches[key].range {
        assert(now.pipeline.left.contains_key((key, range)));
        assert(is_batch_stored(now, key, now.pipeline.left[(key, range)]));
    }
    lemma_stored_is_durable(now, key, record);
}

// ─── What is kept in memory ─────────────────────────────────────────────────

/// Whether something is held of a range though an offset past it has been
/// committed.
pub open spec fn is_behind(w: World, key: Key, range: RangeView) -> bool {
    held(w.pipeline, key, range) is Some && is_passed(w, key, range)
}

/// What holds of what is kept: of each partition one range at most is behind,
/// and a record that waits is not before the committed offset.
pub open spec fn memory_inv(w: World) -> bool {
    &&& forall|key: Key, a: RangeView, b: RangeView|
        #![trigger is_behind(w, key, a), is_behind(w, key, b)]
        is_behind(w, key, a) && is_behind(w, key, b) ==> a == b
    &&& w.pipeline.task matches Some(task) ==> (task.goal matches GoalView::Admit(record)
        ==> !is_below(w, record))
}

/// Where a range is behind after a step, it was behind before and is still
/// held; or it is the one that a record waited for while an offset past it was
/// committed, and then no range was left behind.
proof fn lemma_behind(w: World, event: Event, key: Key, range: RangeView)
    requires
        world_inv(w),
        memory_inv(w),
        allowed(w, event, Delivery::Onward),
        is_behind(next(w, event), key, range),
    ensures
        ({
            ||| is_behind(w, key, range)
            ||| {
                &&& event matches Event::CommitDone { answer } && answer is Ok
                &&& w.pipeline.task->0.key == key
                &&& awaited_range(w.pipeline, w.pipeline.task->0.goal) == Some(range)
            }
        }),
        event matches Event::CommitDone { answer } && answer is Ok && w.pipeline.task->0.key == key
            ==> awaited_range(w.pipeline, w.pipeline.task->0.goal) == Some(range),
{
    let v = w.pipeline;
    what_is_held_after_a_step(v, event, key, range);
    match taken(v, event) {
        Some(record) => {
            every_offset_is_covered(record.meta.offset as int, v.range_size as int);
        },
        None => {},
    }
    if event is CommitDone && event->answer is Ok && v.task->0.key == key {
        let batch = v.batches[key];
        lemma_complete_ends_early(v, key);
        if awaited_range(v, v.task->0.goal) != Some(range) {
            assert(held(v, key, range) is Some);
            assert(held(v, key, batch.range) is Some);
            assert(is_behind(w, key, range));
            assert(is_behind(w, key, batch.range));
        }
    }
}

/// Every run where nothing committed is delivered again keeps little in memory.
proof fn lemma_runs_keep_little(w: World, events: Seq<Event>)
    requires
        is_start(w),
        is_run(w, events, Delivery::Onward),
    ensures
        memory_inv(after_run(w, events)),
    decreases events.len(),
{
    if events.len() > 0 {
        let before = after_run(w, events.drop_last());
        let now = after_run(w, events);
        let event = events.last();
        lemma_runs_keep_little(w, events.drop_last());
        every_run_keeps_order(w, events.drop_last(), Delivery::Onward);
        assert forall|key: Key, a: RangeView, b: RangeView|
            #![trigger is_behind(now, key, a), is_behind(now, key, b)]
            is_behind(now, key, a) && is_behind(now, key, b) implies a == b by {
            lemma_behind(before, event, key, a);
            lemma_behind(before, event, key, b);
        }
        if event is Revoke {
            lemma_revoke(before.pipeline, event->Revoke_keys);
        }
    }
}

/// What is kept in memory is bounded by what is uncommitted, where nothing
/// before the committed offset is delivered again: of all ranges of a partition
/// that end before an offset committed of it, something is held of one at most.
/// That one is the range of a record that waited for the commit.
pub proof fn at_most_one_range_is_kept_behind_a_commit(
    w: World,
    events: Seq<Event>,
    key: Key,
    a: RangeView,
    b: RangeView,
)
    requires
        is_start(w),
        is_run(w, events, Delivery::Onward),
        held(after_run(w, events).pipeline, key, a) is Some,
        held(after_run(w, events).pipeline, key, b) is Some,
        is_passed(after_run(w, events), key, a),
        is_passed(after_run(w, events), key, b),
    ensures
        a == b,
{
    lemma_runs_keep_little(w, events);
    let now = after_run(w, events);
    assert(is_behind(now, key, a) && is_behind(now, key, b));
}

// ─── What holds where delivery is in order ──────────────────────────────────

/// Whether no record is before an offset.
pub open spec fn none_before(records: Seq<ParsedRecord>, offset: int) -> bool {
    forall|i: int|
        #![trigger records[i]]
        0 <= i < records.len() ==> offset <= records[i].meta.offset
}

/// What holds of every partition where delivery is in order: whatever is held
/// is uncommitted, and no offset further on has ever been committed.
pub open spec fn partition_in_order(w: World, key: Key) -> bool {
    &&& w.committed.contains_key(key) ==> forall|range: RangeView|
        #![trigger held(w.pipeline, key, range)]
        held(w.pipeline, key, range) is Some ==> none_before(
            held(w.pipeline, key, range)->0,
            w.committed[key],
        )
    &&& w.furthest.contains_key(key) ==> w.committed.contains_key(key) && w.furthest[key]
        <= w.committed[key]
}

/// What holds of a world at all times where delivery is in order.
pub open spec fn order_inv(w: World) -> bool {
    &&& forall|key: Key| #[trigger] partition_in_order(w, key)
    &&& w.pipeline.task matches Some(task) ==> (task.goal matches GoalView::Admit(record)
        ==> in_order(w, record))
}

/// A range that ends beyond another one starts beyond it.
proof fn lemma_ranges_in_order(a: int, b: int, size: int)
    requires
        0 <= a <= u64::MAX,
        0 <= b <= u64::MAX,
        0 < size <= u64::MAX,
        range_of(a, size).end < range_of(b, size).end,
    ensures
        range_of(a, size).end < b,
{
    every_offset_is_covered(a, size);
    every_offset_is_covered(b, size);
    if b <= range_of(a, size).end {
        if range_of(a, size).start <= b {
            every_offset_in_a_range_maps_to_it(a, b, size);
        } else {
            every_offset_in_a_range_maps_to_it(b, a, size);
        }
    }
}

/// The committed offset of the partition stands, in the next world, before all
/// that is then held of it.
proof fn lemma_held_is_uncommitted(w: World, event: Event, key: Key, range: RangeView)
    requires
        world_inv(w),
        onward_inv(w),
        order_inv(w),
        allowed(w, event, Delivery::InOrder),
        held(next(w, event).pipeline, key, range) is Some,
        next(w, event).committed.contains_key(key),
    ensures
        none_before(
            held(next(w, event).pipeline, key, range)->0,
            next(w, event).committed[key],
        ),
{
    let v = w.pipeline;
    let after = next(w, event);
    let now_held = held(after.pipeline, key, range)->0;
    what_is_held_after_a_step(v, event, key, range);
    assert(partition_in_order(w, key));
    assert(partition_ok(w, key));
    let committing = event is CommitDone && event->answer is Ok && v.task->0.key == key;
    assert forall|i: int| #![trigger now_held[i]] 0 <= i < now_held.len() implies after.committed[key]
        <= now_held[i].meta.offset by {
        let r = now_held[i];
        let old = held(v, key, range);
        if old is Some && !lets_go(v, event, key, range) && i < old->0.len() {
            assert(r == old->0[i]);
            if committing {
                // Beyond the committed range, or awaited: and then it is beyond
                // it too, since the record comes in order.
                let offset = v.task->0.stage->offset;
                let batch = v.batches[key];
                lemma_complete_ends_early(v, key);
                assert(batch_ok(v.range_size, key, batch));
                let last = batch.records[batch.records.len() - 1];
                assert(all_among(old->0, got(w, key)));
                assert(held(v, key, batch.range) is Some);
                assert(all_among(batch.records, got(w, key)));
                assert(range_of(r.meta.offset as int, v.range_size as int) == range) by {
                    if v.batches.contains_key(key) && batch.range == range {
                    } else {
                        assert(v.left.contains_key((key, range)));
                        assert(batch_ok(v.range_size, key, v.left[(key, range)]));
                    }
                }
                assert(range.end >= offset) by {
                    if range.end < offset {
                        assert(awaited_range(v, v.task->0.goal) == Some(range));
                        match v.task->0.goal {
                            GoalView::Admit(record) => {
                                assert(in_order(w, record));
                                assert(got(w, key).contains(last));
                                let j = choose|j: int|
                                    0 <= j < got(w, key).len() && got(w, key)[j] == last;
                                assert(got(w, key)[j].meta.offset < record.meta.offset);
                                every_offset_is_covered(
                                    record.meta.offset as int,
                                    v.range_size as int,
                                );
                            },
                            _ => {},
                        }
                    }
                }
                lemma_ranges_in_order(
                    last.meta.offset as int,
                    r.meta.offset as int,
                    v.range_size as int,
                );
            }
        } else {
            let record = taken(v, event)->0;
            assert(r == record);
            if committing {
                let batch = v.batches[key];
                lemma_complete_ends_early(v, key);
                let last = batch.records[batch.records.len() - 1];
                assert(held(v, key, batch.range) is Some);
                assert(all_among(batch.records, got(w, key)));
                assert(got(w, key).contains(last));
                let j = choose|j: int| 0 <= j < got(w, key).len() && got(w, key)[j] == last;
                assert(got(w, key)[j].meta.offset < record.meta.offset);
            }
        }
    }
}

/// Every step keeps a world in order, where delivery is.
proof fn lemma_next_in_order(w: World, event: Event)
    requires
        world_inv(w),
        onward_inv(w),
        order_inv(w),
        allowed(w, event, Delivery::InOrder),
    ensures
        order_inv(next(w, event)),
{
    let v = w.pipeline;
    let after = next(w, event);
    every_step_keeps_order(v, event);
    assert forall|key: Key| #[trigger] partition_in_order(after, key) by {
        assert(partition_in_order(w, key));
        if after.committed.contains_key(key) {
            assert forall|range: RangeView|
                #![trigger held(after.pipeline, key, range)]
                held(after.pipeline, key, range) is Some implies none_before(
                held(after.pipeline, key, range)->0,
                after.committed[key],
            ) by {
                lemma_held_is_uncommitted(w, event, key, range);
            }
        }
        if event is CommitDone && event->answer is Ok && v.task->0.key == key
            && w.furthest.contains_key(key) {
            let batch = v.batches[key];
            assert(batch_ok(v.range_size, key, batch));
            assert(held(v, key, batch.range) is Some);
            assert(none_before(batch.records, w.committed[key]));
            assert(w.committed[key] <= batch.records[0].meta.offset);
            every_offset_is_covered(batch.records[0].meta.offset as int, v.range_size as int);
        }
    }
    if event is Revoke {
        lemma_revoke(v, event->Revoke_keys);
    }
}

/// A broker that delivers each partition in order, from the committed offset
/// on, never delivers anything committed again: such a run is one of those that
/// lose nothing.
pub proof fn a_run_in_order_goes_onward(w: World, events: Seq<Event>)
    requires
        is_start(w),
        is_run(w, events, Delivery::InOrder),
    ensures
        is_run(w, events, Delivery::Onward),
        order_inv(after_run(w, events)),
    decreases events.len(),
{
    if events.len() == 0 {
        assert forall|key: Key| #[trigger] partition_in_order(w, key) by {
            assert forall|range: RangeView|
                #![trigger held(w.pipeline, key, range)]
                held(w.pipeline, key, range) is None by {}
        }
    } else {
        a_run_in_order_goes_onward(w, events.drop_last());
        lemma_runs_onward(w, events.drop_last());
        let before = after_run(w, events.drop_last());
        match events.last() {
            Event::Offer { record, .. } => {
                assert(partition_in_order(before, key_of(record)));
            },
            _ => {},
        }
        lemma_next_in_order(before, events.last());
    }
}

/// What is buffered is uncommitted, where delivery is in order: whoever reads on
/// from the committed offset reads it again, so that dropping it on revocation
/// loses nothing.
pub proof fn a_buffered_record_is_uncommitted(
    w: World,
    events: Seq<Event>,
    key: Key,
    range: RangeView,
    i: int,
)
    requires
        is_start(w),
        is_run(w, events, Delivery::InOrder),
        held(after_run(w, events).pipeline, key, range) matches Some(records) && 0 <= i
            < records.len(),
        after_run(w, events).committed.contains_key(key),
    ensures
        after_run(w, events).committed[key] <= held(
            after_run(w, events).pipeline,
            key,
            range,
        )->0[i].meta.offset,
{
    a_run_in_order_goes_onward(w, events);
    assert(partition_in_order(after_run(w, events), key));
}

/// Nothing is held of a range before the committed offset, where delivery is in
/// order.
pub proof fn in_order_no_range_is_kept_behind_a_commit(
    w: World,
    events: Seq<Event>,
    key: Key,
    range: RangeView,
)
    requires
        is_start(w),
        is_run(w, events, Delivery::InOrder),
        held(after_run(w, events).pipeline, key, range) is Some,
    ensures
        !is_passed(after_run(w, events), key, range),
{
    a_run_in_order_goes_onward(w, events);
    every_run_keeps_order(w, events, Delivery::InOrder);
    let now = after_run(w, events);
    let v = now.pipeline;
    assert(partition_in_order(now, key));
    let records = held(v, key, range)->0;
    if v.batches.contains_key(key) && v.batches[key].range == range {
        assert(batch_ok(v.range_size, key, v.batches[key]));
    } else {
        assert(v.left.contains_key((key, range)));
        assert(batch_ok(v.range_size, key, v.left[(key, range)]));
    }
    let first = records[0];
    every_offset_is_covered(first.meta.offset as int, v.range_size as int);
    if now.furthest.contains_key(key) {
        assert(none_before(records, now.committed[key]));
    }
}

/// Whatever the broker has been told is stored is stored, where delivery is in
/// order: every record taken in from a partition, and before its committed
/// offset, is in the bucket.
pub proof fn everything_before_the_committed_offset_is_stored(
    w: World,
    events: Seq<Event>,
    key: Key,
    i: int,
)
    requires
        is_start(w),
        is_run(w, events, Delivery::InOrder),
        0 <= i < got(after_run(w, events), key).len(),
        after_run(w, events).committed.contains_key(key),
        got(after_run(w, events), key)[i].meta.offset < after_run(w, events).committed[key],
    ensures
        is_durable(after_run(w, events), key, got(after_run(w, events), key)[i]),
{
    a_run_in_order_goes_onward(w, events);
    lemma_runs_onward(w, events);
    let now = after_run(w, events);
    let record = got(now, key)[i];
    assert(partition_ok(now, key));
    assert(partition_in_order(now, key));
    assert(is_covered(now, key, record));
    let range = record_range(now.pipeline, record);
    if held(now.pipeline, key, range) is Some {
        let records = held(now.pipeline, key, range)->0;
        assert(none_before(records, now.committed[key]));
        let j = choose|j: int| 0 <= j < records.len() && records[j] == record;
        assert(now.committed[key] <= records[j].meta.offset);
    }
    lemma_stored_is_durable(now, key, record);
}

/// The committed offset of a partition never goes back, where delivery is in
/// order.
pub proof fn the_committed_offset_never_goes_back(
    w: World,
    events: Seq<Event>,
    event: Event,
    key: Key,
)
    requires
        is_start(w),
        is_run(w, events.push(event), Delivery::InOrder),
        after_run(w, events).committed.contains_key(key),
    ensures
        after_run(w, events.push(event)).committed.contains_key(key),
        after_run(w, events).committed[key] <= after_run(w, events.push(event)).committed[key],
{
    let all = events.push(event);
    assert(all.drop_last() == events);
    a_run_in_order_goes_onward(w, events);
    lemma_runs_onward(w, events);
    let before = after_run(w, events);
    assert(partition_in_order(before, key));
    if event is CommitDone && event->answer is Ok && before.pipeline.task->0.key == key {
        let v = before.pipeline;
        let batch = v.batches[key];
        assert(batch_ok(v.range_size, key, batch));
        assert(held(v, key, batch.range) is Some);
        assert(none_before(batch.records, before.committed[key]));
        let first = batch.records[0];
        assert(before.committed[key] <= first.meta.offset);
        every_offset_is_covered(first.meta.offset as int, v.range_size as int);
    }
}

} // verus!
