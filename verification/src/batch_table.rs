//! What each partition has accumulated, and the table of all of them.

use vstd::prelude::*;

use crate::batching::{BatchRange, RangeView};
use crate::envelope::ParsedRecord;
use crate::parquet_writer::TextSizes;

verus! {

use crate::batching::lemma_range_is_its_boundaries;
use crate::parquet_writer::{
    fits, grown, lemma_fits_by_size, lemma_sizes_grow, sizes_of,
};

/// A partition: its topic, and its number within the topic.
pub type Key = (Seq<char>, i32);

/// An offset range of a partition.
pub type RangeId = (Key, RangeView);

/// The partition that a record came from.
pub open spec fn key_of(record: ParsedRecord) -> Key {
    (record.meta.topic@, record.meta.partition)
}

// ─── One partition ──────────────────────────────────────────────────────────

/// What one partition has accumulated.
pub struct BatchView {
    /// The offset range being filled.
    pub range: RangeView,
    /// The records of that range so far, in order of arrival.
    pub records: Seq<ParsedRecord>,
    /// Whether records were added since the last successful upload.
    pub dirty: bool,
    /// When a record was last added, or the batch last uploaded.
    pub last_append_ms: u64,
}

impl BatchView {
    /// A batch for `range` that holds nothing yet.
    pub open spec fn fresh(range: RangeView, now_ms: u64) -> BatchView {
        BatchView { range, records: Seq::empty(), dirty: false, last_append_ms: now_ms }
    }

    /// The batch with one more record.
    pub open spec fn pushed(self, record: ParsedRecord, now_ms: u64) -> BatchView {
        BatchView {
            range: self.range,
            records: self.records.push(record),
            dirty: true,
            last_append_ms: now_ms,
        }
    }

    /// The batch once all of it has been uploaded.
    pub open spec fn uploaded(self, now_ms: u64) -> BatchView {
        BatchView { dirty: false, last_append_ms: now_ms, ..self }
    }

    /// Whether the last record reaches the end of the range.
    pub open spec fn is_complete(self) -> bool {
        self.records.len() > 0 && self.records.last().meta.offset >= self.range.end
    }

    /// Whether something waits to be uploaded and nothing was added for
    /// `idle_ms`. A clock that went backwards counts as no time at all.
    pub open spec fn is_idle(self, now_ms: u64, idle_ms: u64) -> bool {
        self.dirty && (if now_ms >= self.last_append_ms {
            now_ms - self.last_append_ms
        } else {
            0
        }) >= idle_ms
    }
}

/// Per-partition accumulation state. No I/O, no clock of its own.
pub struct PartitionBatcher {
    range: BatchRange,
    records: Vec<ParsedRecord>,
    sizes: TextSizes,
    dirty: bool,
    last_append_ms: u64,
}

impl View for PartitionBatcher {
    type V = BatchView;

    closed spec fn view(&self) -> BatchView {
        BatchView {
            range: self.range@,
            records: self.records@,
            dirty: self.dirty,
            last_append_ms: self.last_append_ms,
        }
    }
}

impl PartitionBatcher {
    #[verifier::type_invariant]
    spec fn well_formed(self) -> bool {
        self.sizes@ == sizes_of(self.records@) && fits(self.records@)
    }

    /// A batch for `range` that holds nothing yet.
    pub fn new(range: BatchRange, now_ms: u64) -> (r: PartitionBatcher)
        ensures
            r@ == BatchView::fresh(range@, now_ms),
    {
        proof {
            lemma_no_records_fit();
        }
        PartitionBatcher {
            range,
            records: Vec::new(),
            sizes: TextSizes::new(),
            dirty: false,
            last_append_ms: now_ms,
        }
    }

    /// Whether one more record leaves every text column short enough for the
    /// writer.
    pub fn has_room_for(&self, record: &ParsedRecord) -> (r: bool)
        ensures
            r == fits(self@.records.push(*record)),
    {
        proof {
            use_type_invariant(self);
            lemma_sizes_grow(self.records@, *record);
            lemma_fits_by_size(self.records@.push(*record));
        }
        let grown_sizes = self.sizes.after(record);
        proof {
            let next = sizes_of(self.records@.push(*record));
            assert(next == grown(self.sizes@, *record));
            if grown_sizes is Some {
                assert forall|c: int| 0 <= c < 14 implies #[trigger] next[c] <= i32::MAX by {
                    assert(grown(self.sizes@, *record)[c] <= i32::MAX);
                }
            }
        }
        grown_sizes.is_some()
    }

    /// Add a record.
    pub fn push(self, record: ParsedRecord, now_ms: u64) -> (r: PartitionBatcher)
        requires
            fits(self@.records.push(record)),
        ensures
            r@ == self@.pushed(record, now_ms),
    {
        proof {
            use_type_invariant(&self);
            lemma_sizes_grow(self.records@, record);
            lemma_fits_by_size(self.records@.push(record));
            let next = sizes_of(self.records@.push(record));
            assert(next == grown(self.sizes@, record));
            assert forall|c: int| 0 <= c < 14 implies #[trigger] grown(self.sizes@, record)[c]
                <= i32::MAX by {
                assert(next[c] <= i32::MAX);
            }
        }
        let sizes: TextSizes = match self.sizes.after(&record) {
            Some(sizes) => sizes,
            None => TextSizes::new(),
        };
        let range: BatchRange = self.range;
        let mut records: Vec<ParsedRecord> = self.records;
        records.push(record);
        PartitionBatcher { range, records, sizes, dirty: true, last_append_ms: now_ms }
    }

    /// Note that all of the batch has been uploaded. The records stay.
    pub fn mark_uploaded(self, now_ms: u64) -> (r: PartitionBatcher)
        ensures
            r@ == self@.uploaded(now_ms),
    {
        proof {
            use_type_invariant(&self);
        }
        PartitionBatcher {
            range: self.range,
            records: self.records,
            sizes: self.sizes,
            dirty: false,
            last_append_ms: now_ms,
        }
    }

    /// The offset range being filled.
    pub fn range(&self) -> (r: BatchRange)
        ensures
            r@ == self@.range,
    {
        self.range
    }

    /// The records so far. They always fit the writer.
    pub fn records(&self) -> (r: &[ParsedRecord])
        ensures
            r@ == self@.records,
            fits(r@),
    {
        proof {
            use_type_invariant(self);
        }
        self.records.as_slice()
    }

    /// Whether records were added since the last successful upload.
    pub fn is_dirty(&self) -> (r: bool)
        ensures
            r == self@.dirty,
    {
        self.dirty
    }

    /// Whether the last record reaches the end of the range.
    pub fn is_complete(&self) -> (r: bool)
        ensures
            r == self@.is_complete(),
    {
        let n: usize = self.records.len();
        n > 0 && self.range.is_complete(self.records[n - 1].meta.offset)
    }

    /// Whether something waits to be uploaded and nothing was added for
    /// `idle_ms`.
    pub fn is_idle(&self, now_ms: u64, idle_ms: u64) -> (r: bool)
        ensures
            r == self@.is_idle(now_ms, idle_ms),
    {
        self.dirty && now_ms.saturating_sub(self.last_append_ms) >= idle_ms
    }
}

/// No records take no room.
proof fn lemma_no_records_fit()
    ensures
        fits(Seq::empty()),
{
}

// ─── Keys ───────────────────────────────────────────────────────────────────

/// What batches are told apart by.
pub trait TableKey: View + Sized {
    /// Whether two keys are the same.
    fn same(&self, other: &Self) -> (r: bool)
        ensures
            r == (self@ == other@),
    ;

    /// The key, once more.
    fn copied(&self) -> (r: Self)
        ensures
            r@ == self@,
    ;
}

/// A partition.
impl TableKey for (String, i32) {
    fn same(&self, other: &(String, i32)) -> (r: bool) {
        self.1 == other.1 && self.0 == other.0
    }

    fn copied(&self) -> (r: (String, i32)) {
        (self.0.clone(), self.1)
    }
}

/// A range of a partition.
impl TableKey for ((String, i32), BatchRange) {
    fn same(&self, other: &((String, i32), BatchRange)) -> (r: bool) {
        let (a, b): (BatchRange, BatchRange) = (self.1, other.1);
        proof {
            lemma_range_is_its_boundaries(a, b);
        }
        a == b && self.0.same(&other.0)
    }

    fn copied(&self) -> (r: ((String, i32), BatchRange)) {
        (self.0.copied(), self.1)
    }
}

// ─── Tables ─────────────────────────────────────────────────────────────────

struct Slot<K> {
    key: K,
    batch: PartitionBatcher,
}

/// Batches by key. A key has one at most.
pub struct BatchTable<K: TableKey> {
    slots: Vec<Slot<K>>,
}

/// Which batches are asked for.
#[derive(Debug, Clone, Copy)]
pub enum Wanted {
    /// All of them.
    All,
    /// Those with something to upload.
    Dirty,
    /// Those that are idle.
    Idle { now_ms: u64, idle_ms: u64 },
}

impl Wanted {
    /// Whether a batch is asked for.
    pub open spec fn accepts(self, batch: BatchView) -> bool {
        match self {
            Wanted::All => true,
            Wanted::Dirty => batch.dirty,
            Wanted::Idle { now_ms, idle_ms } => batch.is_idle(now_ms, idle_ms),
        }
    }

    fn test(self, batch: &PartitionBatcher) -> (r: bool)
        ensures
            r == self.accepts(batch@),
    {
        match self {
            Wanted::All => true,
            Wanted::Dirty => batch.is_dirty(),
            Wanted::Idle { now_ms, idle_ms } => batch.is_idle(now_ms, idle_ms),
        }
    }
}

/// Whether `i` is the slot of `key`.
spec fn holds_key<K: TableKey>(slots: Seq<Slot<K>>, i: int, key: K::V) -> bool {
    0 <= i < slots.len() && slots[i].key@ == key
}

/// The batches in `slots`, by partition.
spec fn contents<K: TableKey>(slots: Seq<Slot<K>>) -> Map<K::V, BatchView> {
    Map::new(
        |key: K::V| exists|i: int| holds_key(slots, i, key),
        |key: K::V| slots[choose|i: int| holds_key(slots, i, key)].batch@,
    )
}

/// No partition has two slots.
spec fn distinct<K: TableKey>(slots: Seq<Slot<K>>) -> bool {
    forall|i: int, j: int|
        #![trigger slots[i], slots[j]]
        0 <= i < slots.len() && 0 <= j < slots.len() && slots[i].key@ == slots[j].key@ ==> i == j
}

/// What a slot holds is what the table has for its partition.
proof fn lemma_slot<K: TableKey>(slots: Seq<Slot<K>>, i: int)
    requires
        distinct(slots),
        0 <= i < slots.len(),
    ensures
        contents(slots).contains_key(slots[i].key@),
        contents(slots)[slots[i].key@] == slots[i].batch@,
{
    let key = slots[i].key@;
    assert(holds_key(slots, i, key));
    let j = choose|j: int| holds_key(slots, j, key);
    assert(holds_key(slots, j, key));
    assert(slots[i].key@ == slots[j].key@);
}

/// A table has as many partitions as slots.
proof fn lemma_count<K: TableKey>(slots: Seq<Slot<K>>)
    requires
        distinct(slots),
    ensures
        contents(slots).dom().finite(),
        contents(slots).dom().len() == slots.len(),
{
    let keys = slots.map_values(|s: Slot<K>| s.key@);
    assert(keys.no_duplicates()) by {
        assert forall|i: int, j: int|
            0 <= i < keys.len() && 0 <= j < keys.len() && i != j implies keys[i] != keys[j] by {
            assert(keys[i] == slots[i].key@);
            assert(keys[j] == slots[j].key@);
        }
    }
    keys.unique_seq_to_set();
    assert(keys.to_set() =~= contents(slots).dom()) by {
        assert forall|key: K::V| #[trigger] keys.to_set().contains(key) implies contents(
            slots,
        ).dom().contains(key) by {
            let i = choose|i: int| 0 <= i < keys.len() && keys[i] == key;
            assert(holds_key(slots, i, key));
        }
        assert forall|key: K::V| #[trigger] contents(slots).dom().contains(key) implies keys.to_set()
            .contains(key) by {
            let i = choose|i: int| holds_key(slots, i, key);
            assert(keys[i] == key);
        }
    }
}

impl<K: TableKey> View for BatchTable<K> {
    type V = Map<K::V, BatchView>;

    closed spec fn view(&self) -> Map<K::V, BatchView> {
        contents(self.slots@)
    }
}

impl<K: TableKey> BatchTable<K> {
    #[verifier::type_invariant]
    spec fn well_formed(self) -> bool {
        distinct(self.slots@)
    }

    /// A table without any partitions.
    pub fn new() -> (r: BatchTable<K>)
        ensures
            r@ == Map::<K::V, BatchView>::empty(),
    {
        let r = BatchTable { slots: Vec::new() };
        assert(r@ =~= Map::<K::V, BatchView>::empty());
        r
    }

    /// How many partitions have a batch.
    pub fn len(&self) -> (r: usize)
        ensures
            self@.dom().finite(),
            r == self@.dom().len(),
    {
        proof {
            use_type_invariant(self);
            lemma_count(self.slots@);
        }
        self.slots.len()
    }

    /// The slot of `key`, where it has one.
    fn position(&self, key: &K) -> (r: Option<usize>)
        ensures
            match r {
                Some(i) => holds_key(self.slots@, i as int, key@) && self@.contains_key(key@)
                    && self@[key@] == self.slots@[i as int].batch@,
                None => !self@.contains_key(key@),
            },
    {
        proof {
            use_type_invariant(self);
        }
        let mut i: usize = 0;
        while i < self.slots.len()
            invariant
                i <= self.slots.len(),
                distinct(self.slots@),
                forall|j: int| 0 <= j < i ==> !holds_key(self.slots@, j, key@),
            decreases self.slots.len() - i,
        {
            if self.slots[i].key.same(key) {
                proof {
                    lemma_slot(self.slots@, i as int);
                }
                return Some(i);
            }
            i = i + 1;
        }
        None
    }

    /// The batch of a partition, where it has one.
    pub fn get(&self, key: &K) -> (r: Option<&PartitionBatcher>)
        ensures
            r is Some <==> self@.contains_key(key@),
            r matches Some(batch) ==> batch@ == self@[key@],
    {
        match self.position(key) {
            Some(i) => Some(&self.slots[i].batch),
            None => None,
        }
    }

    /// Remove the batch of a partition, where it has one, and hand it out.
    pub fn take(&mut self, key: &K) -> (r: Option<PartitionBatcher>)
        ensures
            r is Some <==> old(self)@.contains_key(key@),
            r matches Some(batch) ==> batch@ == old(self)@[key@],
            final(self)@ == old(self)@.remove(key@),
    {
        match self.position(key) {
            Some(i) => {
                proof {
                    use_type_invariant(&*self);
                }
                let ghost before = self.slots@;
                let mut slots: Vec<Slot<K>> = Vec::new();
                std::mem::swap(&mut slots, &mut self.slots);
                let slot: Slot<K> = slots.swap_remove(i);
                proof {
                    lemma_swap_remove(before, i as int, slots@);
                }
                self.slots = slots;
                Some(slot.batch)
            },
            None => {
                assert(self@ =~= self@.remove(key@));
                None
            },
        }
    }

    /// Give a partition a batch, in place of the one it may have.
    pub fn put(&mut self, key: K, batch: PartitionBatcher)
        ensures
            final(self)@ == old(self)@.insert(key@, batch@),
    {
        let ghost whole = self@;
        let ghost k = key@;
        let _replaced = self.take(&key);
        proof {
            use_type_invariant(&*self);
            assert(!self@.contains_key(k));
        }
        let ghost before = self.slots@;
        let mut slots: Vec<Slot<K>> = Vec::new();
        std::mem::swap(&mut slots, &mut self.slots);
        slots.push(Slot { key, batch });
        proof {
            lemma_push(before, slots@.last());
            assert(slots@ == before.push(slots@.last()));
            assert(whole.remove(k).insert(k, batch@) =~= whole.insert(k, batch@));
        }
        self.slots = slots;
    }

    /// The keys of the batches that are asked for.
    pub fn keys(&self, wanted: Wanted) -> (r: Vec<K>)
        ensures
            lists(key_views(r@), self@, wanted),
    {
        proof {
            use_type_invariant(self);
        }
        let mut keys: Vec<K> = Vec::new();
        let mut i: usize = 0;
        assert(lists_slots(key_views(keys@), self.slots@, 0, wanted));
        while i < self.slots.len()
            invariant
                i <= self.slots.len(),
                distinct(self.slots@),
                lists_slots(key_views(keys@), self.slots@, i as int, wanted),
            decreases self.slots.len() - i,
        {
            let ghost before = key_views(keys@);
            if wanted.test(&self.slots[i].batch) {
                keys.push(self.slots[i].key.copied());
                assert(key_views(keys@) =~= before.push(self.slots@[i as int].key@));
            }
            proof {
                lemma_lists_step(before, self.slots@, i as int, wanted);
            }
            i = i + 1;
        }
        proof {
            lemma_lists_all(key_views(keys@), self.slots@, wanted);
        }
        keys
    }
}

/// The views of the keys in a list.
pub open spec fn key_views<K: View>(keys: Seq<K>) -> Seq<K::V> {
    keys.map_values(|k: K| k@)
}

/// Whether `keys` lists, once each, the keys whose batch is wanted.
pub open spec fn lists<V>(keys: Seq<V>, batches: Map<V, BatchView>, wanted: Wanted) -> bool {
    &&& keys.no_duplicates()
    &&& forall|k: V| #[trigger]
        keys.contains(k) <==> batches.contains_key(k) && wanted.accepts(batches[k])
}

/// Whether `keys` lists, once each, the partitions whose batch is wanted among
/// the first `n` slots.
spec fn lists_slots<K: TableKey>(
    keys: Seq<K::V>,
    slots: Seq<Slot<K>>,
    n: int,
    wanted: Wanted,
) -> bool {
    &&& keys.no_duplicates()
    &&& forall|k: K::V| #[trigger]
        keys.contains(k) <==> exists|i: int|
            0 <= i < n && holds_key(slots, i, k) && wanted.accepts(slots[i].batch@)
}

/// One more slot.
proof fn lemma_lists_step<K: TableKey>(
    keys: Seq<K::V>,
    slots: Seq<Slot<K>>,
    n: int,
    wanted: Wanted,
)
    requires
        distinct(slots),
        0 <= n < slots.len(),
        lists_slots(keys, slots, n, wanted),
    ensures
        wanted.accepts(slots[n].batch@) ==> lists_slots(keys.push(slots[n].key@), slots, n + 1, wanted),
        !wanted.accepts(slots[n].batch@) ==> lists_slots(keys, slots, n + 1, wanted),
{
    let key = slots[n].key@;
    assert(holds_key(slots, n, key));
    if wanted.accepts(slots[n].batch@) {
        let more = keys.push(key);
        if keys.contains(key) {
            let i = choose|i: int|
                0 <= i < n && holds_key(slots, i, key) && wanted.accepts(slots[i].batch@);
            assert(slots[i].key@ == slots[n].key@);
        }
        assert forall|k: K::V| #[trigger] more.contains(k) <==> exists|i: int|
            0 <= i < n + 1 && holds_key(slots, i, k) && wanted.accepts(slots[i].batch@) by {
            if more.contains(k) {
                let j = choose|j: int| 0 <= j < more.len() && more[j] == k;
                if j < keys.len() {
                    assert(keys[j] == k);
                    assert(keys.contains(k));
                    let i = choose|i: int|
                        0 <= i < n && holds_key(slots, i, k) && wanted.accepts(slots[i].batch@);
                    assert(holds_key(slots, i, k));
                } else {
                    assert(holds_key(slots, n, k));
                }
            }
            if exists|i: int|
                0 <= i < n + 1 && holds_key(slots, i, k) && wanted.accepts(slots[i].batch@) {
                let i = choose|i: int|
                    0 <= i < n + 1 && holds_key(slots, i, k) && wanted.accepts(slots[i].batch@);
                if i < n {
                    assert(keys.contains(k));
                    let j = choose|j: int| 0 <= j < keys.len() && keys[j] == k;
                    assert(more[j] == k);
                } else {
                    assert(more[keys.len() as int] == k);
                }
            }
        }
    } else {
        assert forall|k: K::V| #[trigger] keys.contains(k) <==> exists|i: int|
            0 <= i < n + 1 && holds_key(slots, i, k) && wanted.accepts(slots[i].batch@) by {
            if keys.contains(k) {
                let i = choose|i: int|
                    0 <= i < n && holds_key(slots, i, k) && wanted.accepts(slots[i].batch@);
                assert(holds_key(slots, i, k));
            }
            if exists|i: int|
                0 <= i < n + 1 && holds_key(slots, i, k) && wanted.accepts(slots[i].batch@) {
                let i = choose|i: int|
                    0 <= i < n + 1 && holds_key(slots, i, k) && wanted.accepts(slots[i].batch@);
                assert(i < n);
            }
        }
    }
}

/// All slots.
proof fn lemma_lists_all<K: TableKey>(keys: Seq<K::V>, slots: Seq<Slot<K>>, wanted: Wanted)
    requires
        distinct(slots),
        lists_slots(keys, slots, slots.len() as int, wanted),
    ensures
        lists(keys, contents(slots), wanted),
{
    let batches = contents(slots);
    assert forall|k: K::V| #[trigger] keys.contains(k) <==> batches.contains_key(k) && wanted.accepts(
        batches[k],
    ) by {
        if keys.contains(k) {
            let i = choose|i: int|
                0 <= i < slots.len() && holds_key(slots, i, k) && wanted.accepts(slots[i].batch@);
            lemma_slot(slots, i);
        }
        if batches.contains_key(k) && wanted.accepts(batches[k]) {
            let i = choose|i: int| holds_key(slots, i, k);
            lemma_slot(slots, i);
            assert(holds_key(slots, i, k));
        }
    }
}

/// Removing a slot removes its partition and nothing else.
proof fn lemma_swap_remove<K: TableKey>(before: Seq<Slot<K>>, i: int, after: Seq<Slot<K>>)
    requires
        distinct(before),
        0 <= i < before.len(),
        after == before.update(i, before.last()).drop_last(),
    ensures
        distinct(after),
        contents(after) == contents(before).remove(before[i].key@),
{
    let key = before[i].key@;
    let last = before.len() - 1;
    assert forall|a: int, b: int|
        #![trigger after[a], after[b]]
        0 <= a < after.len() && 0 <= b < after.len() && after[a].key@ == after[b].key@ implies a
        == b by {
        let a0 = if a == i { last } else { a };
        let b0 = if b == i { last } else { b };
        assert(after[a] == before[a0]);
        assert(after[b] == before[b0]);
        assert(before[a0].key@ == before[b0].key@);
    }
    let expected = contents(before).remove(key);
    assert forall|k: K::V| contents(after).contains_key(k) <==> expected.contains_key(k) by {
        if contents(after).contains_key(k) {
            let a = choose|a: int| holds_key(after, a, k);
            let a0 = if a == i { last } else { a };
            assert(after[a] == before[a0]);
            assert(holds_key(before, a0, k));
            assert(a0 != i);
            assert(before[a0].key@ != before[i].key@);
        }
        if expected.contains_key(k) {
            let a0 = choose|a: int| holds_key(before, a, k);
            let a = if a0 == last { i } else { a0 };
            assert(a0 != i);
            assert(after[a] == before[a0]);
            assert(holds_key(after, a, k));
        }
    }
    assert forall|k: K::V| contents(after).contains_key(k) implies contents(after)[k]
        == expected[k] by {
        let a = choose|a: int| holds_key(after, a, k);
        let a0 = if a == i { last } else { a };
        assert(after[a] == before[a0]);
        lemma_slot(after, a);
        lemma_slot(before, a0);
    }
    assert(contents(after) =~= expected);
}

/// Adding a slot for a partition that has none adds that partition.
proof fn lemma_push<K: TableKey>(before: Seq<Slot<K>>, slot: Slot<K>)
    requires
        distinct(before),
        !contents(before).contains_key(slot.key@),
    ensures
        distinct(before.push(slot)),
        contents(before.push(slot)) == contents(before).insert(slot.key@, slot.batch@),
{
    let after = before.push(slot);
    let n = before.len() as int;
    assert forall|a: int, b: int|
        #![trigger after[a], after[b]]
        0 <= a < after.len() && 0 <= b < after.len() && after[a].key@ == after[b].key@ implies a
        == b by {
        if a < n && b < n {
            assert(before[a].key@ == before[b].key@);
        } else if a < n {
            assert(holds_key(before, a, slot.key@));
        } else if b < n {
            assert(holds_key(before, b, slot.key@));
        }
    }
    let expected = contents(before).insert(slot.key@, slot.batch@);
    assert forall|k: K::V| contents(after).contains_key(k) <==> expected.contains_key(k) by {
        if contents(after).contains_key(k) {
            let a = choose|a: int| holds_key(after, a, k);
            if a < n {
                assert(holds_key(before, a, k));
            }
        }
        if expected.contains_key(k) {
            if k == slot.key@ {
                assert(holds_key(after, n, k));
            } else {
                let a = choose|a: int| holds_key(before, a, k);
                assert(holds_key(after, a, k));
            }
        }
    }
    assert forall|k: K::V| contents(after).contains_key(k) implies contents(after)[k]
        == expected[k] by {
        let a = choose|a: int| holds_key(after, a, k);
        lemma_slot(after, a);
        if a < n {
            lemma_slot(before, a);
            assert(holds_key(before, a, k));
        }
    }
    assert(contents(after) =~= expected);
}

// ─── Ranges that were left ──────────────────────────────────────────────────

/// Whether a range is one to forget: it is of the partition, it ends before
/// `before` where that is given, and it is not the one to keep.
pub open spec fn is_forgotten(
    id: RangeId,
    key: Key,
    before: Option<u64>,
    keep: Option<RangeView>,
) -> bool {
    &&& id.0 == key
    &&& before matches Some(offset) ==> id.1.end < offset
    &&& keep != Some(id.1)
}

/// The ranges without those to forget.
pub open spec fn without(
    ranges: Map<RangeId, BatchView>,
    key: Key,
    before: Option<u64>,
    keep: Option<RangeView>,
) -> Map<RangeId, BatchView> {
    Map::new(
        |id: RangeId| ranges.contains_key(id) && !is_forgotten(id, key, before, keep),
        |id: RangeId| ranges[id],
    )
}

/// The view of an optional range.
pub open spec fn range_view(range: Option<BatchRange>) -> Option<RangeView> {
    match range {
        Some(r) => Some(r@),
        None => None,
    }
}

impl BatchTable<((String, i32), BatchRange)> {
    /// Drop the ranges of a partition: all of them, or where `before` is given
    /// those that end before it; but not the one to keep.
    pub fn forget(&mut self, key: &(String, i32), before: Option<u64>, keep: Option<BatchRange>)
        ensures
            final(self)@ == without(old(self)@, key@, before, range_view(keep)),
    {
        let ghost whole = self@;
        let keys: Vec<((String, i32), BatchRange)> = self.keys(Wanted::All);
        let ghost ids = key_views(keys@);
        let mut i: usize = 0;
        while i < keys.len()
            invariant
                i <= keys.len(),
                ids == key_views(keys@),
                forall|id: RangeId| #[trigger]
                    self@.contains_key(id) <==> whole.contains_key(id) && !(is_forgotten(
                        id,
                        key@,
                        before,
                        range_view(keep),
                    ) && exists|j: int| 0 <= j < i && ids[j] == id),
                forall|id: RangeId| #[trigger]
                    self@.contains_key(id) ==> self@[id] == whole[id],
            decreases keys.len() - i,
        {
            let range: BatchRange = keys[i].1;
            let passed: bool = match before {
                Some(offset) => range.end() < offset,
                None => true,
            };
            let kept: bool = match keep {
                Some(r) => {
                    proof {
                        lemma_range_is_its_boundaries(r, range);
                    }
                    r == range
                },
                None => false,
            };
            let ghost id = ids[i as int];
            assert(id == (keys@[i as int].0@, range@));
            if keys[i].0.same(key) && passed && !kept {
                assert(is_forgotten(id, key@, before, range_view(keep)));
                let _dropped = self.take(&keys[i]);
            } else {
                assert(!is_forgotten(id, key@, before, range_view(keep)));
            }
            i = i + 1;
        }
        proof {
            let expected = without(whole, key@, before, range_view(keep));
            assert forall|id: RangeId|
                #![trigger self@.dom().contains(id)]
                self@.dom().contains(id) <==> expected.dom().contains(id) by {
                assert(self@.contains_key(id) == self@.dom().contains(id));
                if whole.contains_key(id) {
                    assert(ids.contains(id));
                    let j = choose|j: int| 0 <= j < ids.len() && ids[j] == id;
                    assert(0 <= j < i && ids[j] == id);
                }
            }
            assert forall|id: RangeId|
                #![trigger self@[id]]
                self@.dom().contains(id) implies self@[id] == expected[id] by {
                assert(self@.contains_key(id));
            }
            assert(self@.dom() =~= expected.dom());
            assert(self@ =~= expected);
        }
    }
}

// ─── Laws ───────────────────────────────────────────────────────────────────

/// Keys are seen as they are, in their order, and a record's key is its topic
/// and its partition.
pub proof fn keys_are_seen_as_they_are(
    keys: Seq<(String, i32)>,
    i: int,
    record: ParsedRecord,
)
    requires
        0 <= i < keys.len(),
    ensures
        key_views(keys).len() == keys.len(),
        key_views(keys)[i] == (keys[i].0@, keys[i].1),
        key_of(record) == (record.meta.topic@, record.meta.partition),
{
}

/// A batch is complete exactly where its last record reaches the end of its
/// range, however many records it has; one without records is not.
pub proof fn a_batch_is_complete_at_the_end_of_its_range(batch: BatchView)
    ensures
        batch.records.len() > 0 ==> (batch.is_complete() <==> batch.records[batch.records.len()
            - 1].meta.offset >= batch.range.end),
        batch.records.len() == 0 ==> !batch.is_complete(),
{
}

/// A batch is idle exactly where it has something to upload and nothing was
/// added for long enough, by a clock that may have gone backwards.
pub proof fn a_batch_is_idle_after_a_while(batch: BatchView, now_ms: u64, idle_ms: u64)
    ensures
        batch.is_idle(now_ms, idle_ms) <==> batch.dirty && (idle_ms == 0 || now_ms
            >= batch.last_append_ms + idle_ms),
        Wanted::All.accepts(batch),
        Wanted::Dirty.accepts(batch) <==> batch.dirty,
        (Wanted::Idle { now_ms, idle_ms }).accepts(batch) <==> batch.dirty && (idle_ms == 0
            || now_ms >= batch.last_append_ms + idle_ms),
{
}

/// What becomes of a batch: it starts empty and with nothing to upload; a record
/// is added at its end and waits to be uploaded; and an upload leaves the records
/// and the range as they are.
pub proof fn a_batch_only_ever_grows(
    range: RangeView,
    batch: BatchView,
    record: ParsedRecord,
    now_ms: u64,
)
    ensures
        BatchView::fresh(range, now_ms).range == range,
        BatchView::fresh(range, now_ms).records.len() == 0,
        !BatchView::fresh(range, now_ms).dirty,
        BatchView::fresh(range, now_ms).last_append_ms == now_ms,
        batch.pushed(record, now_ms).range == batch.range,
        batch.pushed(record, now_ms).records == batch.records + seq![record],
        batch.pushed(record, now_ms).dirty,
        batch.pushed(record, now_ms).last_append_ms == now_ms,
        batch.uploaded(now_ms).range == batch.range,
        batch.uploaded(now_ms).records == batch.records,
        !batch.uploaded(now_ms).dirty,
        batch.uploaded(now_ms).last_append_ms == now_ms,
{
    assert(batch.records.push(record) =~= batch.records + seq![record]);
}

/// What is forgotten of a table of ranges: those of the partition that end before
/// the offset, or all of them where none is given, but not the one to keep. The
/// rest stays as it is.
pub proof fn only_what_is_to_be_forgotten_is(
    ranges: Map<RangeId, BatchView>,
    key: Key,
    before: Option<u64>,
    keep: Option<RangeView>,
    other: Key,
    range: RangeView,
)
    ensures
        ({
            let after = without(ranges, key, before, keep);
            let goes = other == key && keep != Some(range) && (before matches Some(offset)
                ==> range.end < offset);
            &&& after.contains_key((other, range)) <==> ranges.contains_key((other, range)) && !goes
            &&& after.contains_key((other, range)) ==> after[(other, range)] == ranges[(
                other,
                range,
            )]
        }),
{
}

} // verus!
