//! Fixed-boundary batching, and the object names derived from it.
//!
//! # Why fixed boundaries
//!
//! Staging object names embed the offset range they cover:
//!
//! ```text
//! ingestion-events/dt=2026-09-13/0-0-9999.parquet
//! ```
//!
//! A retried upload writes the *same* object name and therefore overwrites in
//! place instead of leaving a duplicate behind. That only works if the
//! boundaries are reproducible, so they are a pure function of the offset,
//! never of timing or of what happens to be buffered:
//!
//! ```text
//! start = (offset / range_size) * range_size
//! end   = start + range_size - 1
//! ```
//!
//! Any offset in a range maps to that range, on any consumer, at any time.
//!
//! # The trailing batch
//!
//! A partial batch is flushed on an idle timer, under the **same name its full
//! range would use**, so completing the range later overwrites it in place.

use vstd::arithmetic::div_mod::*;
use vstd::arithmetic::mul::*;
use vstd::prelude::*;

use crate::text::{push_decimal, push_signed_decimal};
use crate::units::NonZeroU64;

verus! {

use crate::text::{
    a_decimal_number_reads_back, a_signed_decimal_number_reads_back, decimal, digit, is_numeral,
    lemma_decimal_chars, place_value, signed_decimal,
};

// ─── Ranges ─────────────────────────────────────────────────────────────────

/// What a [`BatchRange`] covers: the offsets from `start` to `end`, both
/// included.
pub struct RangeView {
    pub start: int,
    pub end: int,
}

/// The range that `offset` falls into when ranges are `size` wide. The range at
/// the very top of the offset space is clamped to it.
pub open spec fn range_of(offset: int, size: int) -> RangeView {
    let start = (offset / size) * size;
    let end = start + size - 1;
    RangeView { start, end: if end <= u64::MAX { end } else { u64::MAX as int } }
}

impl RangeView {
    /// Whether `offset` is covered.
    pub open spec fn covers(self, offset: int) -> bool {
        self.start <= offset <= self.end
    }
}

/// An inclusive, fixed-boundary range of Kafka offsets within one partition.
///
/// Construct with [`BatchRange::containing`]: the boundaries are never chosen
/// by the caller, which is the point.
#[derive(Debug, Clone, Copy, PartialEq, Eq, PartialOrd, Ord, Hash, Structural)]
pub struct BatchRange {
    start: u64,
    end: u64,
}

impl View for BatchRange {
    type V = RangeView;

    closed spec fn view(&self) -> RangeView {
        RangeView { start: self.start as int, end: self.end as int }
    }
}

impl BatchRange {
    #[verifier::type_invariant]
    spec fn well_formed(self) -> bool {
        self.start <= self.end && self.end - self.start < u64::MAX
    }

    /// The range that `offset` falls into, given `range_size`.
    ///
    /// This is the only constructor: a range is always aligned to a multiple of
    /// `range_size`, so every consumer derives identical boundaries from the
    /// same offset.
    pub fn containing(offset: u64, range_size: NonZeroU64) -> (r: BatchRange)
        ensures
            r@ == range_of(offset as int, range_size@ as int),
            r@.covers(offset as int),
    {
        let size: u64 = range_size.get();
        proof {
            lemma_range_bounds(offset as int, size as int);
        }
        let start: u64 = (offset / size) * size;
        // Saturating: a range at the very top of u64 is clamped rather than
        // wrapping to a small number, which would alias a low range's name.
        let end: u64 = start.saturating_add(size - 1);
        BatchRange { start, end }
    }

    /// First offset covered (inclusive).
    pub fn start(&self) -> (r: u64)
        ensures
            r == self@.start,
    {
        self.start
    }

    /// Last offset covered (inclusive).
    pub fn end(&self) -> (r: u64)
        ensures
            r == self@.end,
    {
        self.end
    }

    /// Whether `offset` belongs to this range.
    pub fn contains(&self, offset: u64) -> (r: bool)
        ensures
            r == self@.covers(offset as int),
    {
        offset >= self.start && offset <= self.end
    }

    /// How many offsets this range spans.
    ///
    /// This is the *range width*, not a record count: Kafka offsets are not
    /// guaranteed contiguous, so a full range can hold fewer records.
    pub fn width(&self) -> (r: u64)
        ensures
            r == self@.end - self@.start + 1,
            r > 0,
    {
        proof {
            use_type_invariant(self);
        }
        self.end - self.start + 1
    }

    /// The offset a consumer should commit after this range is durably written.
    ///
    /// Kafka commits the *next* offset to read, so this is `end + 1`. The very
    /// last offset of all has no next one.
    pub fn commit_offset(&self) -> (r: u64)
        requires
            self@.end < u64::MAX,
        ensures
            r == self@.end + 1,
    {
        self.end + 1
    }

    /// Whether `last_seen` completes this range, i.e. the batch is full.
    pub fn is_complete(&self, last_seen: u64) -> (r: bool)
        ensures
            r == (last_seen >= self@.end),
    {
        last_seen >= self.end
    }
}

/// A range is its two boundaries, and nothing else.
pub proof fn lemma_range_is_its_boundaries(a: BatchRange, b: BatchRange)
    ensures
        (a == b) == (a@ == b@),
{
}

/// Where the boundaries of a range lie.
proof fn lemma_range_bounds(offset: int, size: int)
    requires
        0 <= offset <= u64::MAX,
        0 < size <= u64::MAX,
    ensures
        0 <= (offset / size) * size <= offset < (offset / size) * size + size,
        offset / size <= u64::MAX,
{
    lemma_fundamental_div_mod(offset, size);
    lemma_mod_bound(offset, size);
    lemma_mul_is_commutative(size, offset / size);
    lemma_div_pos_is_pos(offset, size);
    lemma_mul_nonnegative(offset / size, size);
    lemma_div_nonincreasing(offset, size);
}

/// Every offset belongs to the range it falls into.
pub proof fn every_offset_is_covered(offset: int, size: int)
    requires
        0 <= offset <= u64::MAX,
        0 < size <= u64::MAX,
    ensures
        range_of(offset, size).covers(offset),
{
    lemma_range_bounds(offset, size);
}

/// Every offset in a range maps to that range, so a retry that resumes
/// anywhere inside it derives the same boundaries.
pub proof fn every_offset_in_a_range_maps_to_it(offset: int, other: int, size: int)
    requires
        0 <= offset <= u64::MAX,
        0 < size <= u64::MAX,
        range_of(offset, size).covers(other),
    ensures
        range_of(other, size) == range_of(offset, size),
{
    lemma_range_bounds(offset, size);
    let q = offset / size;
    assert(other == q * size + (other - q * size));
    lemma_fundamental_div_mod_converse(other, size, q, other - q * size);
}

/// Two ranges are either the same or do not share a single offset.
pub proof fn ranges_do_not_overlap(a: int, b: int, offset: int, size: int)
    requires
        0 <= a <= u64::MAX,
        0 <= b <= u64::MAX,
        0 < size <= u64::MAX,
        range_of(a, size).covers(offset),
        range_of(b, size).covers(offset),
    ensures
        range_of(a, size) == range_of(b, size),
{
    every_offset_in_a_range_maps_to_it(a, offset, size);
    every_offset_in_a_range_maps_to_it(b, offset, size);
}

/// The offset after a range starts the next one: ranges leave no gap.
pub proof fn the_next_range_starts_where_this_one_ends(offset: int, size: int)
    requires
        0 <= offset <= u64::MAX,
        0 < size <= u64::MAX,
        range_of(offset, size).end < u64::MAX,
    ensures
        range_of(range_of(offset, size).end + 1, size).start == range_of(offset, size).end + 1,
{
    lemma_range_bounds(offset, size);
    let q = offset / size;
    let next = range_of(offset, size).end + 1;
    lemma_mul_is_distributive_add_other_way(size, q, 1);
    assert(next == (q + 1) * size + 0);
    lemma_fundamental_div_mod_converse(next, size, q + 1, 0);
}

/// A range is exactly `size` wide, unless it is clamped at the top of the
/// offset space; and it never wraps below its own start.
pub proof fn a_range_is_as_wide_as_asked(offset: int, size: int)
    requires
        0 <= offset <= u64::MAX,
        0 < size <= u64::MAX,
    ensures
        range_of(offset, size).start <= range_of(offset, size).end <= u64::MAX,
        range_of(offset, size).end < u64::MAX ==> range_of(offset, size).end - range_of(
            offset,
            size,
        ).start + 1 == size,
        range_of(offset, size).end - range_of(offset, size).start + 1 <= size,
{
    lemma_range_bounds(offset, size);
}

/// Where a range lies: it starts at a multiple of the width, holds the offset
/// that it was derived from, and has the width asked for, unless the offset space
/// ends first.
pub proof fn a_range_is_aligned_around_its_offset(offset: int, size: int)
    requires
        0 <= offset <= u64::MAX,
        0 < size <= u64::MAX,
    ensures
        range_of(offset, size).start % size == 0,
        0 <= range_of(offset, size).start,
        range_of(offset, size).start <= offset,
        offset <= range_of(offset, size).end,
        range_of(offset, size).start + size <= u64::MAX ==> range_of(offset, size).end == range_of(
            offset,
            size,
        ).start + size - 1,
        range_of(offset, size).start + size > u64::MAX ==> range_of(offset, size).end == u64::MAX,
{
    lemma_range_bounds(offset, size);
    lemma_mod_multiples_basic(offset / size, size);
}

/// A range covers exactly the offsets that fall into it.
pub proof fn a_range_covers_what_falls_into_it(offset: int, other: int, size: int)
    requires
        0 <= offset <= u64::MAX,
        0 <= other <= u64::MAX,
        0 < size <= u64::MAX,
    ensures
        range_of(offset, size).covers(other) <==> range_of(other, size) == range_of(offset, size),
        range_of(offset, size).covers(other) <==> range_of(offset, size).start <= other && other
            <= range_of(offset, size).end,
{
    if range_of(offset, size).covers(other) {
        every_offset_in_a_range_maps_to_it(offset, other, size);
    } else {
        every_offset_is_covered(other, size);
    }
}

/// The offset committed after a range is the start of a range: whoever reads on
/// from there begins a batch at its first offset.
pub proof fn a_commit_resumes_at_a_range_start(offset: int, size: int)
    requires
        0 <= offset <= u64::MAX,
        0 < size <= u64::MAX,
        range_of(offset, size).end < u64::MAX,
    ensures
        range_of(offset, size).end + 1 == range_of(range_of(offset, size).end + 1, size).start,
        (range_of(offset, size).end + 1) % size == 0,
{
    the_next_range_starts_where_this_one_ends(offset, size);
    let next = range_of(offset, size).end + 1;
    lemma_mod_multiples_basic(next / size, size);
}

// ─── Object names ───────────────────────────────────────────────────────────

/// The layout the whole platform agrees on:
/// `{topic}/dt={date}/{partition}-{start}-{end}.parquet`.
pub open spec fn object_name(
    topic: Seq<char>,
    partition: int,
    date: Seq<char>,
    range: RangeView,
) -> Seq<char> {
    topic + "/dt="@ + date + "/"@ + signed_decimal(partition) + "-"@ + decimal(range.start as nat)
        + "-"@ + decimal(range.end as nat) + ".parquet"@
}

/// A staging object name, in the layout the whole platform agrees on.
#[derive(Debug, PartialEq, Eq, Hash)]
pub struct ObjectName(String);

impl Clone for ObjectName {
    fn clone(&self) -> (r: ObjectName)
        ensures
            r@ == self@,
    {
        ObjectName(self.0.clone())
    }
}

impl View for ObjectName {
    type V = Seq<char>;

    closed spec fn view(&self) -> Seq<char> {
        self.0@
    }
}

impl ObjectName {
    /// Build the name for a range.
    ///
    /// `date` is the date the batch is *written*, as `YYYY-MM-DD` in UTC, not an
    /// event timestamp.
    ///
    /// The name depends only on topic, partition, date and the *aligned* range,
    /// never on how many records were written. A partial flush and the later
    /// complete batch therefore share a name, and the complete one overwrites
    /// the partial.
    pub fn for_range(topic: &str, partition: i32, date: &str, range: BatchRange) -> (r: ObjectName)
        ensures
            r@ == object_name(topic@, partition as int, date@, range@),
    {
        let mut name: String = String::new();
        name.push_str(topic);
        name.push_str("/dt=");
        name.push_str(date);
        name.push_str("/");
        push_signed_decimal(&mut name, partition);
        name.push_str("-");
        push_decimal(&mut name, range.start());
        name.push_str("-");
        push_decimal(&mut name, range.end());
        name.push_str(".parquet");
        assert(name@ == object_name(topic@, partition as int, date@, range@));
        ObjectName(name)
    }

    /// The name as text.
    pub fn as_str(&self) -> (r: &str)
        ensures
            r@ == self@,
    {
        self.0.as_str()
    }

    /// The name as an owned string.
    pub fn to_string(&self) -> (r: String)
        ensures
            r@ == self@,
    {
        self.0.clone()
    }
}

/// A name is the same whichever offset of the range it is derived from: the
/// retry of a batch overwrites the object that the first attempt wrote.
pub proof fn a_retry_targets_the_same_object(
    topic: Seq<char>,
    partition: int,
    date: Seq<char>,
    first: int,
    second: int,
    size: int,
)
    requires
        0 <= first <= u64::MAX,
        0 < size <= u64::MAX,
        range_of(first, size).covers(second),
    ensures
        object_name(topic, partition, date, range_of(first, size)) == object_name(
            topic,
            partition,
            date,
            range_of(second, size),
        ),
{
    every_offset_in_a_range_maps_to_it(first, second, size);
}

/// A name can be read: it is the topic, `/dt=`, the date, a slash, three numbers
/// with a dash between them, and `.parquet`; and the numbers read as the
/// partition, the first offset and the last offset of the range.
pub proof fn a_name_reads_back(
    topic: Seq<char>,
    partition: int,
    date: Seq<char>,
    range: RangeView,
) -> (parts: (Seq<char>, Seq<char>, Seq<char>))
    requires
        0 <= range.start,
        0 <= range.end,
    ensures
        object_name(topic, partition, date, range) == topic + "/dt="@ + date + "/"@ + parts.0
            + "-"@ + parts.1 + "-"@ + parts.2 + ".parquet"@,
        partition >= 0 ==> is_numeral(parts.0) && place_value(parts.0) == partition,
        partition < 0 ==> parts.0[0] == '-' && is_numeral(parts.0.skip(1)) && place_value(
            parts.0.skip(1),
        ) == -partition,
        is_numeral(parts.1) && place_value(parts.1) == range.start,
        is_numeral(parts.2) && place_value(parts.2) == range.end,
        // No zero stands ahead of a number.
        parts.1.len() > 1 ==> parts.1[0] != '0',
        parts.2.len() > 1 ==> parts.2[0] != '0',
        partition >= 0 && parts.0.len() > 1 ==> parts.0[0] != '0',
        partition < 0 ==> parts.0[1] != '0',
{
    a_signed_decimal_number_reads_back(partition);
    a_decimal_number_reads_back(range.start as nat);
    a_decimal_number_reads_back(range.end as nat);
    (signed_decimal(partition), decimal(range.start as nat), decimal(range.end as nat))
}

/// Topic, partition, date and range each separate objects: two names are the
/// same only when all four are. (A date holds no slash.)
pub proof fn distinct_batches_have_distinct_names(
    topic1: Seq<char>,
    partition1: int,
    date1: Seq<char>,
    range1: RangeView,
    topic2: Seq<char>,
    partition2: int,
    date2: Seq<char>,
    range2: RangeView,
)
    requires
        !date1.contains('/'),
        !date2.contains('/'),
        0 <= range1.start,
        0 <= range1.end,
        0 <= range2.start,
        0 <= range2.end,
        object_name(topic1, partition1, date1, range1) == object_name(
            topic2,
            partition2,
            date2,
            range2,
        ),
    ensures
        topic1 == topic2,
        partition1 == partition2,
        date1 == date2,
        range1 == range2,
{
    let (p1, s1, e1) = (
        signed_decimal(partition1),
        decimal(range1.start as nat),
        decimal(range1.end as nat),
    );
    let (p2, s2, e2) = (
        signed_decimal(partition2),
        decimal(range2.start as nat),
        decimal(range2.end as nat),
    );
    reveal_strlit("/dt=");
    reveal_strlit("/");
    reveal_strlit("-");
    reveal_strlit(".parquet");
    let dt = seq!['d', 't', '='];
    let suffix = ".parquet"@;
    let file1 = p1 + seq!['-'] + s1 + seq!['-'] + e1;
    let file2 = p2 + seq!['-'] + s2 + seq!['-'] + e2;
    let dir1 = topic1 + seq!['/'] + (dt + date1);
    let dir2 = topic2 + seq!['/'] + (dt + date2);
    let name1 = object_name(topic1, partition1, date1, range1);
    let name2 = object_name(topic2, partition2, date2, range2);
    assert(name1 == dir1 + seq!['/'] + (file1 + suffix));
    assert(name2 == dir2 + seq!['/'] + (file2 + suffix));
    lemma_signed_decimal_chars(partition1);
    lemma_signed_decimal_chars(partition2);
    lemma_decimal_chars(range1.start as nat);
    lemma_decimal_chars(range1.end as nat);
    lemma_decimal_chars(range2.start as nat);
    lemma_decimal_chars(range2.end as nat);
    lemma_split_at_last(dir1, file1 + suffix, dir2, file2 + suffix, '/');
    lemma_split_at_last(topic1, dt + date1, topic2, dt + date2, '/');
    assert(date1 == (dt + date1).skip(3));
    assert(date2 == (dt + date2).skip(3));
    assert(file1 == (file1 + suffix).take((file1 + suffix).len() - suffix.len()));
    assert(file2 == (file2 + suffix).take((file2 + suffix).len() - suffix.len()));
    lemma_split_at_last(p1 + seq!['-'] + s1, e1, p2 + seq!['-'] + s2, e2, '-');
    lemma_split_at_last(p1, s1, p2, s2, '-');
    lemma_decimal_injective(range1.start as nat, range2.start as nat);
    lemma_decimal_injective(range1.end as nat, range2.end as nat);
    lemma_signed_decimal_injective(partition1, partition2);
}

/// Two texts that agree are cut alike at their last separator.
proof fn lemma_split_at_last(
    a1: Seq<char>,
    b1: Seq<char>,
    a2: Seq<char>,
    b2: Seq<char>,
    sep: char,
)
    requires
        a1 + seq![sep] + b1 == a2 + seq![sep] + b2,
        forall|i: int| 0 <= i < b1.len() ==> b1[i] != sep,
        forall|i: int| 0 <= i < b2.len() ==> b2[i] != sep,
    ensures
        a1 == a2,
        b1 == b2,
{
    let t1 = a1 + seq![sep] + b1;
    let t2 = a2 + seq![sep] + b2;
    assert(t1.len() == a1.len() + 1 + b1.len());
    assert(t2.len() == a2.len() + 1 + b2.len());
    if b1.len() < b2.len() {
        assert(t1[a1.len() as int] == sep);
        assert(t2[a1.len() as int] == b2[a1.len() - a2.len() - 1]);
    }
    if b2.len() < b1.len() {
        assert(t2[a2.len() as int] == sep);
        assert(t1[a2.len() as int] == b1[a2.len() - a1.len() - 1]);
    }
    assert(a1 == t1.take(a1.len() as int));
    assert(a2 == t2.take(a2.len() as int));
    assert(b1 == t1.skip(a1.len() + 1int));
    assert(b2 == t2.skip(a2.len() + 1int));
}

/// A signed decimal number is made of digits, with at most a minus sign ahead.
proof fn lemma_signed_decimal_chars(i: int)
    ensures
        forall|k: int|
            0 <= k < signed_decimal(i).len() ==> #[trigger] signed_decimal(i)[k] == '-' || '0'
                <= signed_decimal(i)[k] <= '9',
{
    lemma_decimal_chars(if i < 0 {
        (-i) as nat
    } else {
        i as nat
    });
}

/// Different numbers are written differently.
proof fn lemma_decimal_injective(a: nat, b: nat)
    requires
        decimal(a) == decimal(b),
    ensures
        a == b,
    decreases a,
{
    lemma_decimal_chars(a / 10);
    lemma_decimal_chars(b / 10);
    assert(decimal(a).last() == digit((a % 10) as int));
    assert(decimal(b).last() == digit((b % 10) as int));
    if a >= 10 && b >= 10 {
        assert(decimal(a).drop_last() == decimal(a / 10));
        assert(decimal(b).drop_last() == decimal(b / 10));
        lemma_decimal_injective(a / 10, b / 10);
    }
}

/// Different numbers are written differently, whatever their signs.
proof fn lemma_signed_decimal_injective(a: int, b: int)
    requires
        signed_decimal(a) == signed_decimal(b),
    ensures
        a == b,
{
    let pa = if a < 0 {
        (-a) as nat
    } else {
        a as nat
    };
    let pb = if b < 0 {
        (-b) as nat
    } else {
        b as nat
    };
    lemma_decimal_chars(pa);
    lemma_decimal_chars(pb);
    if a < 0 {
        assert(signed_decimal(a)[0] == '-');
        assert(decimal(pa) == signed_decimal(a).skip(1));
    }
    if b < 0 {
        assert(signed_decimal(b)[0] == '-');
        assert(decimal(pb) == signed_decimal(b).skip(1));
    }
    lemma_decimal_injective(pa, pb);
}

} // verus!
