//! Offset ranges and object names.

use pulse_ingestor::batching::{BatchRange, ObjectName};
use pulse_ingestor::units::NonZeroU64;

fn n(v: u64) -> NonZeroU64 {
    NonZeroU64::new(v).expect("test range size must be non-zero")
}

#[test]
fn range_starts_at_zero() {
    let r = BatchRange::containing(0, n(10_000));
    assert_eq!((r.start(), r.end()), (0, 9_999));
    assert_eq!(r.width(), 10_000);
}

#[test]
fn every_offset_in_a_range_maps_to_that_range() {
    let size = n(10_000);
    let expected = BatchRange::containing(0, size);
    for offset in [0, 1, 42, 5_000, 9_998, 9_999] {
        assert_eq!(
            BatchRange::containing(offset, size),
            expected,
            "offset {offset} should map to the first range"
        );
    }
}

#[test]
fn boundary_starts_a_new_range() {
    let size = n(10_000);
    let first = BatchRange::containing(9_999, size);
    let second = BatchRange::containing(10_000, size);
    assert_ne!(first, second);
    assert_eq!(
        first.end() + 1,
        second.start(),
        "ranges must not gap or overlap"
    );
    assert_eq!(second.end(), 19_999);
}

#[test]
fn ranges_tile_the_offset_space_without_gaps_or_overlap() {
    let size = n(256);
    let mut previous: Option<BatchRange> = None;
    for offset in (0..4_096).step_by(7) {
        let r = BatchRange::containing(offset, size);
        assert!(r.contains(offset));
        if let Some(p) = previous {
            if p != r {
                assert_eq!(
                    p.end() + 1,
                    r.start(),
                    "gap or overlap between {p:?} and {r:?}"
                );
            }
        }
        previous = Some(r);
    }
}

#[test]
fn range_size_of_one_is_degenerate_but_valid() {
    let r = BatchRange::containing(7, n(1));
    assert_eq!((r.start(), r.end()), (7, 7));
    assert_eq!(r.width(), 1);
    assert_eq!(r.commit_offset(), 8);
}

#[test]
fn commit_offset_is_one_past_the_end() {
    let r = BatchRange::containing(0, n(10_000));
    assert_eq!(
        r.commit_offset(),
        10_000,
        "Kafka commits the next offset to read"
    );
}

#[test]
fn completeness_is_driven_by_the_last_offset_seen() {
    let r = BatchRange::containing(0, n(100));
    assert!(!r.is_complete(0));
    assert!(!r.is_complete(98));
    assert!(r.is_complete(99));
    assert!(r.is_complete(100), "overshoot still counts as complete");
}

#[test]
fn top_of_offset_space_clamps_instead_of_wrapping() {
    // A wrap here would alias a high range onto a low range's object name,
    // which would silently overwrite real data.
    let r = BatchRange::containing(u64::MAX, n(10_000));
    assert_eq!(r.end(), u64::MAX);
    assert!(r.contains(u64::MAX));
}

#[test]
fn the_widest_range_covers_all_but_the_last_offset() {
    let r = BatchRange::containing(17, n(u64::MAX));
    assert_eq!((r.start(), r.end()), (0, u64::MAX - 1));
    assert_eq!(r.width(), u64::MAX);
    assert_eq!(r.commit_offset(), u64::MAX);
    let top = BatchRange::containing(u64::MAX, n(u64::MAX));
    assert_eq!((top.start(), top.end()), (u64::MAX, u64::MAX));
}

#[test]
fn a_range_of_no_width_cannot_be_asked_for() {
    assert!(NonZeroU64::new(0).is_none());
    assert_eq!(NonZeroU64::new(3).unwrap().get(), 3);
}

// ─── Object naming ──────────────────────────────────────────────────────────

#[test]
fn object_name_matches_the_platform_contract() {
    let r = BatchRange::containing(0, n(10_000));
    let name = ObjectName::for_range("ingestion-events", 0, "2026-09-13", r);
    assert_eq!(
        name.as_str(),
        "ingestion-events/dt=2026-09-13/0-0-9999.parquet"
    );
}

#[test]
fn name_is_identical_for_any_offset_in_the_range() {
    // This is the idempotency property: a retry that resumes from a
    // different offset inside the same range still targets one object.
    let size = n(10_000);
    let from_start = ObjectName::for_range(
        "ingestion-events",
        3,
        "2026-09-13",
        BatchRange::containing(20_000, size),
    );
    let from_middle = ObjectName::for_range(
        "ingestion-events",
        3,
        "2026-09-13",
        BatchRange::containing(27_431, size),
    );
    assert_eq!(from_start, from_middle);
}

#[test]
fn partial_batch_uses_the_full_range_name() {
    // A trailing flush holding only offsets 0..=12 must still be named for
    // the whole range, so completing it later overwrites rather than
    // leaving a duplicate object behind.
    let size = n(10_000);
    let partial = ObjectName::for_range(
        "ingestion-logs",
        1,
        "2026-09-13",
        BatchRange::containing(12, size),
    );
    let complete = ObjectName::for_range(
        "ingestion-logs",
        1,
        "2026-09-13",
        BatchRange::containing(9_999, size),
    );
    assert_eq!(partial, complete);
    assert_eq!(
        partial.as_str(),
        "ingestion-logs/dt=2026-09-13/1-0-9999.parquet"
    );
}

#[test]
fn partition_and_date_and_topic_all_separate_objects() {
    let size = n(10_000);
    let r = BatchRange::containing(0, size);
    let base = ObjectName::for_range("ingestion-events", 0, "2026-09-13", r);
    assert_ne!(
        base,
        ObjectName::for_range("ingestion-signals", 0, "2026-09-13", r)
    );
    assert_ne!(
        base,
        ObjectName::for_range("ingestion-events", 1, "2026-09-13", r)
    );
    assert_ne!(
        base,
        ObjectName::for_range("ingestion-events", 0, "2026-09-14", r)
    );
}

#[test]
fn a_name_spells_out_extreme_numbers() {
    let r = BatchRange::containing(u64::MAX, n(1));
    let name = ObjectName::for_range("t", i32::MIN, "2026-09-13", r);
    assert_eq!(
        name.to_string(),
        "t/dt=2026-09-13/-2147483648-18446744073709551615-18446744073709551615.parquet"
    );
    assert_eq!(name.clone(), name);
}
