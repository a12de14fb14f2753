use partition::{
    min_max_time, partition_batch, partition_keys, Batch, PartitionKeyError, PartitionWrite,
    PartitionWriteError, TemplatePart, TimeColumnError,
};

fn region_batch() -> Batch {
    let mut batch = Batch::with_time(vec![10, 20, 30, 40, 50, 60]);
    assert!(batch.add_tag(
        "region",
        vec![
            Some("west"),
            Some("west"),
            Some("east"),
            Some("west"),
            None,
            Some("east"),
        ],
    ));
    batch
}

fn rows_of(w: &PartitionWrite<'_>) -> Vec<usize> {
    w.ranges().iter().flat_map(|r| r.clone()).collect()
}

#[test]
fn partition_gathers_rows_by_key() {
    let batch = region_batch();
    let writes = PartitionWrite::partition(&batch, &[TemplatePart::TagValue("region")]).unwrap();
    let keys: Vec<&str> = writes.iter().map(|(k, _)| k.as_str()).collect();
    assert_eq!(keys, vec!["west", "east", "!"]);

    let (_, west) = &writes[0];
    assert_eq!(west.ranges(), &[0..2, 3..4]);
    assert_eq!(west.rows(), 3);
    assert_eq!(west.min_timestamp(), 10);
    assert_eq!(west.max_timestamp(), 40);

    let (_, east) = &writes[1];
    assert_eq!(east.ranges(), &[2..3, 5..6]);
    assert_eq!(east.rows(), 2);
    assert_eq!(east.min_timestamp(), 30);
    assert_eq!(east.max_timestamp(), 60);

    let (_, null) = &writes[2];
    assert_eq!(null.ranges(), &[4..5]);
    assert_eq!(null.min_timestamp(), 50);
}

#[test]
fn partition_never_drops_or_duplicates_rows() {
    let batch = region_batch();
    let writes = PartitionWrite::partition(&batch, &[TemplatePart::TagValue("region")]).unwrap();
    let mut all: Vec<usize> = writes.iter().flat_map(|(_, w)| rows_of(w)).collect();
    all.sort();
    assert_eq!(all, (0..6).collect::<Vec<_>>());
    let total: usize = writes.iter().map(|(_, w)| w.rows()).sum();
    assert_eq!(total, 6);
}

#[test]
fn partition_reports_the_first_key_error() {
    let mut batch = Batch::with_time(vec![1, 2, 3]);
    assert!(batch.add_field("f", "string", vec![false, true, true]));
    let got = PartitionWrite::partition(&batch, &[TemplatePart::TagValue("f")]);
    assert!(matches!(
        got,
        Err(PartitionWriteError::PartitionKey(PartitionKeyError::TagValueNotTag(ref t))) if t == "string"
    ));
}

#[test]
fn partition_of_invalid_format_fails() {
    let batch = Batch::with_time(vec![1, 2]);
    let got = PartitionWrite::partition(&batch, &[TemplatePart::TimeFormat("%3F")]);
    assert!(matches!(
        got,
        Err(PartitionWriteError::PartitionKey(PartitionKeyError::InvalidStrftime))
    ));
}

#[test]
fn partition_batch_ranges_follow_one_another() {
    let batch = region_batch();
    let ranges = partition_batch(&batch, &[TemplatePart::TagValue("region")]);
    let got: Vec<(String, std::ops::Range<usize>)> = ranges
        .into_iter()
        .map(|(k, r)| (k.unwrap(), r))
        .collect();
    assert_eq!(
        got,
        vec![
            ("west".to_string(), 0..2),
            ("east".to_string(), 2..3),
            ("west".to_string(), 3..4),
            ("!".to_string(), 4..5),
            ("east".to_string(), 5..6),
        ]
    );
}

#[test]
fn equal_keys_from_different_values_share_a_range() {
    // `bat` and `qux` fall in the same bucket, so their rows share one range.
    let mut batch = Batch::with_time(vec![1, 2, 3]);
    assert!(batch.add_tag("d", vec![Some("bat"), Some("qux"), Some("foo")]));
    let ranges = partition_batch(&batch, &[TemplatePart::Bucket("d", 10)]);
    let got: Vec<(String, std::ops::Range<usize>)> = ranges
        .into_iter()
        .map(|(k, r)| (k.unwrap(), r))
        .collect();
    assert_eq!(got, vec![("5".to_string(), 0..2), ("6".to_string(), 2..3)]);
}

#[test]
fn dedup_matches_rendering_each_row_alone() {
    let template = [
        TemplatePart::TimeFormat("%Y-%m-%d"),
        TemplatePart::TagValue("region"),
        TemplatePart::Bucket("device", 10),
    ];
    let times = vec![1, 1, 86_400_000_000_000, 86_400_000_000_001, 5, 5];
    let regions = vec![Some("a"), Some("a"), Some("a"), None, None, Some("b")];
    let devices = vec![Some("foo"), Some("bat"), Some("qux"), Some("qux"), None, None];
    let mut batch = Batch::with_time(times.clone());
    assert!(batch.add_tag("region", regions.clone()));
    assert!(batch.add_tag("device", devices.clone()));

    let mut expanded = Vec::new();
    let mut last = None;
    for k in partition_keys(&batch, &template) {
        let k = k.or(last.clone()).unwrap();
        last = Some(k.clone());
        expanded.push(k);
    }

    for row in 0..times.len() {
        let mut alone = Batch::with_time(vec![times[row]]);
        assert!(alone.add_tag("region", vec![regions[row]]));
        assert!(alone.add_tag("device", vec![devices[row]]));
        let own = partition_keys(&alone, &template).remove(0).unwrap();
        assert_eq!(expanded[row], own, "row {row}");
    }
}

#[test]
fn new_covers_the_whole_batch() {
    let batch = Batch::with_time(vec![7, -3, 12]);
    let w = PartitionWrite::new(&batch).unwrap();
    assert_eq!(w.ranges(), &[0..3]);
    assert_eq!(w.rows(), 3);
    assert_eq!(w.min_timestamp(), -3);
    assert_eq!(w.max_timestamp(), 12);
}

#[test]
fn new_needs_a_time_column() {
    let mut batch = Batch::new();
    batch.rows = 2;
    assert!(matches!(
        PartitionWrite::new(&batch),
        Err(PartitionWriteError::TimeColumn(TimeColumnError::NotFound))
    ));
}

#[test]
fn filter_rejecting_everything_gives_nothing() {
    let batch = Batch::with_time(vec![1, 2, 3]);
    let w = PartitionWrite::new(&batch).unwrap();
    assert!(w.filter(|_| false).is_none());
}

#[test]
fn filter_recomputes_from_surviving_rows() {
    let batch = Batch::with_time(vec![5, 1, 9, 3, 7, 2]);
    let w = PartitionWrite::new(&batch).unwrap();
    let f = w.filter(|t| t >= 3).unwrap();
    assert_eq!(f.ranges(), &[0..1, 2..5]);
    assert_eq!(f.rows(), 4);
    assert_eq!(f.min_timestamp(), 3);
    assert_eq!(f.max_timestamp(), 9);
}

#[test]
fn filter_keeps_ranges_apart() {
    let batch = region_batch();
    let writes = PartitionWrite::partition(&batch, &[TemplatePart::TagValue("region")]).unwrap();
    let (_, west) = &writes[0];
    let all = west.filter(|_| true).unwrap();
    assert_eq!(all.ranges(), &[0..2, 3..4]);
    let late = west.filter(|t| t > 10).unwrap();
    assert_eq!(late.ranges(), &[1..2, 3..4]);
    assert_eq!(late.rows(), 2);
    assert_eq!(late.min_timestamp(), 20);
    assert_eq!(late.max_timestamp(), 40);
}

#[test]
fn min_max_time_of_nothing() {
    assert_eq!(min_max_time(&[]), (i64::MAX, i64::MIN));
    assert_eq!(min_max_time(&[4, -2, 8]), (-2, 8));
}

#[test]
fn batch_rejects_wrong_lengths_and_taken_names() {
    let mut batch = Batch::with_time(vec![1, 2]);
    assert!(!batch.add_tag("a", vec![Some("x")]));
    assert!(batch.add_tag("a", vec![Some("x"), None]));
    assert!(!batch.add_tag("a", vec![Some("y"), None]));
    assert!(!batch.add_field("a", "string", vec![true, true]));
    assert_eq!(batch.columns.len(), 1);
}

#[test]
fn empty_batch_has_no_partitions() {
    let batch = Batch::with_time(vec![]);
    let writes = PartitionWrite::partition(&batch, &[TemplatePart::TimeFormat("%Y")]).unwrap();
    assert!(writes.is_empty());
    assert!(partition_batch(&batch, &[TemplatePart::TimeFormat("%Y")]).is_empty());
}

#[test]
fn range_encode_of_nothing() {
    let none: Vec<Option<u64>> = Vec::new();
    assert!(partition::range_encode(none).is_empty());
}

#[test]
fn write_to_batch_copies_exactly_the_rows() {
    let batch = region_batch();
    let writes = PartitionWrite::partition(&batch, &[TemplatePart::TagValue("region")]).unwrap();
    let (_, east) = &writes[1];
    let out = east.write_to_batch();
    assert_eq!(out.rows, 2);
    assert_eq!(out.time, Some(vec![30, 60]));
    assert_eq!(out.columns.len(), 1);
    let col = &out.columns[0];
    assert_eq!(col.name, "region");
    assert_eq!(col.valid, vec![true, true]);
    for row in 0..2 {
        let key = col.get_tag_identity_key(row).unwrap();
        assert_eq!(col.get_tag_value(key), Some("east"));
    }
    let keys = partition::partition_keys(&out, &[TemplatePart::TagValue("region")]);
    assert_eq!(keys, vec![Some(Ok("east".to_string())), None]);
}
