use partition::{
    partition_keys, range_encode, Batch, BucketHasher, PartitionKeyError, PartitionWrite,
    PartitionWriteError, TemplatePart, TimeColumnError,
};
use rand::{RngCore, SeedableRng};

/// Expands values given for the rows whose bit is set in `mask` (row 0 is
/// the lowest bit) into one optional value per row.
fn masked<'a>(rows: usize, mask: u64, values: &[&'a str]) -> Vec<Option<&'a str>> {
    let mut out = Vec::new();
    let mut next = values.iter();
    for row in 0..rows {
        if mask & (1 << row) != 0 {
            out.push(Some(*next.next().expect("a value for each set bit")));
        } else {
            out.push(None);
        }
    }
    out
}

fn mask_flags(rows: usize, mask: u64) -> Vec<bool> {
    (0..rows).map(|row| mask & (1 << row) != 0).collect()
}

/// The keys of every row, each `None` of the generator replaced by the key
/// before it.
fn generate_denormalised_keys(
    batch: &Batch,
    parts: &[TemplatePart<'_>],
) -> Result<Vec<String>, PartitionKeyError> {
    let mut last: Option<Result<String, PartitionKeyError>> = None;
    let mut out = Vec::new();
    for v in partition_keys(batch, parts) {
        let this = match v {
            Some(this) => {
                last = Some(this.clone());
                this
            }
            None => last.clone().expect("must have observed prior key"),
        };
        out.push(this?);
    }
    Ok(out)
}

#[test]
fn return_err_if_no_time_column() {
    let batch = Batch::new();
    let template = [TemplatePart::TimeFormat("%Y-%m-%d")];
    let got = PartitionWrite::partition(&batch, &template);
    assert!(matches!(
        got,
        Err(PartitionWriteError::TimeColumn(TimeColumnError::NotFound))
    ));
}

#[test]
fn test_equals_last() {
    let ts = vec![
        1686756903736785920,
        42,
        1686756903736785920,
        1686756903736785920,
        42,
    ];
    let batch = Batch::with_time(ts);
    let keys =
        generate_denormalised_keys(&batch, &[TemplatePart::TimeFormat("%Y-%m-%d")]).unwrap();
    assert_eq!(
        keys,
        &[
            "2023-06-14",
            "1970-01-01",
            "2023-06-14",
            "2023-06-14",
            "1970-01-01",
        ]
    );
}

#[test]
fn test_default_fixture() {
    let mut batch = Batch::with_time(vec![1]);
    assert!(batch.add_tag("region", masked(1, 0b00000001, &["bananas"])));
    let keys: Vec<_> = partition_keys(&batch, &[TemplatePart::TimeFormat("%Y-%m-%d")])
        .into_iter()
        .map(|v| v.expect("non-identical consecutive keys"))
        .collect::<Result<Vec<_>, _>>()
        .unwrap();
    assert_eq!(keys, vec!["1970-01-01".to_string()])
}

#[test]
fn test_range_encode() {
    let collected = range_encode(vec![5, 5, 5, 7, 2, 2, 3].into_iter().map(Some).collect());
    assert_eq!(collected, vec![(5, 0..3), (7, 3..4), (2, 4..6), (3, 6..7)])
}

#[test]
fn test_range_encode_sparse() {
    let collected = range_encode(vec![Some(5), None, None, Some(7), Some(2), None, Some(3)]);
    assert_eq!(collected, vec![(5, 0..3), (7, 3..4), (2, 4..6), (3, 6..7)])
}

#[test]
fn test_range_encode_fuzz() {
    let seed = rand::rngs::OsRng.next_u64();
    println!("Seed: {seed}");
    let mut rng = rand::rngs::StdRng::seed_from_u64(seed);
    let values: Vec<u32> = std::iter::from_fn(|| Some(rng.next_u32() % 20))
        .take(1000)
        .collect();

    let rle = range_encode(values.iter().cloned().map(Some).collect());

    let mut last_range = rle[0].1.clone();
    for (_, range) in &rle[1..] {
        assert_eq!(range.start, last_range.end);
        assert_ne!(range.start, range.end);
        last_range = range.clone();
    }

    let hydrated: Vec<_> = rle
        .iter()
        .flat_map(|(v, r)| std::iter::repeat(*v).take(r.end - r.start))
        .collect();

    assert_eq!(values, hydrated)
}

fn partition_fixture() -> Batch {
    let mut batch = Batch::with_time(vec![1, 2, 3, 4, 5]);
    assert!(batch.add_tag("region", masked(5, 0b00001010, &["west", "east"])));
    assert!(batch.add_tag(
        "device",
        masked(
            5,
            0b00001110,
            &[
                "97c953a1-70e6-4569-80e4-59d1f49ec3fa",
                "f1aac284-b8a1-4938-acf3-52a3d516ca14",
                "420bb984-4d1e-48ec-bbfc-10825fbf3221",
            ],
        ),
    ));
    batch
}

const PARTITION_TEMPLATE: [TemplatePart<'static>; 4] = [
    TemplatePart::TimeFormat("%Y-%m-%d %H:%M:%S"),
    TemplatePart::TagValue("region"),
    TemplatePart::Bucket("device", 10),
    TemplatePart::TagValue("bananas"), // column not present
];

#[test]
fn test_partition() {
    let batch = partition_fixture();
    let keys: Vec<_> = partition_keys(&batch, &PARTITION_TEMPLATE)
        .into_iter()
        .map(|v| v.expect("non-identical consecutive keys"))
        .collect::<Result<Vec<_>, _>>()
        .unwrap();

    assert_eq!(
        keys,
        vec![
            "1970-01-01 00:00:00|!|!|!".to_string(),
            "1970-01-01 00:00:00|west|6|!".to_string(),
            "1970-01-01 00:00:00|!|4|!".to_string(),
            "1970-01-01 00:00:00|east|5|!".to_string(),
            "1970-01-01 00:00:00|!|!|!".to_string()
        ]
    );
}

#[test]
fn test_bucket_fixture() {
    let mut bucketer = BucketHasher::new(10);
    assert_eq!(bucketer.assign_bucket("foo"), 6);
    assert_eq!(bucketer.last_assigned_bucket(), Some(6));
    assert_eq!(bucketer.assign_bucket("bat"), 5);
    assert_eq!(bucketer.last_assigned_bucket(), Some(5));
    assert_eq!(bucketer.assign_bucket("qux"), 5);
    assert_eq!(bucketer.last_assigned_bucket(), Some(5));
}

fn sparse_fixture() -> Batch {
    let mut batch = Batch::with_time(vec![
        1,
        1,
        1,
        1,
        1685971961464736000,
        1685971961464736000,
        1685971961464736000,
    ]);
    assert!(batch.add_tag(
        "region",
        masked(
            7,
            0b01111111,
            &["platanos", "platanos", "platanos", "platanos", "platanos", "platanos", "bananas"],
        ),
    ));
    // `bat` and `qux` both go to bucket 5, so those 3 values should yield the same key
    assert!(batch.add_tag(
        "device",
        masked(7, 0b01111111, &["foo", "bat", "qux", "bat", "foo", "foo", "foo"]),
    ));
    batch
}

#[test]
fn test_sparse_representation() {
    let batch = sparse_fixture();
    let mut iter = partition_keys(&batch, &PARTITION_TEMPLATE).into_iter();

    assert_eq!(
        iter.next().unwrap(),
        Some(Ok("1970-01-01 00:00:00|platanos|6|!".to_string()))
    );
    assert_eq!(
        iter.next().unwrap(),
        Some(Ok("1970-01-01 00:00:00|platanos|5|!".to_string()))
    );
    assert_eq!(iter.next().unwrap(), None);
    assert_eq!(iter.next().unwrap(), None);
    assert_eq!(
        iter.next().unwrap(),
        Some(Ok("2023-06-05 13:32:41|platanos|6|!".to_string()))
    );
    assert_eq!(iter.next().unwrap(), None);
    assert_eq!(
        iter.next().unwrap(),
        Some(Ok("2023-06-05 13:32:41|bananas|6|!".to_string()))
    );
}

#[test]
fn partitioning_on_fields_panics() {
    let mut batch = Batch::with_time(vec![1, 2, 3, 4, 5]);
    assert!(batch.add_field("region", "string", mask_flags(5, 0b00001010)));
    let got = generate_denormalised_keys(&batch, &[TemplatePart::TagValue("region")]);
    assert!(matches!(got, Err(PartitionKeyError::TagValueNotTag(_))));
}

#[test]
fn bucketing_on_fields_panics() {
    let mut batch = Batch::with_time(vec![1, 2, 3, 4, 5]);
    assert!(batch.add_field("region", "string", mask_flags(5, 0b00001010)));
    let got = generate_denormalised_keys(&batch, &[TemplatePart::Bucket("region", 10)]);
    assert!(matches!(got, Err(PartitionKeyError::TagValueNotTag(_))));
}

#[test]
fn test_invalid_strftime() {
    let mut batch = Batch::with_time(vec![1]);
    assert!(batch.add_tag("region", masked(1, 0b00000001, &["bananas"])));
    let ret = partition_keys(&batch, &[TemplatePart::TimeFormat("%3F")])
        .into_iter()
        .map(|v| v.expect("non-identical consecutive keys"))
        .collect::<Result<Vec<_>, _>>();
    assert!(matches!(ret, Err(PartitionKeyError::InvalidStrftime)));
}
