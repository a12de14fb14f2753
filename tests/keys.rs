use partition::{
    bucket_for_hash, encode_key_part, partition_keys, percent_encode, truncate_clusters, Batch,
    PartitionKeyError, TemplatePart,
};

/// The key of a single-row batch at 2023-05-29T13:03:16Z with the given tags.
fn key_of(template: &[TemplatePart<'_>], tags: &[(&str, &str)]) -> Result<String, PartitionKeyError> {
    let mut batch = Batch::with_time(vec![1685365396931384064]);
    for (col, value) in tags {
        assert!(batch.add_tag(col, vec![Some(*value)]));
    }
    let keys = partition_keys(&batch, template);
    assert_eq!(keys.len(), 1);
    keys.into_iter().next().unwrap().expect("the first row is rendered")
}

fn tag_a() -> [TemplatePart<'static>; 1] {
    [TemplatePart::TagValue("a")]
}

#[test]
fn test_partition_key_simple() {
    let template = [
        TemplatePart::TimeFormat("%Y"),
        TemplatePart::TagValue("a"),
        TemplatePart::TagValue("b"),
        TemplatePart::Bucket("c", 5),
    ];
    let tags = [("a", "bananas"), ("b", "are_good"), ("c", "for_test_strings")];
    assert_eq!(key_of(&template, &tags).unwrap(), "2023|bananas|are_good|1");
}

#[test]
fn test_partition_key_non_ascii() {
    let template = [
        TemplatePart::TimeFormat("%Y"),
        TemplatePart::TagValue("a"),
        TemplatePart::TagValue("b"),
    ];
    let tags = [("a", "bananas"), ("b", "plátanos")];
    assert_eq!(key_of(&template, &tags).unwrap(), "2023|bananas|pl%C3%A1tanos");
}

#[test]
fn test_partition_key_single_tag_template_tag_not_present() {
    assert_eq!(key_of(&tag_a(), &[("b", "bananas")]).unwrap(), "!");
}

#[test]
fn test_partition_key_single_bucket_template_tag_not_present() {
    let template = [TemplatePart::Bucket("a", 10)];
    assert_eq!(key_of(&template, &[("b", "bananas")]).unwrap(), "!");
}

#[test]
fn test_partition_key_single_tag_template_tag_empty() {
    assert_eq!(key_of(&tag_a(), &[("a", "")]).unwrap(), "^");
}

#[test]
fn test_partition_key_single_bucket_template_tag_empty() {
    let template = [TemplatePart::Bucket("a", 10)];
    assert_eq!(key_of(&template, &[("a", "")]).unwrap(), "0");
}

#[test]
fn test_partition_key_missing_tag() {
    let template = [
        TemplatePart::TagValue("a"),
        TemplatePart::TagValue("b"),
        TemplatePart::Bucket("c", 10),
    ];
    assert_eq!(key_of(&template, &[("a", "bananas")]).unwrap(), "bananas|!|!");
}

#[test]
fn test_partition_key_unambiguous() {
    let template = [
        TemplatePart::TimeFormat("%Y"),
        TemplatePart::TagValue("a"),
        TemplatePart::TagValue("b"),
        TemplatePart::TagValue("c"),
        TemplatePart::TagValue("d"),
        TemplatePart::TagValue("e"),
    ];
    let tags = [("a", "|"), ("b", "!"), ("d", "%7C%21%257C"), ("e", "^")];
    assert_eq!(
        key_of(&template, &tags).unwrap(),
        "2023|%7C|%21|!|%257C%2521%25257C|%5E"
    );
}

#[test]
fn test_partition_key_truncated_char_reserved() {
    assert_eq!(key_of(&tag_a(), &[("a", "#")]).unwrap(), "%23");
}

#[test]
fn test_partition_key_truncate_length_199() {
    let v = "A".repeat(199);
    assert_eq!(key_of(&tag_a(), &[("a", &v)]).unwrap(), "A".repeat(199));
}

#[test]
fn test_partition_key_truncate_length_200() {
    let v = "A".repeat(200);
    assert_eq!(key_of(&tag_a(), &[("a", &v)]).unwrap(), "A".repeat(200));
}

#[test]
fn test_partition_key_truncate_length_201() {
    let v = "A".repeat(201);
    assert_eq!(
        key_of(&tag_a(), &[("a", &v)]).unwrap(),
        format!("{}#", "A".repeat(199))
    );
}

#[test]
fn test_partition_key_truncate_encoding_sequence_ok() {
    let v = format!("{}%", "A".repeat(197));
    assert_eq!(
        key_of(&tag_a(), &[("a", &v)]).unwrap(),
        format!("{}%25", "A".repeat(197))
    );
}

#[test]
fn test_partition_key_truncate_encoding_sequence_truncated_1() {
    let v = format!("{}%", "A".repeat(198));
    assert_eq!(
        key_of(&tag_a(), &[("a", &v)]).unwrap(),
        format!("{}#", "A".repeat(198))
    );
}

#[test]
fn test_partition_key_truncate_encoding_sequence_truncated_2() {
    let v = format!("{}%", "A".repeat(199));
    assert_eq!(
        key_of(&tag_a(), &[("a", &v)]).unwrap(),
        format!("{}#", "A".repeat(199))
    );
}

#[test]
fn test_partition_key_truncate_within_code_point() {
    for n in [194, 195, 196] {
        let v = format!("{}🍌", "A".repeat(n));
        assert_eq!(
            key_of(&tag_a(), &[("a", &v)]).unwrap(),
            format!("{}#", "A".repeat(n))
        );
    }
}

#[test]
fn test_partition_key_truncate_within_grapheme_0() {
    let v = format!("{}நிbananas", "A".repeat(181));
    assert_eq!(
        key_of(&tag_a(), &[("a", &v)]).unwrap(),
        format!("{}%E0%AE%A8%E0%AE%BF#", "A".repeat(181))
    );
}

#[test]
fn test_partition_key_truncate_within_grapheme() {
    for n in 182..=190 {
        let v = format!("{}நிbananas", "A".repeat(n));
        assert_eq!(
            key_of(&tag_a(), &[("a", &v)]).unwrap(),
            format!("{}#", "A".repeat(n))
        );
    }
}

#[test]
fn test_partition_key_truncate_grapheme_identity() {
    let v = format!("{}நி", "A".repeat(182));
    assert_eq!(
        key_of(&tag_a(), &[("a", &v)]).unwrap(),
        format!("{}%E0%AE%A8%E0%AE%BF", "A".repeat(182))
    );
}

#[test]
fn percent_encode_reserved_and_plain_bytes() {
    assert_eq!(percent_encode("abc"), "abc");
    assert_eq!(percent_encode("a|b!c^d#e%f"), "a%7Cb%21c%5Ed%23e%25f");
    assert_eq!(percent_encode("tab\there\u{7f}"), "tab%09here%7F");
    assert_eq!(percent_encode("é"), "%C3%A9");
    assert_eq!(percent_encode(""), "");
}

#[test]
fn key_parts_are_short_and_hold_no_delimiter() {
    let long = "|".repeat(150);
    let part = encode_key_part(&long);
    assert!(part.len() <= 200);
    assert!(!part.contains('|'));
    assert!(part.ends_with('#'));
    assert_eq!(part.matches('#').count(), 1);
    // 66 encoded delimiters fit in 198 bytes, a 67th would reach 201.
    assert_eq!(part, format!("{}#", "%7C".repeat(66)));
}

#[test]
fn key_part_boundary_counts_encoded_bytes() {
    // 66 `%` encode to 198 bytes, plus two plain bytes: exactly 200.
    let v = format!("{}AB", "%".repeat(66));
    assert_eq!(encode_key_part(&v), format!("{}AB", "%25".repeat(66)));
    // One more plain byte makes 201: cut before the byte that crosses 199.
    let v = format!("{}ABC", "%".repeat(66));
    assert_eq!(encode_key_part(&v), format!("{}A#", "%25".repeat(66)));
}

#[test]
fn time_format_renders_in_utc() {
    let key = key_of(&[TemplatePart::TimeFormat("%Y-%m-%dT%H:%M:%S")], &[]).unwrap();
    assert_eq!(key, "2023-05-29T13:03:16");
}

#[test]
fn time_format_encodes_reserved_bytes() {
    let key = key_of(&[TemplatePart::TimeFormat("%Y|%m|%d!-%%x")], &[]).unwrap();
    assert_eq!(key, "2023%7C05%7C29%21-%25x");
}

#[test]
fn long_time_format_is_truncated() {
    let format = "%Y".repeat(60);
    let key = key_of(&[TemplatePart::TimeFormat(&format)], &[]).unwrap();
    assert_eq!(key, format!("{}#", &"2023".repeat(60)[..199]));
    assert!(key.len() <= 200);
}

#[test]
fn truncate_clusters_on_given_clusters() {
    let clusters = vec!["ab"; 150];
    assert_eq!(truncate_clusters(&clusters), format!("{}#", "ab".repeat(99)));
    let clusters = vec!["|", "x"];
    assert_eq!(truncate_clusters(&clusters), "%7Cx#");
    let clusters: Vec<&str> = vec![];
    assert_eq!(truncate_clusters(&clusters), "#");
}

#[test]
fn bucket_for_hash_clears_the_sign_bit() {
    assert_eq!(bucket_for_hash(0x8000_0007, 10), 7);
    assert_eq!(bucket_for_hash(0xffff_ffff, 10), 0x7fff_ffff % 10);
    assert_eq!(bucket_for_hash(123, 1), 0);
    assert_eq!(bucket_for_hash(0x33bf_00a8, 1000), (0x33bf_00a8u32 & 0x7fff_ffff) % 1000);
}

#[test]
fn bucket_of_other_counts() {
    let template = [TemplatePart::Bucket("a", 1)];
    assert_eq!(key_of(&template, &[("a", "anything")]).unwrap(), "0");
    let template = [TemplatePart::Bucket("a", 1000)];
    let key = key_of(&template, &[("a", "foo")]).unwrap();
    let n: u32 = key.parse().unwrap();
    assert!(n < 1000);
}

#[test]
fn tag_value_not_tag_carries_the_type() {
    let mut batch = Batch::with_time(vec![1]);
    assert!(batch.add_field("f", "i64", vec![true]));
    let keys = partition_keys(&batch, &[TemplatePart::TagValue("f")]);
    assert_eq!(
        keys,
        vec![Some(Err(PartitionKeyError::TagValueNotTag("i64".to_string())))]
    );
}

#[test]
fn null_field_rows_render_null() {
    let mut batch = Batch::with_time(vec![1, 2]);
    assert!(batch.add_field("f", "string", vec![false, false]));
    let keys = partition_keys(&batch, &[TemplatePart::TagValue("f")]);
    assert_eq!(keys, vec![Some(Ok("!".to_string())), None]);
}
