use tokyo_weather::bucket::{bucket_label, parse_bucket, Bucket, BucketKind};

#[test]
fn parses_exact_bucket() {
    let bucket =
        parse_bucket("Will the highest temperature in Tokyo be 25°C on September 5?").unwrap();
    assert!(bucket.contains(25));
    assert!(!bucket.contains(24));
}

#[test]
fn parses_tail_buckets() {
    let low = parse_bucket("Will the highest temperature in Tokyo be 21°C or below on September 5?")
        .unwrap();
    let high =
        parse_bucket("Will the highest temperature in Tokyo be 31°C or higher on September 5?")
            .unwrap();
    assert!(low.contains(20));
    assert!(high.contains(32));
    assert!(!low.contains(22));
    assert!(!high.contains(30));
}

#[test]
fn parsed_buckets_carry_threshold_and_kind() {
    assert_eq!(
        parse_bucket("Will the highest temperature in Tokyo be 21°C or below on September 5?"),
        Some(Bucket { threshold: 21, kind: BucketKind::AtOrBelow })
    );
    assert_eq!(
        parse_bucket("Will the highest temperature in Tokyo be 31°C or higher on September 5?"),
        Some(Bucket { threshold: 31, kind: BucketKind::AtOrAbove })
    );
    assert_eq!(
        parse_bucket("Will the highest temperature in Tokyo be -3°C on January 5?"),
        Some(Bucket { threshold: -3, kind: BucketKind::Exact })
    );
}

#[test]
fn questions_without_a_number_have_no_bucket() {
    assert_eq!(parse_bucket("Highest temperature in Tokyo on September 5?"), None);
    assert_eq!(parse_bucket("Will it be hot°C on Monday?"), None);
    assert_eq!(parse_bucket("Will it be +°C on Monday?"), None);
    assert_eq!(parse_bucket("Will it be 99999999999°C on Monday?"), None);
}

#[test]
fn bucket_numbers_are_trimmed_and_signed() {
    assert_eq!(
        parse_bucket("Will it be  +7 °C on Monday?"),
        Some(Bucket { threshold: 7, kind: BucketKind::Exact })
    );
    assert_eq!(
        parse_bucket("Will it be -2147483648°C or below"),
        Some(Bucket { threshold: i32::MIN, kind: BucketKind::AtOrBelow })
    );
    assert_eq!(parse_bucket("Will it be 2147483648°C"), None);
}

#[test]
fn only_the_text_before_a_second_be_is_read() {
    // The kind markers after a second " be " do not count.
    assert_eq!(
        parse_bucket("Will it be 5°C or will it be or below"),
        Some(Bucket { threshold: 5, kind: BucketKind::Exact })
    );
}

#[test]
fn labels_keep_the_bucket_text() {
    assert_eq!(
        bucket_label("Will the highest temperature in Tokyo be 21°C or below on September 5?"),
        "21°C or below"
    );
    assert_eq!(
        bucket_label("Will the highest temperature in Tokyo be 25°C on September 5?"),
        "25°C"
    );
    assert_eq!(bucket_label("Tokyo heat"), "Tokyo heat");
    assert_eq!(bucket_label("Will it be warm"), "warm");
}

#[test]
fn written_questions_read_back_their_number() {
    for n in [i32::MIN, -40, -1, 0, 7, 25, 100, i32::MAX] {
        let question = format!("Will the highest temperature in Tokyo be {}°C or higher on May 1?", n);
        assert_eq!(
            parse_bucket(&question),
            Some(Bucket { threshold: n, kind: BucketKind::AtOrAbove })
        );
        assert_eq!(bucket_label(&question), format!("{}°C or higher", n));
    }
}
