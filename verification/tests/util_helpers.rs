use loaded::config::{parse_duration, parse_key_val};
use loaded::duration_format::{format_duration, u128_to_string};
use loaded::util::divvy;

#[test]
fn test_divvy_no_remainder() {
    let actual = divvy(25, 5);
    let expected = vec![5usize; 5];
    assert_eq!(actual, expected);
}

#[test]
fn test_divvy_with_remainder() {
    let actual = divvy(29, 5);
    let expected = vec![6usize, 6, 6, 6, 5];
    assert_eq!(actual, expected);
}

#[test]
fn divvy_fewer_items_than_slots() {
    assert_eq!(divvy(1, 4), vec![1usize, 0, 0, 0]);
    assert_eq!(divvy(0, 3), vec![0usize, 0, 0]);
}

#[test]
fn divvy_sums_and_order() {
    let shares = divvy(103, 7);
    assert_eq!(shares.len(), 7);
    assert_eq!(shares.iter().sum::<usize>(), 103);
    for w in shares.windows(2) {
        assert!(w[0] >= w[1]);
    }
    for &s in &shares {
        assert!(s == 103 / 7 || s == 103 / 7 + 1);
    }
}

#[test]
fn decimal_rendering() {
    assert_eq!(u128_to_string(0), "0");
    assert_eq!(u128_to_string(7), "7");
    assert_eq!(u128_to_string(90210), "90210");
    assert_eq!(u128_to_string(u128::MAX), u128::MAX.to_string());
}

#[test]
fn duration_rendering_buckets() {
    assert_eq!(format_duration(999), "999ns");
    assert_eq!(format_duration(1_500), "1.500us");
    assert_eq!(format_duration(2_250_000), "2.250ms");
    assert_eq!(format_duration(3_000_000_000), "3.0s");
    // One and a half minutes: the minute bucket runs up to six minutes.
    assert_eq!(format_duration(90_000_000_000), "1.500m");
    assert_eq!(format_duration(360_000_000_000), "1.0h");
}

#[test]
fn parse_duration_values() {
    assert_eq!(parse_duration("7"), Some(7));
    assert_eq!(parse_duration("0"), Some(0));
    assert_eq!(parse_duration("3600"), Some(3600));
    assert_eq!(parse_duration(""), None);
    assert_eq!(parse_duration("12x"), None);
    assert_eq!(parse_duration("-5"), None);
    assert_eq!(parse_duration("18446744073709551615"), Some(u64::MAX));
    assert_eq!(parse_duration("18446744073709551616"), None);
}

#[test]
fn parse_key_val_splits_at_first_equals() {
    assert_eq!(
        parse_key_val("Content-Type=application/json"),
        Some(("Content-Type".to_string(), "application/json".to_string()))
    );
    assert_eq!(parse_key_val("a=b=c"), Some(("a".to_string(), "b=c".to_string())));
    assert_eq!(parse_key_val("k="), Some(("k".to_string(), "".to_string())));
    assert_eq!(parse_key_val("no-separator"), None);
}
