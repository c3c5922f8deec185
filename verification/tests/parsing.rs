use day_night_shader::params::{parse_micro, validate_request, SunParams};
use day_night_shader::query::{lookup, parse_query};

#[test]
fn micro_integer_values() {
    assert_eq!(parse_micro(b"0"), Some(0));
    assert_eq!(parse_micro(b"90"), Some(90_000_000));
    assert_eq!(parse_micro(b"-180"), Some(-180_000_000));
    assert_eq!(parse_micro(b"+7"), Some(7_000_000));
}

#[test]
fn micro_fraction_values() {
    assert_eq!(parse_micro(b"-12.5"), Some(-12_500_000));
    assert_eq!(parse_micro(b"3.14"), Some(3_140_000));
    assert_eq!(parse_micro(b"1."), Some(1_000_000));
    assert_eq!(parse_micro(b".5"), Some(500_000));
    assert_eq!(parse_micro(b"-.25"), Some(-250_000));
}

#[test]
fn micro_truncates_beyond_sixth_fraction_digit() {
    assert_eq!(parse_micro(b"0.0000019"), Some(1));
    assert_eq!(parse_micro(b"0.1234567"), Some(123_456));
    assert_eq!(parse_micro(b"-0.9999999"), Some(-999_999));
}

#[test]
fn micro_rejects_non_numbers() {
    assert_eq!(parse_micro(b""), None);
    assert_eq!(parse_micro(b"abc"), None);
    assert_eq!(parse_micro(b"."), None);
    assert_eq!(parse_micro(b"+"), None);
    assert_eq!(parse_micro(b"-."), None);
    assert_eq!(parse_micro(b"1e5"), None);
    assert_eq!(parse_micro(b"nan"), None);
    assert_eq!(parse_micro(b"inf"), None);
    assert_eq!(parse_micro(b"1.2.3"), None);
    assert_eq!(parse_micro(b"12a"), None);
    assert_eq!(parse_micro(b"--1"), None);
}

#[test]
fn micro_rejects_oversized_integer_parts() {
    assert_eq!(parse_micro(b"123456789012"), Some(123_456_789_012_000_000));
    assert_eq!(parse_micro(b"1234567890123"), None);
}

#[test]
fn query_splits_pairs_in_order() {
    let pairs = parse_query(b"lat=1&lon=2");
    assert_eq!(pairs.len(), 2);
    assert_eq!(pairs[0].key, b"lat".to_vec());
    assert_eq!(pairs[0].value, b"1".to_vec());
    assert_eq!(pairs[1].key, b"lon".to_vec());
    assert_eq!(pairs[1].value, b"2".to_vec());
}

#[test]
fn query_drops_empty_segments_and_defaults_values() {
    let pairs = parse_query(b"a=1&&flag&");
    assert_eq!(pairs.len(), 2);
    assert_eq!(pairs[0].key, b"a".to_vec());
    assert_eq!(pairs[0].value, b"1".to_vec());
    assert_eq!(pairs[1].key, b"flag".to_vec());
    assert_eq!(pairs[1].value, b"".to_vec());
}

#[test]
fn query_decodes_escapes_and_plus() {
    let pairs = parse_query(b"k%41y=a+b%2Bc");
    assert_eq!(pairs.len(), 1);
    assert_eq!(pairs[0].key, b"kAy".to_vec());
    assert_eq!(pairs[0].value, b"a b+c".to_vec());
}

#[test]
fn query_keeps_malformed_escapes_literally() {
    let pairs = parse_query(b"k=%G1%2");
    assert_eq!(pairs.len(), 1);
    assert_eq!(pairs[0].value, b"%G1%2".to_vec());
}

#[test]
fn lookup_takes_the_last_duplicate() {
    let pairs = parse_query(b"lat=10&lon=0&lat=20");
    let v = lookup(&pairs, b"lat").expect("lat present");
    assert_eq!(v, &b"20".to_vec());
    assert!(lookup(&pairs, b"missing").is_none());
}

#[test]
fn validate_accepts_both_angles() {
    assert_eq!(
        validate_request(b"lat=0&lon=0"),
        Some(SunParams { lat_micro: 0, lon_micro: 0 })
    );
    assert_eq!(
        validate_request(b"lat=-90&lon=180"),
        Some(SunParams {
            lat_micro: -90_000_000,
            lon_micro: 180_000_000,
        })
    );
    assert_eq!(
        validate_request(b"lat=45.5&lon=-120.25&extra=1"),
        Some(SunParams {
            lat_micro: 45_500_000,
            lon_micro: -120_250_000,
        })
    );
}

#[test]
fn validate_uses_the_last_duplicate() {
    assert_eq!(
        validate_request(b"lat=10&lon=0&lat=20"),
        Some(SunParams {
            lat_micro: 20_000_000,
            lon_micro: 0,
        })
    );
}

#[test]
fn validate_rejects_missing_or_bad_angles() {
    assert_eq!(validate_request(b""), None);
    assert_eq!(validate_request(b"lat=1"), None);
    assert_eq!(validate_request(b"lon=1"), None);
    assert_eq!(validate_request(b"lat=abc&lon=10"), None);
    assert_eq!(validate_request(b"lat=10&lon="), None);
    assert_eq!(validate_request(b"lat=90.000001&lon=0"), None);
    assert_eq!(validate_request(b"lat=0&lon=180.000001"), None);
    assert_eq!(validate_request(b"lat=0&lon=-181"), None);
}
