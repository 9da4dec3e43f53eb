use chrono::TimeZone;
use ts_millis::codec::{decode, encode, CodecError};
use ts_millis::timestamp::Timestamp;

const TIMESTAMP_MS: i64 = 1640995200000;

#[test]
fn can_deserialize() {
    let date_time = chrono::Utc.with_ymd_and_hms(2022, 1, 1, 0, 0, 0).unwrap();
    let t = decode(&TIMESTAMP_MS.to_string()).unwrap();
    let time = chrono::DateTime::from_timestamp(t.seconds, t.nanoseconds).unwrap();
    assert_eq!(time, date_time);
}

#[test]
fn round_trip() {
    let t = decode(&TIMESTAMP_MS.to_string()).unwrap();
    let s = encode(&t).unwrap();
    let t_again = decode(&s).unwrap();
    assert_eq!(t, t_again);
}

#[test]
fn encodes_known_value() {
    let t = Timestamp::new(1640995200, 0);
    assert_eq!(encode(&t).unwrap(), "1640995200000");
}

#[test]
fn decodes_known_value() {
    let t = decode("1640995200000").unwrap();
    assert_eq!(t, Timestamp::new(1640995200, 0));
}

#[test]
fn rejects_malformed_input() {
    assert_eq!(decode("abc"), Err(CodecError::Parse));
    assert_eq!(decode(""), Err(CodecError::Parse));
    assert_eq!(decode("12.5"), Err(CodecError::Parse));
    assert_eq!(decode(" 123"), Err(CodecError::Parse));
    assert_eq!(decode("-"), Err(CodecError::Parse));
    assert_eq!(decode("+123"), Err(CodecError::Parse));
    assert_eq!(decode("12-3"), Err(CodecError::Parse));
    assert_eq!(decode("123 "), Err(CodecError::Parse));
}

#[test]
fn decodes_negative_boundary() {
    // 500ms before the epoch: the seconds floor to -1 and the nanosecond
    // part stays non-negative
    let t = decode("-500").unwrap();
    assert_eq!(t, Timestamp::new(-1, 500_000_000));
}

#[test]
fn preserves_sign() {
    let t = Timestamp::new(-1, 500_000_000);
    let s = encode(&t).unwrap();
    assert_eq!(s, "-500");
    assert!(s.starts_with('-'));
    assert_eq!(decode(&s).unwrap(), t);
}

#[test]
fn round_trips_exact_timestamps() {
    let cases = [
        Timestamp::new(0, 0),
        Timestamp::new(1, 500_000_000),
        Timestamp::new(-1, 999_000_000),
        Timestamp::new(1640995200, 42_000_000),
        Timestamp::new(-86400, 0),
        Timestamp::new(i64::MIN / 1000, 0),
    ];
    for t in cases {
        let s = encode(&t).unwrap();
        assert_eq!(decode(&s).unwrap(), t);
    }
}

#[test]
fn truncates_sub_millisecond_remainder() {
    // a remainder below one millisecond disappears; everything else is kept
    let t = Timestamp::new(0, 1_500_999);
    let s = encode(&t).unwrap();
    assert_eq!(s, "1");
    let u = decode(&s).unwrap();
    assert_eq!(u, Timestamp::new(0, 1_000_000));
    assert_eq!(encode(&u).unwrap(), "1");
}

#[test]
fn truncates_toward_minus_infinity_before_epoch() {
    // one nanosecond before the epoch already lies in millisecond -1
    let t = Timestamp::new(-1, 999_999_999);
    let s = encode(&t).unwrap();
    assert_eq!(s, "-1");
    assert_eq!(decode(&s).unwrap(), Timestamp::new(-1, 999_000_000));
    assert_eq!(encode(&decode(&s).unwrap()).unwrap(), "-1");
}

#[test]
fn encodes_zero_without_sign() {
    assert_eq!(encode(&Timestamp::new(0, 0)).unwrap(), "0");
}

#[test]
fn reports_overflowing_millis() {
    assert_eq!(encode(&Timestamp::new(i64::MAX, 0)), Err(CodecError::Overflow));
    assert_eq!(encode(&Timestamp::new(i64::MIN, 0)), Err(CodecError::Overflow));
}

#[test]
fn accepts_full_64_bit_range() {
    let max = decode("9223372036854775807").unwrap();
    assert_eq!(max, Timestamp::new(9223372036854775, 807_000_000));
    let min = decode("-9223372036854775808").unwrap();
    assert_eq!(min, Timestamp::new(-9223372036854776, 192_000_000));
    assert_eq!(encode(&max).unwrap(), "9223372036854775807");
    assert_eq!(encode(&min).unwrap(), "-9223372036854775808");
}

#[test]
fn rejects_out_of_range_values() {
    assert_eq!(decode("9223372036854775808"), Err(CodecError::Parse));
    assert_eq!(decode("-9223372036854775809"), Err(CodecError::Parse));
    assert_eq!(decode("99999999999999999999"), Err(CodecError::Parse));
    assert_eq!(decode("-00099999999999999999999"), Err(CodecError::Parse));
}

#[test]
fn accepts_leading_zeros() {
    assert_eq!(decode("007").unwrap(), Timestamp::new(0, 7_000_000));
    assert_eq!(decode("-0").unwrap(), Timestamp::new(0, 0));
    assert_eq!(decode("00000000000000000000000").unwrap(), Timestamp::new(0, 0));
    assert_eq!(decode("00009223372036854775807").unwrap(), Timestamp::new(9223372036854775, 807_000_000));
}
