use forthic::interpreter::Interpreter;
use forthic::literals::{to_zoned_datetime, ForthicValue, NoFloatLiterals};

#[test]
fn test_parse_utc_datetime_with_z_suffix() {
    let result = to_zoned_datetime("2025-05-24T10:15:00Z", "America/New_York");

    assert!(result.is_some());
    if let ForthicValue::DateTime(dt) = result.unwrap() {
        assert_eq!(dt.tz_name, "UTC");
        assert_eq!(dt.offset_seconds, 0);
        assert_eq!(dt.time.hour, 10);
        assert_eq!(dt.time.minute, 15);
    } else {
        panic!("Expected DateTime");
    }
}

#[test]
fn test_parse_iana_timezone_with_bracket_notation() {
    let result = to_zoned_datetime("2025-05-20T08:00:00[America/Los_Angeles]", "America/New_York");

    assert!(result.is_some());
    if let ForthicValue::DateTime(dt) = result.unwrap() {
        assert_eq!(dt.tz_name, "America/Los_Angeles");
        assert_eq!(dt.time.hour, 8);
        // Pacific daylight time in May.
        assert_eq!(dt.offset_seconds, -7 * 3600);
    } else {
        panic!("Expected DateTime");
    }
}

#[test]
fn test_parse_datetime_with_offset_and_iana_timezone() {
    let result = to_zoned_datetime(
        "2025-05-20T08:00:00-07:00[America/Los_Angeles]",
        "America/New_York",
    );

    assert!(result.is_some());
    if let ForthicValue::DateTime(dt) = result.unwrap() {
        assert_eq!(dt.tz_name, "America/Los_Angeles");
        assert_eq!(dt.time.hour, 8);
        assert_eq!(dt.offset_seconds, -7 * 3600);
    } else {
        panic!("Expected DateTime");
    }
}

#[test]
fn test_parse_datetime_with_offset_only() {
    let result = to_zoned_datetime("2025-05-24T10:15:00-05:00", "America/New_York");

    assert!(result.is_some());
    if let ForthicValue::DateTime(dt) = result.unwrap() {
        assert_eq!(dt.time.minute, 15);
        assert_eq!(dt.offset_seconds, -5 * 3600);
        assert_eq!(dt.tz_name, "-05:00");
    } else {
        panic!("Expected DateTime");
    }
}

#[test]
fn test_parse_datetime_without_timezone_uses_default() {
    let result = to_zoned_datetime("2025-05-24T10:15:00", "America/Los_Angeles");

    assert!(result.is_some());
    if let ForthicValue::DateTime(dt) = result.unwrap() {
        assert_eq!(dt.tz_name, "America/Los_Angeles");
        assert_eq!(dt.time.hour, 10);
        assert_eq!(dt.time.minute, 15);
        // Pacific daylight time in May.
        assert_eq!(dt.offset_seconds, -7 * 3600);
    } else {
        panic!("Expected DateTime");
    }
}

#[test]
fn test_parse_invalid_zoned_datetime() {
    assert!(to_zoned_datetime("invalid", "UTC").is_none());
    assert!(to_zoned_datetime("2023-12-25", "UTC").is_none());
    assert!(to_zoned_datetime("2023-13-25T10:00:00Z", "UTC").is_none());
    assert!(to_zoned_datetime("2023-12-25T25:00:00Z", "UTC").is_none());
    assert!(to_zoned_datetime("2023-12-25T10:00:00+25:00", "UTC").is_none());
    assert!(to_zoned_datetime("2023-12-25T10:00:00[Not/A_Zone]", "UTC").is_none());
}

#[test]
fn test_run_zoned_datetime_literal() {
    let mut interp = Interpreter::new_with_float_parser("UTC", NoFloatLiterals);
    interp.run("2025-05-20T08:00:00[America/Los_Angeles]").unwrap();

    let value = interp.stack_pop().unwrap();
    if let ForthicValue::DateTime(dt) = value {
        assert_eq!(dt.tz_name, "America/Los_Angeles");
        assert_eq!(dt.time.hour, 8);
    } else {
        panic!("Expected DateTime");
    }
}

#[test]
fn test_dst_gap_is_declined() {
    // Spring-forward gap: 2:30 AM does not exist on this date in this zone.
    let result = to_zoned_datetime("2025-03-09T02:30:00", "America/Los_Angeles");
    assert!(result.is_none());
}
