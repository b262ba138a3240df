use forthic::literals::{to_bool, to_int, to_literal_date_with, to_time, ForthicValue};

#[test]
fn test_to_bool() {
    assert_eq!(to_bool("TRUE"), Some(ForthicValue::Bool(true)));
    assert_eq!(to_bool("FALSE"), Some(ForthicValue::Bool(false)));
    assert_eq!(to_bool("true"), None);
    assert_eq!(to_bool("false"), None);
    assert_eq!(to_bool("True"), None);
}

#[test]
fn test_to_int() {
    assert_eq!(to_int("42"), Some(ForthicValue::Int(42)));
    assert_eq!(to_int("-10"), Some(ForthicValue::Int(-10)));
    assert_eq!(to_int("0"), Some(ForthicValue::Int(0)));
    assert_eq!(to_int("3.14"), None);
    assert_eq!(to_int("42abc"), None);
    assert_eq!(to_int("abc"), None);
}

#[test]
fn test_to_int_edges() {
    assert_eq!(to_int("007"), None);
    assert_eq!(to_int("-0"), None);
    assert_eq!(
        to_int("9223372036854775807"),
        Some(ForthicValue::Int(i64::MAX))
    );
    assert_eq!(
        to_int("-9223372036854775808"),
        Some(ForthicValue::Int(i64::MIN))
    );
    assert_eq!(to_int("9223372036854775808"), None);
}

#[test]
fn test_to_time_24hour() {
    let time = to_time("14:30").unwrap();
    if let ForthicValue::Time(t) = time {
        assert_eq!(t.hour, 14);
        assert_eq!(t.minute, 30);
    } else {
        panic!("Expected Time");
    }
}

#[test]
fn test_to_time_12hour_pm() {
    let time = to_time("2:30 PM").unwrap();
    if let ForthicValue::Time(t) = time {
        assert_eq!(t.hour, 14);
        assert_eq!(t.minute, 30);
    } else {
        panic!("Expected Time");
    }
}

#[test]
fn test_to_time_12hour_am() {
    let time = to_time("11:30 AM").unwrap();
    if let ForthicValue::Time(t) = time {
        assert_eq!(t.hour, 11);
        assert_eq!(t.minute, 30);
    } else {
        panic!("Expected Time");
    }
}

#[test]
fn test_to_time_midnight() {
    let time = to_time("12:00 AM").unwrap();
    if let ForthicValue::Time(t) = time {
        assert_eq!(t.hour, 0);
        assert_eq!(t.minute, 0);
    } else {
        panic!("Expected Time");
    }
}

#[test]
fn test_to_time_noon() {
    let time = to_time("12:00 PM").unwrap();
    if let ForthicValue::Time(t) = time {
        assert_eq!(t.hour, 12);
        assert_eq!(t.minute, 0);
    } else {
        panic!("Expected Time");
    }
}

#[test]
fn test_to_time_invalid() {
    assert!(to_time("25:00").is_none());
    assert!(to_time("12:60").is_none());
    assert!(to_time("abc").is_none());
    assert!(to_time("12:30:45").is_none());
}

#[test]
fn test_forthic_value_type_checks() {
    assert!(ForthicValue::Null.is_null());
    assert!(!ForthicValue::Bool(true).is_null());

    let val = ForthicValue::Int(42);
    assert_eq!(val.as_int(), Some(42));
    assert_eq!(val.as_float(), None);

    let val = ForthicValue::Str("hello".to_string());
    assert_eq!(val.as_string(), Some("hello"));
    assert_eq!(val.as_int(), None);
}

fn fixed_today() -> forthic::literals::Date {
    forthic::literals::Date { year: 2024, month: 6, day: 15 }
}

#[test]
fn test_to_literal_date() {
    let date = to_literal_date_with("2023-12-25", fixed_today()).unwrap();
    if let ForthicValue::Date(d) = date {
        assert_eq!(d.year, 2023);
        assert_eq!(d.month, 12);
        assert_eq!(d.day, 25);
    } else {
        panic!("Expected Date");
    }
}

#[test]
fn test_to_literal_date_with_wildcards() {
    let date = to_literal_date_with("YYYY-12-25", fixed_today());
    assert!(date.is_some());
    if let Some(ForthicValue::Date(d)) = date {
        assert_eq!(d.year, 2024);
        assert_eq!(d.month, 12);
        assert_eq!(d.day, 25);
    }

    let date = to_literal_date_with("2023-MM-25", fixed_today());
    assert!(date.is_some());

    let date = to_literal_date_with("2023-12-DD", fixed_today());
    assert!(date.is_some());
}

#[test]
fn test_to_literal_date_invalid() {
    assert!(to_literal_date_with("invalid", fixed_today()).is_none());
    assert!(to_literal_date_with("2023-13-01", fixed_today()).is_none());
    assert!(to_literal_date_with("2023-12-32", fixed_today()).is_none());
    assert!(to_literal_date_with("23-12-25", fixed_today()).is_none());
}

#[test]
fn test_leap_year_dates() {
    assert!(to_literal_date_with("2024-02-29", fixed_today()).is_some());
    assert!(to_literal_date_with("2023-02-29", fixed_today()).is_none());
    assert!(to_literal_date_with("2000-02-29", fixed_today()).is_some());
    assert!(to_literal_date_with("1900-02-29", fixed_today()).is_none());
}
