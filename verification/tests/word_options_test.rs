use forthic::literals::ForthicValue;
use forthic::word_options::WordOptions;

#[test]
fn test_new_empty() {
    let opts = WordOptions::new();
    assert!(opts.is_empty());
    assert_eq!(opts.len(), 0);
}

#[test]
fn test_from_flat_array() {
    let flat = vec![
        ForthicValue::Str("key1".to_string()),
        ForthicValue::Int(42),
        ForthicValue::Str("key2".to_string()),
        ForthicValue::Bool(true),
    ];

    let opts = WordOptions::from_flat_array(&flat).unwrap();
    assert_eq!(opts.len(), 2);
    assert_eq!(opts.get_int("key1"), Some(42));
    assert_eq!(opts.get_bool("key2"), Some(true));
}

#[test]
fn test_from_flat_array_odd_length() {
    let flat = vec![
        ForthicValue::Str("key1".to_string()),
        ForthicValue::Int(42),
        ForthicValue::Str("key2".to_string()),
    ];

    let result = WordOptions::from_flat_array(&flat);
    assert!(result.is_err());
}

#[test]
fn test_from_flat_array_non_string_key() {
    let flat = vec![ForthicValue::Int(42), ForthicValue::Bool(true)];

    let result = WordOptions::from_flat_array(&flat);
    assert!(result.is_err());
}

#[test]
fn test_get_methods() {
    let flat = vec![
        ForthicValue::Str("int_val".to_string()),
        ForthicValue::Int(42),
        ForthicValue::Str("float_val".to_string()),
        ForthicValue::Float(3.14f64.to_bits()),
        ForthicValue::Str("bool_val".to_string()),
        ForthicValue::Bool(true),
        ForthicValue::Str("string_val".to_string()),
        ForthicValue::Str("hello".to_string()),
    ];

    let opts = WordOptions::from_flat_array(&flat).unwrap();

    assert_eq!(opts.get_int("int_val"), Some(42));
    assert_eq!(opts.get_float("float_val"), Some(3.14f64.to_bits()));
    assert_eq!(opts.get_bool("bool_val"), Some(true));
    assert_eq!(opts.get_string("string_val"), Some("hello"));

    assert_eq!(opts.get_int("float_val"), None);
    assert_eq!(opts.get_string("int_val"), None);

    assert_eq!(opts.get_int("missing"), None);
}

#[test]
fn test_has() {
    let flat = vec![
        ForthicValue::Str("key1".to_string()),
        ForthicValue::Int(42),
    ];

    let opts = WordOptions::from_flat_array(&flat).unwrap();
    assert!(opts.has("key1"));
    assert!(!opts.has("missing"));
}

#[test]
fn test_get_or() {
    let flat = vec![
        ForthicValue::Str("key1".to_string()),
        ForthicValue::Int(42),
    ];

    let opts = WordOptions::from_flat_array(&flat).unwrap();
    let fallback = ForthicValue::Int(99);

    assert_eq!(opts.get_or("key1", &fallback), &ForthicValue::Int(42));
    assert_eq!(opts.get_or("missing", &fallback), &ForthicValue::Int(99));
}

#[test]
fn test_keys() {
    let flat = vec![
        ForthicValue::Str("z_key".to_string()),
        ForthicValue::Int(1),
        ForthicValue::Str("a_key".to_string()),
        ForthicValue::Int(2),
    ];

    let opts = WordOptions::from_flat_array(&flat).unwrap();
    let mut keys = opts.keys();
    keys.sort();

    assert_eq!(keys, vec!["a_key".to_string(), "z_key".to_string()]);
}

#[test]
fn test_into_map() {
    let flat = vec![
        ForthicValue::Str("key1".to_string()),
        ForthicValue::Int(42),
    ];

    let opts = WordOptions::from_flat_array(&flat).unwrap();
    let entries = opts.into_entries();

    assert_eq!(entries.len(), 1);
    assert_eq!(entries[0].0, "key1");
    assert_eq!(entries[0].1, ForthicValue::Int(42));
}

#[test]
fn test_empty_array() {
    let flat: Vec<ForthicValue> = vec![];
    let opts = WordOptions::from_flat_array(&flat).unwrap();

    assert!(opts.is_empty());
    assert_eq!(opts.len(), 0);
}
