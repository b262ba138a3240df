use forthic::errors::{CodeLocation, ForthicError};

#[test]
fn test_code_location_default() {
    let loc = CodeLocation::default();
    assert_eq!(loc.line, 1);
    assert_eq!(loc.column, 1);
    assert_eq!(loc.start_pos, 0);
    assert_eq!(loc.end_pos, None);
    assert_eq!(loc.source, None);
}

#[test]
fn test_code_location_builder() {
    let loc = CodeLocation::new(10, 5, 42)
        .with_source("test.forthic".to_string())
        .with_end_pos(50);

    assert_eq!(loc.line, 10);
    assert_eq!(loc.column, 5);
    assert_eq!(loc.start_pos, 42);
    assert_eq!(loc.end_pos, Some(50));
    assert_eq!(loc.source, Some("test.forthic".to_string()));
}

#[test]
fn test_unknown_word_error() {
    let error = ForthicError::UnknownWord {
        forthic: "DUP GARBAGE SWAP".to_string(),
        word: "GARBAGE".to_string(),
        location: Some(CodeLocation::new(1, 5, 4).with_end_pos(11)),
        cause: None,
    };

    assert_eq!(error.get_forthic(), Some("DUP GARBAGE SWAP"));
    assert!(error.message().contains("GARBAGE"));
}

#[test]
fn test_stack_underflow_error() {
    let error = ForthicError::StackUnderflow {
        forthic: "POP".to_string(),
        location: Some(CodeLocation::default()),
        cause: None,
    };

    assert!(error.message().contains("Stack underflow"));
}

#[test]
fn test_format_with_context() {
    let forthic = "DUP GARBAGE SWAP";
    let error = ForthicError::UnknownWord {
        forthic: forthic.to_string(),
        word: "GARBAGE".to_string(),
        location: Some(CodeLocation::new(1, 5, 4).with_end_pos(11)),
        cause: None,
    };

    let formatted = error.format_with_context();
    assert!(formatted.contains("Unknown word"));
    assert!(formatted.contains("GARBAGE"));
    assert!(formatted.contains("at line 1"));
    assert!(formatted.contains("^^^"));
}

#[test]
fn test_format_multiline_error() {
    let forthic = "DUP\nGARBAGE\nSWAP";
    let error = ForthicError::UnknownWord {
        forthic: forthic.to_string(),
        word: "GARBAGE".to_string(),
        location: Some(CodeLocation::new(2, 1, 4).with_end_pos(11)),
        cause: None,
    };

    let formatted = error.format_with_context();
    assert!(formatted.contains("at line 2"));
    assert!(formatted.contains("DUP"));
    assert!(formatted.contains("GARBAGE"));
}

#[test]
fn test_error_without_location() {
    let error = ForthicError::UnknownWord {
        forthic: "DUP".to_string(),
        word: "DUP".to_string(),
        location: None,
        cause: None,
    };

    let formatted = error.format_with_context();
    assert!(formatted.contains("Unknown word"));
}

#[test]
fn test_intentional_stop_error() {
    let error = ForthicError::IntentionalStop {
        message: "User requested stop".to_string(),
    };

    assert!(error.message().contains("Intentional stop"));
    assert_eq!(error.get_forthic(), None);
    assert!(error.get_location().is_none());
}

#[test]
fn test_invalid_variable_name_error() {
    let error = ForthicError::InvalidVariableName {
        forthic: "123 !".to_string(),
        varname: "123".to_string(),
        location: Some(CodeLocation::default()),
        cause: None,
    };

    assert!(error.message().contains("Invalid variable name"));
    assert!(error.message().contains("123"));
}

#[test]
fn test_too_many_attempts_error() {
    let error = ForthicError::TooManyAttempts {
        forthic: "code".to_string(),
        num_attempts: 10,
        max_attempts: 5,
        location: None,
        cause: None,
    };

    let msg = error.message();
    assert!(msg.contains("Too many recovery attempts"));
    assert!(msg.contains("10"));
    assert!(msg.contains("5"));
}
