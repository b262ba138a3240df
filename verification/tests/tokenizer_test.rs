use forthic::errors::ForthicError;
use forthic::tokenizer::{Token, TokenType, Tokenizer};

fn tokenize_all(code: &str) -> Result<Vec<Token>, ForthicError> {
    let mut tokenizer = Tokenizer::new(code.to_string(), None, false);
    let mut tokens = Vec::new();

    loop {
        let token = tokenizer.next_token()?;
        if token.token_type == TokenType::Eos {
            break;
        }
        tokens.push(token);
    }

    Ok(tokens)
}

#[test]
fn test_simple_words() {
    let tokens = tokenize_all("DUP SWAP").unwrap();
    assert_eq!(tokens.len(), 2);
    assert_eq!(tokens[0].token_type, TokenType::Word);
    assert_eq!(tokens[0].string, "DUP");
    assert_eq!(tokens[1].token_type, TokenType::Word);
    assert_eq!(tokens[1].string, "SWAP");
}

#[test]
fn test_string_literal() {
    let tokens = tokenize_all(r#""hello world""#).unwrap();
    assert_eq!(tokens.len(), 1);
    assert_eq!(tokens[0].token_type, TokenType::String);
    assert_eq!(tokens[0].string, "hello world");
}

#[test]
fn test_triple_quote_string() {
    let tokens = tokenize_all(
        r#""""multi
line
string""""#,
    )
    .unwrap();
    assert_eq!(tokens.len(), 1);
    assert_eq!(tokens[0].token_type, TokenType::String);
    assert!(tokens[0].string.contains("multi"));
    assert!(tokens[0].string.contains("line"));
}

#[test]
fn test_array() {
    let tokens = tokenize_all("[ 1 2 3 ]").unwrap();
    assert_eq!(tokens.len(), 5);
    assert_eq!(tokens[0].token_type, TokenType::StartArray);
    assert_eq!(tokens[1].token_type, TokenType::Word);
    assert_eq!(tokens[4].token_type, TokenType::EndArray);
}

#[test]
fn test_definition() {
    let tokens = tokenize_all(": DOUBLE 2 * ;").unwrap();
    assert_eq!(tokens[0].token_type, TokenType::StartDef);
    assert_eq!(tokens[0].string, "DOUBLE");
    assert_eq!(tokens[3].token_type, TokenType::EndDef);
}

#[test]
fn test_memo() {
    let tokens = tokenize_all("@: CACHED 42 ;").unwrap();
    assert_eq!(tokens[0].token_type, TokenType::StartMemo);
    assert_eq!(tokens[0].string, "CACHED");
}

#[test]
fn test_module() {
    let tokens = tokenize_all("{ : WORD 42 ; }").unwrap();
    assert_eq!(tokens[0].token_type, TokenType::StartModule);
    assert!(tokens.iter().any(|t| t.token_type == TokenType::EndModule));
}

#[test]
fn test_comment() {
    let tokens = tokenize_all("DUP # This is a comment\nSWAP").unwrap();
    assert_eq!(tokens.len(), 3);
    assert_eq!(tokens[0].token_type, TokenType::Word);
    assert_eq!(tokens[1].token_type, TokenType::Comment);
    assert_eq!(tokens[2].token_type, TokenType::Word);
}

#[test]
fn test_dot_symbol() {
    let tokens = tokenize_all(".field").unwrap();
    assert_eq!(tokens.len(), 1);
    assert_eq!(tokens[0].token_type, TokenType::DotSymbol);
    assert_eq!(tokens[0].string, "field");
}

#[test]
fn test_unterminated_string() {
    let result = tokenize_all(r#""unterminated"#);
    assert!(result.is_err());
    assert!(matches!(
        result.unwrap_err(),
        ForthicError::UnterminatedString { .. }
    ));
}

#[test]
fn test_invalid_definition_name() {
    let result = tokenize_all(r#": "INVALID" ;"#);
    assert!(result.is_err());
    assert!(matches!(
        result.unwrap_err(),
        ForthicError::InvalidWordName { .. }
    ));
}

#[test]
fn test_whitespace_handling() {
    let tokens = tokenize_all("  DUP  \n\t  SWAP  ").unwrap();
    assert_eq!(tokens.len(), 2);
    assert_eq!(tokens[0].string, "DUP");
    assert_eq!(tokens[1].string, "SWAP");
}

#[test]
fn test_token_locations() {
    let tokens = tokenize_all("DUP SWAP").unwrap();
    assert_eq!(tokens[0].location.start_pos, 0);
    assert_eq!(tokens[0].location.end_pos, Some(3));
    assert_eq!(tokens[1].location.start_pos, 4);
    assert_eq!(tokens[1].location.end_pos, Some(8));
}

#[test]
fn test_unescape_entities() {
    let tokens = tokenize_all("&lt;TAG&gt;").unwrap();
    assert_eq!(tokens.len(), 1);
    assert_eq!(tokens[0].string, "<TAG>");
}

#[test]
fn test_datetime_bracket_token() {
    let tokens = tokenize_all("2025-05-20T08:00:00[America/Los_Angeles]").unwrap();
    assert_eq!(tokens.len(), 1);
    assert_eq!(tokens[0].token_type, TokenType::Word);
    assert_eq!(tokens[0].string, "2025-05-20T08:00:00[America/Los_Angeles]");
}

#[test]
fn test_triple_quote_greedy() {
    let tokens = tokenize_all("\"\"\"inner \"\"\"\"").unwrap();
    assert_eq!(tokens.len(), 1);
    assert_eq!(tokens[0].token_type, TokenType::String);
    assert_eq!(tokens[0].string, "inner \"");
}

#[test]
fn test_streaming_partial_string() {
    let mut tokenizer = Tokenizer::new("\"open".to_string(), None, true);
    let token = tokenizer.next_token().unwrap();
    assert_eq!(token.token_type, TokenType::String);
    assert_eq!(token.string, "open");
}

#[test]
fn test_eos_repeats() {
    let mut tokenizer = Tokenizer::new("X".to_string(), None, false);
    let first = tokenizer.next_token().unwrap();
    assert_eq!(first.token_type, TokenType::Word);
    let second = tokenizer.next_token().unwrap();
    assert_eq!(second.token_type, TokenType::Eos);
    let third = tokenizer.next_token().unwrap();
    assert_eq!(third.token_type, TokenType::Eos);
}

#[test]
fn test_comment_excludes_newline() {
    let tokens = tokenize_all("#c\nX").unwrap();
    assert_eq!(tokens[0].token_type, TokenType::Comment);
    assert_eq!(tokens[0].string, "c");
    assert_eq!(tokens[1].token_type, TokenType::Word);
    assert_eq!(tokens[1].string, "X");
}
