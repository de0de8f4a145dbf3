use bitcoder::parser::{Parser, Token};

#[test]
fn parse_numeric_min_to_max_sequence() {
    let tokens = Parser::parse("min to 3.5, 3.5 to max").unwrap();
    assert_eq!(tokens.len(), 6);
    assert!(matches!(tokens[0], Token::Minimum));
    assert!(matches!(tokens[1], Token::Range));
    assert!(matches!(tokens[2], Token::Number { value: 3500 }));
    assert!(matches!(tokens[3], Token::Number { value: 3500 }));
    assert!(matches!(tokens[4], Token::Range));
    assert!(matches!(tokens[5], Token::Maximum));
}

#[test]
fn parse_two_text_ranges() {
    let tokens = Parser::parse("\"A\" to \"C\", \"D\" to \"E\"").unwrap();
    assert_eq!(tokens.len(), 6);
    assert!(matches!(&tokens[0], Token::Text { value } if value == "A"));
    assert!(matches!(tokens[1], Token::Range));
    assert!(matches!(&tokens[2], Token::Text { value } if value == "C"));
    assert!(matches!(&tokens[3], Token::Text { value } if value == "D"));
    assert!(matches!(tokens[4], Token::Range));
    assert!(matches!(&tokens[5], Token::Text { value } if value == "E"));
}

#[test]
fn parse_number_lower_text_upper_fails() {
    let err = Parser::parse("3 to \"A\"").unwrap_err();
    assert_eq!(err, "Both lower and upper range must be strings.");
}

#[test]
fn parse_text_lower_number_upper_fails() {
    let err = Parser::parse("\"A\" to 3").unwrap_err();
    assert_eq!(err, "Both lower and upper range must be valid numbers.");
}

#[test]
fn parse_leading_separator_fails() {
    let err = Parser::parse("to 5").unwrap_err();
    assert_eq!(err, "Unexpected keyword 'to' (string, number or 'min' expected).");
}

#[test]
fn parse_missing_separator_fails() {
    let err = Parser::parse("min max").unwrap_err();
    assert_eq!(err, "Separate range values with keyword ' to '.");
}

#[test]
fn parse_bad_lower_value_fails() {
    let err = Parser::parse("$ to 5").unwrap_err();
    assert_eq!(
        err,
        "Unexpected lower range value '$' (a string or a valid number expected)."
    );
}

#[test]
fn parse_bad_upper_value_fails() {
    let err = Parser::parse("5 to $").unwrap_err();
    assert_eq!(
        err,
        "Unexpected upper range value '$' (a string or a valid number expected)."
    );
}

#[test]
fn parse_min_as_upper_fails() {
    let err = Parser::parse("5 to min").unwrap_err();
    assert_eq!(err, "Unexpected keyword 'min' (string, number or 'max' expected).");
}

#[test]
fn parse_delimiter_expected() {
    let err = Parser::parse("min to max min").unwrap_err();
    assert_eq!(err, "Unexpected text 'min' (delimiter ',' expected).");
}

#[test]
fn parse_keywords_ignore_case() {
    let tokens = Parser::parse("LOWEST TO Highest").unwrap();
    assert_eq!(tokens.len(), 3);
    assert!(matches!(tokens[0], Token::Minimum));
    assert!(matches!(tokens[1], Token::Range));
    assert!(matches!(tokens[2], Token::Maximum));
}

#[test]
fn parse_quoted_text_keeps_commas_and_spaces() {
    let tokens = Parser::parse("\"a, b\" to \"c\"").unwrap();
    assert_eq!(tokens.len(), 3);
    assert!(matches!(&tokens[0], Token::Text { value } if value == "a, b"));
}

#[test]
fn parse_empty_input_yields_no_tokens() {
    let tokens = Parser::parse("").unwrap();
    assert!(tokens.is_empty());
}

#[test]
fn next_splits_on_spaces_and_commas() {
    let chars: Vec<char> = "ab, cd".chars().collect();
    let mut pos = 0usize;
    assert_eq!(Parser::next(&chars, &mut pos), Some("ab".to_string()));
    assert_eq!(Parser::next(&chars, &mut pos), Some(",".to_string()));
    assert_eq!(Parser::next(&chars, &mut pos), Some("cd".to_string()));
    assert_eq!(Parser::next(&chars, &mut pos), None);
}

#[test]
fn next_marks_quoted_spans() {
    let chars: Vec<char> = "\"a b\" x".chars().collect();
    let mut pos = 0usize;
    assert_eq!(Parser::next(&chars, &mut pos), Some("@a b".to_string()));
    assert_eq!(Parser::next(&chars, &mut pos), Some("x".to_string()));
    assert_eq!(Parser::next(&chars, &mut pos), None);
}

#[test]
fn next_discards_unclosed_quotation() {
    let chars: Vec<char> = "\"ab".chars().collect();
    let mut pos = 0usize;
    assert_eq!(Parser::next(&chars, &mut pos), None);
}
