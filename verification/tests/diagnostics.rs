use eretria::parse_string;

#[test]
fn negative_data_offset_fails() {
    let err = parse_string("data[-1] = \"x\"").unwrap_err();
    assert_eq!(err.line, 1);
    assert_eq!(err.col, 6);
    assert_eq!(err.render(), "1:6: `data` position may not be negative");
}

#[test]
fn missing_body_fails() {
    assert!(parse_string("fn main()").is_err());
}

#[test]
fn error_reports_offending_token_position() {
    let err = parse_string("fn main() 1 = 2").unwrap_err();
    assert_eq!((err.line, err.col), (1, 13));
    assert_eq!(err.render(), "1:13: expected data, fn or ';', got '='");
}

#[test]
fn error_position_counts_lines() {
    let err = parse_string("fn main() 1\n  fn main2() $").unwrap_err();
    assert_eq!((err.line, err.col), (2, 14));
    assert_eq!(
        err.render(),
        "2:14: expected parentheses or literal in prefixexpr, got invalid token"
    );
}

#[test]
fn eof_error_reports_end_of_input() {
    let err = parse_string("fn main() {1").unwrap_err();
    assert_eq!((err.line, err.col), (1, 13));
    assert_eq!(err.render(), "1:13: expected '}', got <eof>");
}

#[test]
fn unterminated_string_fails() {
    assert!(parse_string(r#"data[0] = "abc"#).is_err());
}

#[test]
fn string_escape_overflow_fails() {
    assert!(parse_string(r#"data[0] = "\d4294967296""#).is_err());
}

#[test]
fn string_escape_surrogate_fails() {
    // code point 55296 is a surrogate, no character has it
    assert!(parse_string(r#"data[0] = "\d55296""#).is_err());
}

#[test]
fn integer_overflow_fails() {
    assert!(parse_string("fn main() 9223372036854775808").is_err());
}

#[test]
fn most_negative_integer_parses() {
    assert!(parse_string("fn main() -9223372036854775808").is_ok());
}

#[test]
fn unknown_radix_letter_fails() {
    assert!(parse_string("fn main() 0m12").is_err());
}

#[test]
fn data_without_string_fails() {
    let err = parse_string("data[0] = 5").unwrap_err();
    assert_eq!(
        err.render(),
        "1:11: expected string literal, got integer literal"
    );
}

#[test]
fn missing_argument_list_close_fails() {
    let err = parse_string("fn main() f(").unwrap_err();
    assert_eq!(
        err.render(),
        "1:13: incomplete argument list, closing parenthesis not found"
    );
}

#[test]
fn argument_list_cut_after_argument_fails() {
    let err = parse_string("fn main() f(1").unwrap_err();
    assert_eq!(err.render(), "1:14: expected ')' or ',', got <eof>");
}
