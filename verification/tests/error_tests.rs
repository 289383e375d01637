use json_parser::error::{ErrorKind, ParseError};


#[test]
fn display_includes_position() {
    let err = ParseError::new(ErrorKind::UnexpectedEof, 3, 12, 42);
    assert_eq!(err.to_string(), "unexpected end of input at line 3, column 12");
}

#[test]
fn display_unexpected_char() {
    let err = ParseError::new(ErrorKind::UnexpectedChar('}'), 1, 1, 0);
    assert_eq!(err.to_string(), "unexpected character '}' at line 1, column 1");
}

#[test]
fn display_invalid_escape() {
    let err = ParseError::new(ErrorKind::InvalidEscape('q'), 2, 5, 10);
    assert_eq!(err.to_string(), "invalid escape sequence \\q at line 2, column 5");
}
