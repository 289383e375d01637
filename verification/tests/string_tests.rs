use json_parser::error::{ErrorKind, ParseError};
use json_parser::lexer::Position;
use json_parser::string::unescape;


fn pos() -> Position {
    Position { line: 1, col: 1, byte_offset: 0 }
}

fn decode(s: &str) -> Result<String, ParseError> {
    unescape(s, pos())
}

#[test]
fn empty() {
    assert_eq!(decode("").unwrap(), "");
}

#[test]
fn plain_ascii() {
    assert_eq!(decode("hello world").unwrap(), "hello world");
}

#[test]
fn passthrough_non_ascii() {
    assert_eq!(decode("안녕 é 🦀").unwrap(), "안녕 é 🦀");
}

#[test]
fn simple_escapes() {
    assert_eq!(decode(r#"\"\\\/\b\f\n\r\t"#).unwrap(), "\"\\/\u{0008}\u{000C}\n\r\t");
}

#[test]
fn unicode_escape_bmp() {
    assert_eq!(decode(r"é").unwrap(), "é");
    assert_eq!(decode(r"가").unwrap(), "가");
}

#[test]
fn unicode_escape_surrogate_pair() {
    // 😀 = U+1F600 = 😀
    assert_eq!(decode(r"😀").unwrap(), "😀");
}

#[test]
fn unicode_escape_mixed_with_text() {
    assert_eq!(decode(r"hi 😀 !").unwrap(), "hi 😀 !");
}

#[test]
fn lone_high_surrogate_rejected() {
    let err = decode(r"\uD83D").unwrap_err();
    assert_eq!(err.kind, ErrorKind::LoneSurrogate);
}

#[test]
fn lone_low_surrogate_rejected() {
    let err = decode(r"\uDE00").unwrap_err();
    assert_eq!(err.kind, ErrorKind::LoneSurrogate);
}

#[test]
fn high_surrogate_followed_by_non_surrogate_rejected() {
    let err = decode(r"\uD83DA").unwrap_err();
    assert_eq!(err.kind, ErrorKind::LoneSurrogate);
}

#[test]
fn high_surrogate_followed_by_text_rejected() {
    let err = decode(r"\uD83Dxx").unwrap_err();
    assert_eq!(err.kind, ErrorKind::LoneSurrogate);
}

#[test]
fn invalid_escape_rejected() {
    let err = decode(r"\q").unwrap_err();
    assert!(matches!(err.kind, ErrorKind::InvalidEscape('q')));
}

#[test]
fn truncated_unicode_escape() {
    let err = decode(r"\u00").unwrap_err();
    assert_eq!(err.kind, ErrorKind::InvalidUnicodeEscape);
}

#[test]
fn non_hex_in_unicode_escape() {
    let err = decode(r"\uZZZZ").unwrap_err();
    assert_eq!(err.kind, ErrorKind::InvalidUnicodeEscape);
}

#[test]
fn control_char_in_raw_rejected() {
    let err = decode("a\nb").unwrap_err();
    assert_eq!(err.kind, ErrorKind::ControlCharInString);
}

#[test]
fn position_propagates_to_error() {
    let p = Position { line: 5, col: 12, byte_offset: 99 };
    let err = unescape(r"\q", p).unwrap_err();
    assert_eq!(err.line, 5);
    assert_eq!(err.col, 12);
    assert_eq!(err.byte_offset, 99);
}
