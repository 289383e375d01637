use json_parser::error::{ErrorKind, ParseError};
use json_parser::lexer::{Lexer, Token};


fn tokens(input: &str) -> Result<Vec<Token>, ParseError> {
    let mut lex = Lexer::new(input);
    let mut out = Vec::new();
    while let Some(s) = lex.next_token()? {
        out.push(s.token);
    }
    Ok(out)
}

#[test]
fn structural_tokens() {
    let t = tokens("{}[]:,").unwrap();
    assert_eq!(t, vec![
        Token::LBrace, Token::RBrace,
        Token::LBracket, Token::RBracket,
        Token::Colon, Token::Comma,
    ]);
}

#[test]
fn keywords() {
    let t = tokens("null true false").unwrap();
    assert_eq!(t, vec![Token::Null, Token::True, Token::False]);
}

#[test]
fn partial_keyword_errors() {
    let err = tokens("nul").unwrap_err();
    assert_eq!(err.kind, ErrorKind::UnexpectedEof);
}

#[test]
fn keyword_typo_errors() {
    let err = tokens("tru1").unwrap_err();
    assert!(matches!(err.kind, ErrorKind::UnexpectedChar('1')));
}

#[test]
fn lexer_simple_string() {
    let t = tokens(r#""hello""#).unwrap();
    assert_eq!(t, vec![Token::String("hello".into())]);
}

#[test]
fn empty_string() {
    let t = tokens(r#""""#).unwrap();
    assert_eq!(t, vec![Token::String("".into())]);
}

#[test]
fn string_keeps_raw_escapes() {
    // Lexer doesn't decode; it just scans past escapes.
    let t = tokens(r#""a\"b\\c""#).unwrap();
    assert_eq!(t, vec![Token::String(r#"a\"b\\c"#.into())]);
}

#[test]
fn string_unterminated() {
    let err = tokens(r#""abc"#).unwrap_err();
    assert_eq!(err.kind, ErrorKind::UnexpectedEof);
}

#[test]
fn string_unescaped_control_rejected() {
    let err = tokens("\"a\tb\"").unwrap_err();
    assert_eq!(err.kind, ErrorKind::ControlCharInString);
}

#[test]
fn string_invalid_unicode_escape() {
    let err = tokens(r#""\uZZZZ""#).unwrap_err();
    assert_eq!(err.kind, ErrorKind::InvalidUnicodeEscape);
}

#[test]
fn string_unicode_escape_ok() {
    let t = tokens(r#""é""#).unwrap();
    assert_eq!(t, vec![Token::String(r#"é"#.into())]);
}

#[test]
fn string_with_non_ascii_passthrough() {
    let t = tokens("\"안녕\"").unwrap();
    assert_eq!(t, vec![Token::String("안녕".into())]);
}

#[test]
fn numbers() {
    let t = tokens("0 -1 3.14 1e10 1.5e-3 -2.5E+2").unwrap();
    assert_eq!(t, vec![
        Token::Number("0".into()),
        Token::Number("-1".into()),
        Token::Number("3.14".into()),
        Token::Number("1e10".into()),
        Token::Number("1.5e-3".into()),
        Token::Number("-2.5E+2".into()),
    ]);
}

#[test]
fn leading_zero_rejected() {
    // "01" lexes "0" as Number, then "1" as another Number — both valid
    // individually. Parser will reject the trailing data at the document
    // level. But "00" likewise. The interesting RFC violation "012" gets
    // tokenized as Number("0"), Number("12"); the parser will fail with
    // trailing data when used as a top-level value.
    let t = tokens("01").unwrap();
    assert_eq!(t, vec![Token::Number("0".into()), Token::Number("1".into())]);
}

#[test]
fn bare_minus_rejected() {
    let err = tokens("-").unwrap_err();
    assert_eq!(err.kind, ErrorKind::InvalidNumber);
}

#[test]
fn trailing_dot_rejected() {
    let err = tokens("1.").unwrap_err();
    assert_eq!(err.kind, ErrorKind::InvalidNumber);
}

#[test]
fn bare_exponent_rejected() {
    let err = tokens("1e").unwrap_err();
    assert_eq!(err.kind, ErrorKind::InvalidNumber);
}

#[test]
fn exponent_sign_without_digits_rejected() {
    let err = tokens("1e+").unwrap_err();
    assert_eq!(err.kind, ErrorKind::InvalidNumber);
}

#[test]
fn dot_first_rejected_as_unexpected_char() {
    let err = tokens(".5").unwrap_err();
    assert_eq!(err.kind, ErrorKind::UnexpectedChar('.'));
}

#[test]
fn whitespace_skipped() {
    let t = tokens(" \t\n\r 1 \n 2 ").unwrap();
    assert_eq!(t, vec![Token::Number("1".into()), Token::Number("2".into())]);
}

#[test]
fn position_tracks_newlines() {
    let mut lex = Lexer::new("1\n  2");
    let first = lex.next_token().unwrap().unwrap();
    assert_eq!(first.start.line, 1);
    assert_eq!(first.start.col, 1);
    let second = lex.next_token().unwrap().unwrap();
    assert_eq!(second.start.line, 2);
    assert_eq!(second.start.col, 3);
}

#[test]
fn position_counts_codepoints_not_bytes() {
    // "안" is 3 bytes in UTF-8; col should advance by 1 char.
    let mut lex = Lexer::new("\"안\" 1");
    let _ = lex.next_token().unwrap().unwrap();
    let num = lex.next_token().unwrap().unwrap();
    assert_eq!(num.start.col, 5); // " 안 " 1 -> col 5 (after 3-char string + space)
}

#[test]
fn empty_input_returns_none() {
    let mut lex = Lexer::new("");
    assert!(lex.next_token().unwrap().is_none());
}

#[test]
fn whitespace_only_returns_none() {
    let mut lex = Lexer::new("   \n\t  ");
    assert!(lex.next_token().unwrap().is_none());
}

#[test]
fn unexpected_char_reports_unicode() {
    // The first non-ASCII character should be reported as a char, not garbage.
    let err = tokens("é").unwrap_err();
    assert_eq!(err.kind, ErrorKind::UnexpectedChar('é'));
}
