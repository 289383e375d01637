use json_parser::lexer::{Lexer, Token};
use json_parser::ser::{write_compact, write_pretty};
use json_parser::{parse, to_string, to_string_pretty, ErrorKind, JsonValue, Number, ParseError};

fn num(s: &str) -> JsonValue {
    JsonValue::Number(Number::from_raw(s))
}

fn sample() -> JsonValue {
    JsonValue::Object(vec![
        ("name".to_string(), JsonValue::String("caf\u{e9} \"q\" \\ \u{1}\t\u{1F980}".to_string())),
        ("nums".to_string(), JsonValue::Array(vec![num("0"), num("-1.5e+3"), num("12345678901234567890")])),
        ("empty".to_string(), JsonValue::Array(vec![])),
        ("obj".to_string(), JsonValue::Object(vec![])),
        (
            "nested".to_string(),
            JsonValue::Array(vec![
                JsonValue::Null,
                JsonValue::Bool(true),
                JsonValue::Object(vec![("k".to_string(), JsonValue::Bool(false))]),
            ]),
        ),
        ("dup".to_string(), num("1")),
        ("dup".to_string(), num("2")),
    ])
}

fn err_of(input: &str) -> ParseError {
    parse(input).unwrap_err()
}

// --- laws on concrete values -------------------------------------------------

#[test]
fn law_compact_text_parses_back() {
    let v = sample();
    assert_eq!(parse(&to_string(&v)).unwrap(), v);
}

#[test]
fn law_indented_text_parses_back_for_each_width() {
    let v = sample();
    for indent in [0usize, 1, 2, 3, 8] {
        assert_eq!(parse(&to_string_pretty(&v, indent)).unwrap(), v);
    }
}

#[test]
fn law_reparse_gives_same_value() {
    let inputs = [
        " [1, 2.50 , {\"a\" : [ ]}, \"\\u00e9\\n\"] ",
        "{\"x\":{\"y\":{\"z\":[null,true,false,-0,1E5]}}}",
        "\"\\ud83e\\udd80\"",
        "\n\t-12.0e-3\r\n",
    ];
    for input in inputs {
        let v = parse(input).unwrap();
        assert_eq!(parse(&to_string(&v)).unwrap(), v);
        assert_eq!(parse(&to_string_pretty(&v, 2)).unwrap(), v);
    }
}

#[test]
fn law_escaped_strings_decode_to_themselves() {
    let texts = ["", "plain", "\"", "\\", "\u{0}\u{1f}\u{7f}", "\u{8}\u{c}\n\r\t", "\u{2028}\u{1F600}"];
    for t in texts {
        let v = JsonValue::String(t.to_string());
        let back = parse(&to_string(&v)).unwrap();
        assert_eq!(back.as_str(), Some(t));
    }
}

#[test]
fn law_errors_have_one_based_positions() {
    let inputs = ["", "   ", "[", "{\"a\" 1}", "[1,]", "\n\n  @", "\"\\q\"", "01", "[1] 2", "{1:2}"];
    for input in inputs {
        let e = err_of(input);
        assert!(e.line >= 1);
        assert!(e.col >= 1);
        assert!(e.byte_offset <= input.len());
    }
}

#[test]
fn law_accepted_depth_is_bounded() {
    let ok = "[".repeat(128) + &"]".repeat(128);
    let v = parse(&ok).unwrap();
    assert_eq!(parse(&to_string(&v)).unwrap(), v);
    let too_deep = "[".repeat(128) + "1" + &"]".repeat(128);
    assert_eq!(err_of(&too_deep).kind, ErrorKind::DepthExceeded);
    let obj_deep = "{\"a\":".repeat(129) + "1" + &"}".repeat(129);
    assert_eq!(err_of(&obj_deep).kind, ErrorKind::DepthExceeded);
}

#[test]
fn law_number_tokens_are_lexemes() {
    let mut lex = Lexer::new(" -0 12.50e+3,7E-1]");
    let mut seen = Vec::new();
    while let Some(sp) = lex.next_token().unwrap() {
        if let Token::Number(text) = sp.token {
            assert!(parse(&text).unwrap().as_number().is_some());
            seen.push(text);
        }
    }
    assert_eq!(seen, vec!["-0".to_string(), "12.50e+3".to_string(), "7E-1".to_string()]);
}

// --- one input per error kind ---------------------------------------------------

#[test]
fn each_error_kind_has_an_input() {
    assert_eq!(err_of("@").kind, ErrorKind::UnexpectedChar('@'));
    assert_eq!(err_of("[1").kind, ErrorKind::UnexpectedEof);
    assert_eq!(err_of("\"\\x\"").kind, ErrorKind::InvalidEscape('x'));
    assert_eq!(err_of("\"\\u12g4\"").kind, ErrorKind::InvalidUnicodeEscape);
    assert_eq!(err_of("\"\\udc00\"").kind, ErrorKind::LoneSurrogate);
    assert_eq!(err_of("1.").kind, ErrorKind::InvalidNumber);
    assert_eq!(err_of("\"a\u{1}\"").kind, ErrorKind::ControlCharInString);
    assert_eq!(err_of(&"[".repeat(129)).kind, ErrorKind::DepthExceeded);
    assert_eq!(err_of("{} {}").kind, ErrorKind::TrailingData);
    assert_eq!(err_of("]").kind, ErrorKind::ExpectedValue);
    assert_eq!(err_of("{\"a\",1}").kind, ErrorKind::ExpectedColon);
    assert_eq!(err_of("[1 2]").kind, ErrorKind::ExpectedCommaOrEnd);
    assert_eq!(err_of("{\"a\":1,}").kind, ErrorKind::ExpectedString);
}

#[test]
fn error_positions_count_characters_and_bytes() {
    let e = err_of("[\"\u{e9}\", x]");
    assert_eq!(e.kind, ErrorKind::UnexpectedChar('x'));
    assert_eq!((e.line, e.col, e.byte_offset), (1, 7, 7));
    let e = err_of("{\n  \"\u{1F980}\": @ }");
    assert_eq!(e.kind, ErrorKind::UnexpectedChar('@'));
    assert_eq!((e.line, e.col, e.byte_offset), (2, 8, 12));
}

#[test]
fn error_message_spells_out_kind_and_position() {
    let input = "\n".repeat(10) + "  x";
    let e = err_of(&input);
    assert_eq!(e.to_string(), "unexpected character 'x' at line 11, column 3");
    assert_eq!(err_of("{\"a\":}").to_string(), "expected a JSON value at line 1, column 6");
    assert_eq!(err_of("\"\\z\"").to_string(), "invalid escape sequence \\z at line 1, column 1");
    let e = ParseError::new(ErrorKind::DepthExceeded, 105, 2048, 7);
    assert_eq!(e.to_string(), "maximum nesting depth exceeded at line 105, column 2048");
    assert_eq!(ErrorKind::TrailingData.to_string(), "unexpected trailing data after value");
}

#[test]
fn unexpected_non_ascii_char_is_shown_by_debug_format() {
    let e = err_of("\u{e9}");
    assert_eq!(e.kind, ErrorKind::UnexpectedChar('\u{e9}'));
    assert_eq!(e.kind.to_string(), format!("unexpected character {:?}", '\u{e9}'));
}

#[test]
fn kind_descriptions_take_the_shown_character() {
    assert_eq!(ErrorKind::UnexpectedChar('\u{7}').describe("'\\u{7}'"), "unexpected character '\\u{7}'");
    assert_eq!(ErrorKind::UnexpectedChar('a').describe(""), "unexpected character ");
    assert_eq!(ErrorKind::ExpectedColon.describe("x"), "expected ':' after object key");
    assert_eq!(ErrorKind::InvalidEscape('q').describe("x"), "invalid escape sequence \\q");
    assert_eq!(ErrorKind::UnexpectedChar('\u{7}').to_string(), format!("unexpected character {:?}", '\u{7}'));
}

// --- numbers ----------------------------------------------------------------------

#[test]
fn integer_conversions_at_the_edges() {
    let n = |s: &str| Number::from_raw(s);
    assert_eq!(n("-9223372036854775808").as_i64(), Some(i64::MIN));
    assert_eq!(n("9223372036854775807").as_i64(), Some(i64::MAX));
    assert_eq!(n("9223372036854775808").as_i64(), None);
    assert_eq!(n("-9223372036854775809").as_i64(), None);
    assert_eq!(n("18446744073709551615").as_u64(), Some(u64::MAX));
    assert_eq!(n("18446744073709551616").as_u64(), None);
    assert_eq!(n("-0").as_i64(), Some(0));
    assert_eq!(n("-0").as_u64(), None);
    assert_eq!(n("007").as_u64(), Some(7));
    assert_eq!(n("+5").as_i64(), Some(5));
    assert_eq!(n("+5").as_u64(), Some(5));
    assert_eq!(n("").as_i64(), None);
    assert_eq!(n("-").as_i64(), None);
    assert_eq!(n("1e0").as_i64(), None);
    assert_eq!(n("12a").as_u64(), None);
    assert_eq!(n("31").to_string(), "31");
}

// --- values and serialization ---------------------------------------------------

#[test]
fn pretty_with_zero_width_puts_items_on_lines() {
    let v = JsonValue::Array(vec![num("1"), JsonValue::Object(vec![("a".to_string(), JsonValue::Null)])]);
    assert_eq!(to_string_pretty(&v, 0), "[\n1,\n{\n\"a\": null\n}\n]");
    assert_eq!(to_string_pretty(&num("7"), 4), "7");
}

#[test]
fn control_characters_are_escaped_in_output() {
    let v = JsonValue::String("\u{0}\u{1f}\u{7f}\u{8}\u{c}/".to_string());
    assert_eq!(to_string(&v), "\"\\u0000\\u001f\u{7f}\\b\\f/\"");
}

#[test]
fn unicode_escapes_decode_to_chars() {
    let v = parse("\"\\u00e9\\u00E9\\u0041\"").unwrap();
    assert_eq!(v.as_str(), Some("\u{e9}\u{e9}A"));
}

#[test]
fn accessors_refuse_other_variants() {
    let v = sample();
    assert!(v.as_array().is_none());
    assert!(v.as_bool().is_none());
    assert!(v.as_str().is_none());
    assert!(v.as_number().is_none());
    assert!(!v.is_null());
    assert_eq!(v.get("dup").unwrap().as_number().unwrap().as_str(), "1");
    assert!(v.get("missing").is_none());
    assert!(JsonValue::Null.get("a").is_none());
    assert_eq!(v.as_object().unwrap().len(), 7);
}

#[test]
fn conversions_into_values() {
    assert_eq!(JsonValue::from(true), JsonValue::Bool(true));
    assert_eq!(JsonValue::from("s"), JsonValue::String("s".to_string()));
    assert_eq!(JsonValue::from("t".to_string()), JsonValue::String("t".to_string()));
    assert_eq!(JsonValue::from(Number::from_raw("2")), num("2"));
    assert_eq!(sample().clone(), sample());
}

/// Deletes line feeds, and spaces outside string literals.
fn strip_layout(text: &str) -> String {
    let mut out = String::new();
    let mut in_str = false;
    let mut escaped = false;
    for c in text.chars() {
        if in_str {
            out.push(c);
            if escaped {
                escaped = false;
            } else if c == '\\' {
                escaped = true;
            } else if c == '"' {
                in_str = false;
            }
        } else if c != ' ' && c != '\n' {
            out.push(c);
            if c == '"' {
                in_str = true;
            }
        }
    }
    out
}

#[test]
fn law_layout_removed_gives_compact_text() {
    let v = sample();
    for indent in [0usize, 1, 4] {
        for level in [0usize, 3] {
            let mut out = String::new();
            write_pretty(&mut out, &v, indent, level);
            assert_eq!(strip_layout(&out), to_string(&v));
        }
    }
    let quoted = JsonValue::String(" a \n \" b ".to_string());
    assert_eq!(strip_layout(&to_string_pretty(&quoted, 2)), to_string(&quoted));
}

#[test]
fn law_writers_only_append() {
    let v = sample();
    let mut out = String::from("prefix ");
    write_compact(&mut out, &v);
    assert_eq!(out, format!("prefix {}", to_string(&v)));
    let mut out = String::from("x");
    write_pretty(&mut out, &JsonValue::Array(vec![num("1")]), 2, 1);
    assert_eq!(out, "x[\n    1\n  ]");
}

#[test]
fn law_parsed_numbers_are_their_text() {
    let input = "[1.000, 1e100, -0, 99999999999999999999, 2E-3]";
    let v = parse(input).unwrap();
    let texts: Vec<&str> = v.as_array().unwrap().iter().map(|x| x.as_number().unwrap().as_str()).collect();
    assert_eq!(texts, vec!["1.000", "1e100", "-0", "99999999999999999999", "2E-3"]);
    for t in texts {
        assert!(input.contains(t));
    }
}

#[test]
fn plain_unexpected_chars_are_quoted_in_messages() {
    assert_eq!(err_of("  @").to_string(), "unexpected character '@' at line 1, column 3");
    assert_eq!(ErrorKind::UnexpectedChar('"').to_string(), "unexpected character '\"'");
}
