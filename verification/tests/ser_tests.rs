use json_parser::number::Number;
use json_parser::parser::parse;
use json_parser::ser::{to_string, to_string_pretty};
use json_parser::value::JsonValue;


fn n(s: &str) -> JsonValue {
    JsonValue::Number(Number::from_raw(s))
}

#[test]
fn null_bool_number() {
    assert_eq!(to_string(&JsonValue::Null), "null");
    assert_eq!(to_string(&JsonValue::Bool(true)), "true");
    assert_eq!(to_string(&JsonValue::Bool(false)), "false");
    assert_eq!(to_string(&n("3.14")), "3.14");
}

#[test]
fn ser_simple_string() {
    assert_eq!(to_string(&JsonValue::String("hi".into())), r#""hi""#);
}

#[test]
fn string_escapes() {
    let s = JsonValue::String("a\"b\\c\nd\te".into());
    assert_eq!(to_string(&s), r#""a\"b\\c\nd\te""#);
}

#[test]
fn string_passes_through_non_ascii() {
    let s = JsonValue::String("안녕 🦀".into());
    assert_eq!(to_string(&s), "\"안녕 🦀\"");
}

#[test]
fn string_escapes_other_control_chars() {
    let s = JsonValue::String("\u{0001}\u{001F}".into());
    assert_eq!(to_string(&s), "\"\\u0001\\u001f\"");
}

#[test]
fn empty_array_and_object() {
    assert_eq!(to_string(&JsonValue::Array(vec![])), "[]");
    assert_eq!(to_string(&JsonValue::Object(vec![])), "{}");
}

#[test]
fn array_compact() {
    let v = JsonValue::Array(vec![n("1"), n("2"), JsonValue::Null]);
    assert_eq!(to_string(&v), "[1,2,null]");
}

#[test]
fn object_compact() {
    let v = JsonValue::Object(vec![
        ("a".into(), n("1")),
        ("b".into(), JsonValue::Bool(true)),
    ]);
    assert_eq!(to_string(&v), r#"{"a":1,"b":true}"#);
}

#[test]
fn nested_compact_preserves_key_order() {
    let v = JsonValue::Object(vec![
        ("z".into(), JsonValue::Array(vec![n("1")])),
        ("a".into(), JsonValue::Object(vec![("x".into(), JsonValue::Null)])),
    ]);
    assert_eq!(to_string(&v), r#"{"z":[1],"a":{"x":null}}"#);
}

#[test]
fn pretty_indents_array() {
    let v = JsonValue::Array(vec![n("1"), n("2")]);
    let expected = "[\n  1,\n  2\n]";
    assert_eq!(to_string_pretty(&v, 2), expected);
}

#[test]
fn pretty_indents_object() {
    let v = JsonValue::Object(vec![("a".into(), n("1")), ("b".into(), n("2"))]);
    let expected = "{\n  \"a\": 1,\n  \"b\": 2\n}";
    assert_eq!(to_string_pretty(&v, 2), expected);
}

#[test]
fn pretty_empty_collections_stay_inline() {
    assert_eq!(to_string_pretty(&JsonValue::Array(vec![]), 2), "[]");
    assert_eq!(to_string_pretty(&JsonValue::Object(vec![]), 2), "{}");
}

#[test]
fn pretty_nested() {
    let v = JsonValue::Object(vec![
        ("a".into(), JsonValue::Array(vec![n("1"), n("2")])),
    ]);
    let expected = "{\n  \"a\": [\n    1,\n    2\n  ]\n}";
    assert_eq!(to_string_pretty(&v, 2), expected);
}

#[test]
fn roundtrip_complex() {
    let input = r#"{"name":"r","nums":[1,2.5,-3e2],"meta":{"ok":true,"empty":[]}}"#;
    let parsed = parse(input).unwrap();
    assert_eq!(to_string(&parsed), input);
}

#[test]
fn roundtrip_pretty_then_parse_matches() {
    let input = r#"{"a":1,"b":[true,null,"x"]}"#;
    let parsed = parse(input).unwrap();
    let pretty = to_string_pretty(&parsed, 4);
    let reparsed = parse(&pretty).unwrap();
    assert_eq!(parsed, reparsed);
}

#[test]
fn roundtrip_preserves_number_lexeme() {
    let input = r#"[1.000,1e100,99999999999999999999]"#;
    let parsed = parse(input).unwrap();
    assert_eq!(to_string(&parsed), input);
}

#[test]
fn roundtrip_preserves_unicode_strings() {
    let input = r#"["안녕","🦀","a\nb"]"#;
    let parsed = parse(input).unwrap();
    let again = to_string(&parsed);
    assert_eq!(parse(&again).unwrap(), parsed);
}
