use json_parser::number::Number;
use json_parser::value::JsonValue;


#[test]
fn null_accessor() {
    assert!(JsonValue::Null.is_null());
    assert!(!JsonValue::Bool(true).is_null());
}

#[test]
fn bool_accessor() {
    assert_eq!(JsonValue::Bool(true).as_bool(), Some(true));
    assert_eq!(JsonValue::Null.as_bool(), None);
}

#[test]
fn string_accessor() {
    let v: JsonValue = "hello".into();
    assert_eq!(v.as_str(), Some("hello"));
}

#[test]
fn object_get_first_match() {
    let obj = JsonValue::Object(vec![
        ("a".into(), JsonValue::Bool(true)),
        ("b".into(), JsonValue::Bool(false)),
    ]);
    assert_eq!(obj.get("a"), Some(&JsonValue::Bool(true)));
    assert_eq!(obj.get("missing"), None);
}

#[test]
fn object_preserves_insertion_order() {
    let obj = JsonValue::Object(vec![
        ("z".into(), JsonValue::Null),
        ("a".into(), JsonValue::Null),
    ]);
    let keys: Vec<&str> = obj.as_object().unwrap().iter().map(|(k, _)| k.as_str()).collect();
    assert_eq!(keys, vec!["z", "a"]);
}

#[test]
fn array_accessor() {
    let arr = JsonValue::Array(vec![JsonValue::Bool(true), JsonValue::Null]);
    let inner = arr.as_array().unwrap();
    assert_eq!(inner.len(), 2);
    assert_eq!(inner[0], JsonValue::Bool(true));
}

#[test]
fn number_accessor() {
    let n = JsonValue::Number(Number::from_raw("123"));
    assert_eq!(n.as_number().unwrap().as_i64(), Some(123));
}
