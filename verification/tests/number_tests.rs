use json_parser::number::Number;

/// Reads the lexeme as a floating-point number, as std parses it.
fn as_f64(n: &Number) -> Option<f64> {
    n.as_str().parse().ok()
}


#[test]
fn integer_lexeme_parses_as_i64_and_u64() {
    let n = Number::from_raw("42");
    assert_eq!(n.as_i64(), Some(42));
    assert_eq!(n.as_u64(), Some(42));
    assert_eq!(as_f64(&n), Some(42.0));
}

#[test]
fn negative_integer_is_not_u64() {
    let n = Number::from_raw("-7");
    assert_eq!(n.as_i64(), Some(-7));
    assert_eq!(n.as_u64(), None);
    assert_eq!(as_f64(&n), Some(-7.0));
}

#[test]
fn float_lexeme_is_not_integer() {
    let n = Number::from_raw("3.14");
    assert_eq!(n.as_i64(), None);
    assert_eq!(n.as_u64(), None);
    assert_eq!(as_f64(&n), Some(3.14));
}

#[test]
fn exponent_is_not_integer() {
    let n = Number::from_raw("1e3");
    assert_eq!(n.as_i64(), None);
    assert_eq!(as_f64(&n), Some(1000.0));
}

#[test]
fn i64_overflow_returns_none() {
    let n = Number::from_raw("99999999999999999999");
    assert_eq!(n.as_i64(), None);
    assert_eq!(n.as_u64(), None);
    assert!(as_f64(&n).is_some());
}

#[test]
fn as_str_returns_original_lexeme() {
    let n = Number::from_raw("1.0000");
    assert_eq!(n.as_str(), "1.0000");
}

#[test]
fn display_uses_original_lexeme() {
    let n = Number::from_raw("0.1");
    assert_eq!(n.to_string(), "0.1");
}
