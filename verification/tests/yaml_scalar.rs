use rmpl::yaml::{boolean, float, null, number, quoted_string, scalar, unquoted_scalar, Value};

#[test]
fn test_quoted_string_double() {
    let result = quoted_string()("\"hello world\"");
    assert_eq!(result, Ok(("", "hello world".to_string())));
}

#[test]
fn test_quoted_string_single() {
    let result = quoted_string()("'hello world'");
    assert_eq!(result, Ok(("", "hello world".to_string())));
}

#[test]
fn test_unquoted_scalar() {
    let result = unquoted_scalar()("hello world");
    assert_eq!(result, Ok((" world", "hello")));
}

#[test]
fn test_boolean_true() {
    let result = boolean()("true");
    assert_eq!(result, Ok(("", true)));
}

#[test]
fn test_boolean_false() {
    let result = boolean()("false");
    assert_eq!(result, Ok(("", false)));
}

#[test]
fn test_number() {
    let result = number()("123abc");
    assert_eq!(result, Ok(("abc", 123)));
}

#[test]
fn test_null() {
    let result = null()("null");
    assert_eq!(result, Ok(("", ())));
}

#[test]
fn test_null_tilde() {
    let result = null()("~");
    assert_eq!(result, Ok(("", ())));
}

#[test]
fn test_scalar_string() {
    let result = scalar()("hello");
    assert_eq!(result, Ok(("", Value::String("hello".to_string()))));
}

#[test]
fn test_scalar_number() {
    let result = scalar()("42");
    assert_eq!(result, Ok(("", Value::Number(42))));
}

#[test]
fn test_scalar_bool() {
    let result = scalar()("true");
    assert_eq!(result, Ok(("", Value::Bool(true))));
}

#[test]
fn test_scalar_null() {
    let result = scalar()("null");
    assert_eq!(result, Ok(("", Value::Null)));
}

#[test]
fn test_float() {
    let result = float()("3.14");
    let parsed = result.map(|(rest, text)| (rest, text.parse::<f64>().unwrap()));
    assert_eq!(parsed, Ok(("", 3.14)));
}

#[test]
fn test_scalar_float() {
    let result = scalar()("3.14");
    let parsed = result.map(|(rest, v)| match v {
        Value::Float(text) => (rest, text.parse::<f64>().unwrap()),
        other => panic!("expected a float, got {:?}", other),
    });
    assert_eq!(parsed, Ok(("", 3.14)));
}

#[test]
fn test_quoted_string_escaped() {
    let result = quoted_string()("\"hello\"world\"");
    assert_eq!(result, Ok(("", "hello\"world".to_string())));
}

#[test]
fn test_unquoted_with_space() {
    let result = unquoted_scalar()("hello world more");
    assert_eq!(result, Ok((" world more", "hello")));
}

#[test]
fn quoted_string_unterminated_errors() {
    let err = quoted_string()("\"open").unwrap_err();
    assert_eq!(err.message, "unterminated double-quoted string");
    assert_eq!((err.line, err.column), (1, 1));
    let err = quoted_string()("'open").unwrap_err();
    assert_eq!(err.message, "unterminated single-quoted string");
    let err = quoted_string()("plain").unwrap_err();
    assert_eq!(err.message, "expected quoted string");
}

#[test]
fn quoted_string_closes_at_first_ending_quote() {
    let result = quoted_string()("\"a\" b\n\"c\"");
    assert_eq!(result, Ok((" b\n\"c\"", "a".to_string())));
    assert_eq!(quoted_string()("\"a\" and \"b\""), Ok((" and \"b\"", "a".to_string())));
    assert_eq!(quoted_string()("\"a\" # \"b\""), Ok((" # \"b\"", "a".to_string())));
    assert_eq!(quoted_string()("\"a\", \"b\""), Ok((", \"b\"", "a".to_string())));
    assert_eq!(quoted_string()("'a':x'"), Ok((":x'", "a".to_string())));
    // The string may run over lines.
    assert_eq!(quoted_string()("\"a\nb\""), Ok(("", "a\nb".to_string())));
    // With no quote that can end it, the first quote closes the string.
    assert_eq!(quoted_string()("\"ab\"c"), Ok(("c", "ab".to_string())));
    assert_eq!(quoted_string()("\"x\"y\"z"), Ok(("y\"z", "x".to_string())));
    assert_eq!(scalar()("\"a\" # \"b\"").map(|(r, _)| r), Ok(" # \"b\""));
}

#[test]
fn number_errors() {
    assert_eq!(number()("abc").unwrap_err().message, "expected number");
    assert_eq!(number()("18446744073709551616").unwrap_err().message, "invalid number");
    assert_eq!(number()("18446744073709551615"), Ok(("", u64::MAX)));
}

#[test]
fn boolean_error() {
    assert_eq!(boolean()("yes").unwrap_err().message, "expected boolean (true/false)");
}

#[test]
fn null_error() {
    assert_eq!(null()("nil").unwrap_err().message, "expected tag '~'");
}

#[test]
fn float_without_fraction_and_errors() {
    assert_eq!(float()("7 rest"), Ok((" rest", "7".to_string())));
    assert_eq!(float()("2.5.1"), Ok((".1", "2.5".to_string())));
    assert_eq!(float()("x").unwrap_err().message, "expected at least one matching character");
}

#[test]
fn scalar_variants_and_error() {
    assert_eq!(scalar()("~ x"), Ok((" x", Value::Null)));
    assert_eq!(scalar()("false"), Ok(("", Value::Bool(false))));
    assert_eq!(scalar()("'q' rest"), Ok((" rest", Value::String("q".to_string()))));
    assert_eq!(scalar()("12ab"), Ok(("ab", Value::Number(12))));
    assert_eq!(scalar()("value # note"), Ok((" # note", Value::String("value".to_string()))));
    let err = scalar()(": x").unwrap_err();
    assert_eq!(err.message, "expected scalar value");
    assert_eq!((err.line, err.column), (1, 1));
}

#[test]
fn values_clone_deeply() {
    let v = Value::Mapping(vec![(
        "k".to_string(),
        Value::List(vec![Value::Float("1.5".to_string()), Value::Null, Value::Bool(true)]),
    )]);
    assert_eq!(v.clone(), v);
}
