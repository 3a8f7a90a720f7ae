use rmpl::yaml::{block, comment, document, indent, key_value, list, list_item, parse, ws, Value};

fn s(text: &str) -> Value {
    Value::String(text.to_string())
}

#[test]
fn test_indent_spaces() {
    let result = indent()("  hello");
    assert_eq!(result, Ok(("hello", 2)));
}

#[test]
fn test_indent_tabs() {
    let result = indent()("\t\thello");
    assert_eq!(result, Ok(("hello", 2)));
}

#[test]
fn test_indent_none() {
    let result = indent()("hello");
    assert_eq!(result, Ok(("hello", 0)));
}

#[test]
fn test_key_value_simple() {
    let result = key_value()("name: value");
    assert_eq!(result, Ok(("", ("name".to_string(), Value::String("value".to_string())))));
}

#[test]
fn test_key_value_number() {
    let result = key_value()("count: 42");
    assert_eq!(result, Ok(("", ("count".to_string(), Value::Number(42)))));
}

#[test]
fn test_key_value_bool() {
    let result = key_value()("enabled: true");
    assert_eq!(result, Ok(("", ("enabled".to_string(), Value::Bool(true)))));
}

#[test]
fn test_list_item() {
    let result = list_item()("- item");
    assert_eq!(result, Ok(("", Value::String("item".to_string()))));
}

#[test]
fn test_list() {
    let result = list()("- a\n- b\n- c");
    assert_eq!(
        result,
        Ok((
            "",
            vec![
                Value::String("a".to_string()),
                Value::String("b".to_string()),
                Value::String("c".to_string()),
            ]
        ))
    );
}

#[test]
fn test_block() {
    let result = block()("name: test\nversion: 1");
    assert!(result.is_ok());
    let (rest, pairs) = result.unwrap();
    assert_eq!(rest.trim(), "");
    assert_eq!(pairs.len(), 2);
}

#[test]
fn test_parse_simple() {
    let result = parse("name: test");
    assert!(result.is_ok());
}

#[test]
fn structure_test_comment() {
    let result = comment()("# this is a comment\nrest");
    assert_eq!(result, Ok(("\nrest", ())));
}

#[test]
fn test_document_list() {
    let result = document()("- item1\n- item2");
    assert!(result.is_ok());
    let (_, value) = result.unwrap();
    match value {
        Value::List(items) => assert_eq!(items.len(), 2),
        _ => panic!("Expected list"),
    }
}

#[test]
fn test_document_map() {
    let result = document()("key: value");
    assert!(result.is_ok());
    let (_, value) = result.unwrap();
    match value {
        Value::Mapping(pairs) => assert_eq!(pairs.len(), 1),
        _ => panic!("Expected map"),
    }
}

#[test]
fn test_parse_complex() {
    let yaml = "name: Alice\nage: 30\nactive: true";
    let result = parse(yaml);
    assert!(result.is_ok());
}

#[test]
fn test_parse_with_comments() {
    let yaml = "# comment\nname: test";
    let result = parse(yaml);
    assert!(result.is_ok());
}

#[test]
fn suite_simple_key_value() {
    assert_eq!(parse("name: value"), Ok(Value::Mapping(vec![("name".to_string(), s("value"))])));
}

#[test]
fn suite_multiple_key_values() {
    assert_eq!(
        parse("a: 1\nb: 2"),
        Ok(Value::Mapping(vec![
            ("a".to_string(), Value::Number(1)),
            ("b".to_string(), Value::Number(2)),
        ]))
    );
}

#[test]
fn suite_simple_list() {
    assert_eq!(parse("- a\n- b"), Ok(Value::List(vec![s("a"), s("b")])));
}

#[test]
fn suite_nested_block() {
    assert_eq!(
        parse("person:\n  name: Alice"),
        Ok(Value::Mapping(vec![(
            "person".to_string(),
            Value::Mapping(vec![("name".to_string(), s("Alice"))]),
        )]))
    );
}

#[test]
fn suite_list_in_block() {
    assert_eq!(
        parse("items:\n  - a\n  - b"),
        Ok(Value::Mapping(vec![("items".to_string(), Value::List(vec![s("a"), s("b")]))]))
    );
}

#[test]
fn suite_line_comment() {
    assert_eq!(parse("# comment\nkey: value"), Ok(Value::Mapping(vec![("key".to_string(), s("value"))])));
}

#[test]
fn suite_trailing_comment() {
    assert_eq!(
        parse("key: value # comment"),
        Ok(Value::Mapping(vec![("key".to_string(), s("value"))]))
    );
}

#[test]
fn nested_block_then_sibling_key() {
    let yaml = "person:\n  name: Alice\n  age: 30\nactive: true\n";
    assert_eq!(
        parse(yaml),
        Ok(Value::Mapping(vec![
            (
                "person".to_string(),
                Value::Mapping(vec![
                    ("name".to_string(), s("Alice")),
                    ("age".to_string(), Value::Number(30)),
                ]),
            ),
            ("active".to_string(), Value::Bool(true)),
        ]))
    );
}

#[test]
fn blank_and_comment_lines_between_keys() {
    let yaml = "a: 1\n\n  # note\nb: ~\n";
    assert_eq!(
        parse(yaml),
        Ok(Value::Mapping(vec![("a".to_string(), Value::Number(1)), ("b".to_string(), Value::Null)]))
    );
}

#[test]
fn empty_value_is_an_empty_mapping() {
    assert_eq!(
        key_value()("key:\nnext: 1"),
        Ok(("\nnext: 1", ("key".to_string(), Value::Mapping(vec![]))))
    );
}

#[test]
fn key_value_errors() {
    let err = key_value()("no colon here").unwrap_err();
    assert_eq!(err.message, "expected ':' in key-value pair");
    assert_eq!((err.line, err.column), (1, 1));
    let err = key_value()("key: :").unwrap_err();
    assert_eq!(err.message, "expected scalar value");
}

#[test]
fn list_item_errors() {
    let err = list_item()("item").unwrap_err();
    assert_eq!(err.message, "expected list item starting with '-'");
    assert_eq!(list()("- ok\n- :").unwrap_err().message, "expected scalar value");
    assert_eq!(list()("- ok\n- \"open"), Ok(("", vec![s("ok"), s("\"open")])));
}

#[test]
fn list_stops_at_other_indentation() {
    assert_eq!(list()("- a\n  - b"), Ok(("\n  - b", vec![s("a")])));
    assert_eq!(list()("x: 1"), Ok(("x: 1", vec![])));
}

#[test]
fn block_stops_at_list_or_keyless_line() {
    assert_eq!(block()("a: 1\n- b"), Ok(("\n- b", vec![("a".to_string(), Value::Number(1))])));
    assert_eq!(block()("a: 1\n: b"), Ok(("\n: b", vec![("a".to_string(), Value::Number(1))])));
}

#[test]
fn ws_splits_leading_blanks() {
    assert_eq!(ws()(" \t x"), Ok(("x", " \t ")));
    assert_eq!(ws()("x"), Ok(("x", "")));
}

#[test]
fn comment_without_hash_takes_nothing() {
    assert_eq!(comment()("key"), Ok(("key", ())));
    assert_eq!(comment()("# only"), Ok(("", ())));
}

#[test]
fn document_list_error_propagates() {
    let err = parse("- a\n- :").unwrap_err();
    assert_eq!(err.message, "expected scalar value");
    assert_eq!((err.line, err.column), (1, 1));
}

#[test]
fn empty_document_is_an_empty_mapping() {
    assert_eq!(parse(""), Ok(Value::Mapping(vec![])));
    assert_eq!(parse("\n# nothing\n"), Ok(Value::Mapping(vec![])));
}
