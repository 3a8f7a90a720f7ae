use rmpl::derive::{derive_deserialize, derive_serialize, parse_fields, parse_struct_def, serialize_impl, Token};
use rmpl::quote_lite::{Delimiter, Token as QToken};

fn ident(s: &str) -> Token {
    Token::Ident(s.to_string())
}

fn punct(c: char) -> Token {
    Token::Punct(c)
}

#[test]
fn struct_with_fields() {
    // pub struct Person { name: String, age: Vec<u32>, }
    let body = vec![
        ident("name"),
        punct(':'),
        ident("String"),
        punct(','),
        ident("age"),
        punct(':'),
        ident("Vec"),
        punct('<'),
        ident("u32"),
        punct('>'),
        punct(','),
    ];
    let tokens = vec![ident("pub"), ident("struct"), ident("Person"), Token::Group(body)];
    assert_eq!(
        parse_struct_def(&tokens),
        Ok(("Person".to_string(), vec!["name".to_string(), "age".to_string()]))
    );
}

#[test]
fn unit_struct_has_no_fields() {
    let tokens = vec![ident("struct"), ident("Unit"), punct(';')];
    assert_eq!(parse_struct_def(&tokens), Ok(("Unit".to_string(), vec![])));
}

#[test]
fn no_struct_is_an_error() {
    let tokens = vec![ident("enum"), ident("E"), Token::Group(vec![])];
    assert_eq!(parse_struct_def(&tokens), Err("Expected struct definition".to_string()));
    assert_eq!(parse_struct_def(&[ident("struct")]), Err("Expected struct definition".to_string()));
}

#[test]
fn struct_keyword_without_name_is_skipped() {
    let tokens = vec![
        ident("struct"),
        punct('#'),
        ident("struct"),
        ident("S"),
        Token::Group(vec![ident("x"), punct(':'), Token::Literal("1".to_string())]),
    ];
    assert_eq!(parse_struct_def(&tokens), Ok(("S".to_string(), vec!["x".to_string()])));
}

#[test]
fn field_types_are_skipped_to_the_separator() {
    let body = vec![
        ident("a"),
        punct(':'),
        ident("b"),
        punct(':'),
        ident("c"),
        punct(','),
        ident("d"),
        punct(':'),
        ident("e"),
    ];
    assert_eq!(parse_fields(&body), Ok(vec!["a".to_string(), "d".to_string()]));
    assert_eq!(parse_fields(&[]), Ok(vec![]));
}

#[test]
fn commas_inside_angle_brackets_stay_in_the_type() {
    // a: HashMap<K, std::string::String>, b: u8
    let body = vec![
        ident("a"),
        punct(':'),
        ident("HashMap"),
        punct('<'),
        ident("K"),
        punct(','),
        ident("std"),
        punct(':'),
        punct(':'),
        ident("string"),
        punct(':'),
        punct(':'),
        ident("String"),
        punct('>'),
        punct(','),
        ident("b"),
        punct(':'),
        ident("u8"),
    ];
    assert_eq!(parse_fields(&body), Ok(vec!["a".to_string(), "b".to_string()]));
}

#[test]
fn nested_angle_brackets_close_in_turn() {
    // m: Vec<Option<u8>>, f: fn() -> u8, z: u8
    let body = vec![
        ident("m"),
        punct(':'),
        ident("Vec"),
        punct('<'),
        ident("Option"),
        punct('<'),
        ident("u8"),
        punct('>'),
        punct('>'),
        punct(','),
        ident("f"),
        punct(':'),
        ident("fn"),
        Token::Group(vec![]),
        punct('-'),
        punct('>'),
        ident("u8"),
        punct(','),
        ident("z"),
        punct(':'),
        ident("u8"),
    ];
    assert_eq!(
        parse_fields(&body),
        Ok(vec!["m".to_string(), "f".to_string(), "z".to_string()])
    );
}

fn person() -> Vec<Token> {
    let body = vec![
        ident("name"),
        punct(':'),
        ident("String"),
        punct(','),
        ident("age"),
        punct(':'),
        ident("u32"),
    ];
    vec![ident("struct"), ident("Person"), Token::Group(body)]
}

#[test]
fn serialize_impl_text() {
    assert_eq!(
        derive_serialize(&person()),
        "impl serduh_core : : Serialize for Person {fn serialize < S : serduh_core : : Serializer > (& self , serializer : S) - > Result < S : : Ok , S : : Error > {let mut state = serializer . serialize_struct  ? ; state . serialize_field  ? ; state . serialize_field  ? ; state . end }}"
    );
}

#[test]
fn serialize_impl_of_unit_struct() {
    let tokens = vec![ident("struct"), ident("Unit")];
    assert_eq!(
        derive_serialize(&tokens),
        "impl serduh_core : : Serialize for Unit {fn serialize < S : serduh_core : : Serializer > (& self , serializer : S) - > Result < S : : Ok , S : : Error > {serializer . serialize_unit_struct }}"
    );
}

#[test]
fn deserialize_impl_text() {
    assert_eq!(
        derive_deserialize(&person()),
        "impl serduh_core : : DeserializeOwned for Person {fn deserialize < D : serduh_core : : Deserializer > (deserializer : D) - > Result < Self , D : : Error > {unimplemented ! }}"
    );
}

#[test]
fn derive_without_struct_is_a_compile_error() {
    let tokens = vec![ident("enum"), ident("E")];
    assert_eq!(derive_serialize(&tokens), "compile_error ! (\"Expected struct definition\")");
    assert_eq!(derive_deserialize(&tokens), "compile_error ! (\"Expected struct definition\")");
}

#[test]
fn serialize_impl_serializes_each_field_by_name() {
    let ts = serialize_impl("Person", &vec!["name".to_string(), "age".to_string()]);
    assert_eq!(ts.tokens.len(), 8);
    let inner = match &ts.tokens[7] {
        QToken::Group(Delimiter::Brace, inner) => inner,
        _ => panic!("expected the impl body"),
    };
    let body = match inner.last() {
        Some(QToken::Group(Delimiter::Brace, body)) => body,
        _ => panic!("expected the function body"),
    };
    // let mut state = serializer.serialize_struct("Person", 0)?; then two calls of six
    // tokens each, then state.end()
    assert_eq!(body.len(), 10 + 12 + 4);
    match &body[7] {
        QToken::Group(Delimiter::Parenthesis, args) => {
            assert!(matches!(&args[0], QToken::Literal(s) if s == "Person"));
            assert!(matches!(&args[2], QToken::Ident(s) if s == "0"));
        }
        _ => panic!("expected the arguments of serialize_struct"),
    }
    for (k, field) in ["name", "age"].iter().enumerate() {
        match &body[10 + 6 * k + 3] {
            QToken::Group(Delimiter::Parenthesis, args) => {
                assert_eq!(args.len(), 6);
                assert!(matches!(&args[0], QToken::Literal(s) if s == field));
                assert!(matches!(&args[3], QToken::Ident(s) if s == "self"));
                assert!(matches!(&args[5], QToken::Ident(s) if s == field));
            }
            _ => panic!("expected the arguments of serialize_field"),
        }
    }
}
