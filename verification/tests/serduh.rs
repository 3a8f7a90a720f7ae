use rmpl::serduh::{hex_decode, hex_encode, Error, YamlDeserializer, YamlSerializer};
use rmpl::yaml::{parse, Value};

fn s(text: &str) -> Value {
    Value::String(text.to_string())
}

#[test]
fn scalars_serialize() {
    assert_eq!(YamlSerializer::new().serialize_str("hello"), Ok(s("hello")));
    assert_eq!(YamlSerializer::new().serialize_u32(42), Ok(Value::Number(42)));
    assert_eq!(YamlSerializer::new().serialize_bool(true), Ok(Value::Bool(true)));
    assert_eq!(YamlSerializer::new().serialize_i8(-1), Ok(Value::Number(u64::MAX)));
    assert_eq!(YamlSerializer::default().serialize_char('x'), Ok(s("x")));
    assert_eq!(YamlSerializer::new().serialize_none(), Ok(Value::Null));
    assert_eq!(YamlSerializer::new().serialize_unit_struct("U"), Ok(Value::Null));
    assert_eq!(YamlSerializer::new().serialize_unit_variant("E", 1, "B"), Ok(s("B")));
}

#[test]
fn bytes_are_lowercase_hex() {
    assert_eq!(YamlSerializer::new().serialize_bytes(&[0, 15, 171, 255]), Ok(s("000fabff")));
    assert_eq!(hex_encode(&[]), "");
    assert_eq!(hex_decode("000fABff"), vec![0, 15, 171, 255]);
    assert_eq!(hex_decode("zz+f"), vec![0, 15]);
}

#[test]
fn list_serializes() {
    let mut seq = YamlSerializer::new().serialize_seq(Some(2)).unwrap();
    seq.serialize_element(YamlSerializer::new().serialize_str("a").unwrap()).unwrap();
    seq.serialize_element(YamlSerializer::new().serialize_str("b").unwrap()).unwrap();
    assert_eq!(seq.end(), Ok(Value::List(vec![s("a"), s("b")])));
}

#[test]
fn struct_serializes_to_mapping() {
    let mut st = YamlSerializer::new().serialize_struct("Person", 2).unwrap();
    st.serialize_field("name", s("Alice")).unwrap();
    st.serialize_field("age", Value::Number(30)).unwrap();
    let v = st.end().unwrap();
    assert_eq!(
        v,
        Value::Mapping(vec![("name".to_string(), s("Alice")), ("age".to_string(), Value::Number(30))])
    );
    match v {
        Value::Mapping(pairs) => assert_eq!(pairs.len(), 2),
        _ => panic!("Expected map"),
    }
}

#[test]
fn variants_wrap_in_a_mapping() {
    let mut st = YamlSerializer::new().serialize_struct_variant("E", 0, "V", 1).unwrap();
    st.serialize_field("x", Value::Number(1)).unwrap();
    assert_eq!(
        st.end(),
        Ok(Value::Mapping(vec![(
            "V".to_string(),
            Value::Mapping(vec![("x".to_string(), Value::Number(1))]),
        )]))
    );
    assert_eq!(
        YamlSerializer::new().serialize_newtype_variant("E", 0, "N", Value::Bool(false)),
        Ok(Value::Mapping(vec![("N".to_string(), Value::Bool(false))]))
    );
    let t = YamlSerializer::new().serialize_tuple_variant("E", 0, "T", 2).unwrap();
    assert_eq!(t.end(), Ok(Value::List(vec![s("T")])));
}

#[test]
fn map_keys_must_be_strings() {
    let mut m = YamlSerializer::new().serialize_map(None).unwrap();
    assert_eq!(
        m.serialize_key(Value::Number(1)),
        Err(Error::ExpectedType { expected: "string", found: "non-string key" })
    );
    assert_eq!(
        m.serialize_value(Value::Null),
        Err(Error::Custom("serialize_value called without key".to_string()))
    );
    m.serialize_key(s("k")).unwrap();
    m.serialize_value(Value::Number(7)).unwrap();
    assert_eq!(m.end(), Ok(Value::Mapping(vec![("k".to_string(), Value::Number(7))])));
}

#[test]
fn deserialize_scalars() {
    assert_eq!(YamlDeserializer::new(Value::Bool(true)).deserialize_bool(), Ok(true));
    assert_eq!(
        YamlDeserializer::new(Value::Null).deserialize_bool(),
        Err(Error::ExpectedType { expected: "bool", found: "non-bool" })
    );
    assert_eq!(YamlDeserializer::new(Value::Number(300)).deserialize_u8(), Ok(44));
    assert_eq!(YamlDeserializer::new(Value::Number(u64::MAX)).deserialize_i64(), Ok(-1));
    assert_eq!(YamlDeserializer::new(Value::Number(5)).deserialize_u64(), Ok(5));
    assert_eq!(
        YamlDeserializer::new(s("5")).deserialize_u32(),
        Err(Error::ExpectedType { expected: "number", found: "non-number" })
    );
    assert_eq!(YamlDeserializer::new(s("q")).deserialize_char(), Ok('q'));
    assert_eq!(
        YamlDeserializer::new(s("é")).deserialize_char(),
        Err(Error::ExpectedType { expected: "char", found: "non-char" })
    );
    assert_eq!(YamlDeserializer::new(s("text")).deserialize_string(), Ok("text".to_string()));
    assert_eq!(YamlDeserializer::new(s("0aFF")).deserialize_bytes(), Ok(vec![10, 255]));
    assert_eq!(YamlDeserializer::new(Value::Null).deserialize_option(), Ok(None));
    assert_eq!(YamlDeserializer::new(Value::Bool(false)).deserialize_option(), Ok(Some(())));
    assert_eq!(YamlDeserializer::new(Value::Null).deserialize_unit(), Ok(()));
    assert_eq!(
        YamlDeserializer::new(Value::Number(0)).deserialize_unit_struct("U"),
        Err(Error::ExpectedType { expected: "null", found: "non-null" })
    );
}

#[test]
fn error_texts() {
    assert_eq!(Error::ExpectedType { expected: "a", found: "b" }.to_string(), "expected a, found b");
    assert_eq!(Error::MissingField("f").to_string(), "missing field `f`");
    assert_eq!(Error::InvalidValue("v".to_string()).to_string(), "invalid value: v");
    assert_eq!(Error::IndexOutOfBounds(12).to_string(), "index 12 out of bounds");
    assert_eq!(Error::from("custom".to_string()).to_string(), "custom");
    assert_eq!(Error::custom("c"), Error::Custom("c".to_string()));
}

#[test]
fn parsed_document_deserializes() {
    let doc = parse("name: Alice\nage: 30").unwrap();
    match doc {
        Value::Mapping(pairs) => {
            assert_eq!(pairs.len(), 2);
            let mut it = pairs.into_iter();
            let (_, name) = it.next().unwrap();
            let (_, age) = it.next().unwrap();
            assert_eq!(YamlDeserializer::new(name).deserialize_str(), Ok("Alice".to_string()));
            assert_eq!(YamlDeserializer::new(age).deserialize_u32(), Ok(30));
        }
        _ => panic!("Expected map"),
    }
}

#[test]
fn float_text_and_value_access() {
    let d = YamlDeserializer::new(Value::Float("3.14".to_string()));
    assert_eq!(d.deserialize_float_text(), Ok("3.14".to_string()));
    assert_eq!(d.value(), &Value::Float("3.14".to_string()));
    assert_eq!(YamlDeserializer::new(Value::Number(120)).deserialize_float_text(), Ok("120".to_string()));
    assert_eq!(
        YamlDeserializer::new(Value::Null).deserialize_float_text(),
        Err(Error::ExpectedType { expected: "float", found: "non-float" })
    );
}

#[test]
fn round_trips() {
    for v in [-128i8, -1, 0, 1, 127] {
        let y = YamlSerializer::new().serialize_i8(v).unwrap();
        assert_eq!(YamlDeserializer::new(y).deserialize_i8(), Ok(v));
    }
    for v in [0u64, 7, u64::MAX] {
        let y = YamlSerializer::new().serialize_u64(v).unwrap();
        assert_eq!(YamlDeserializer::new(y).deserialize_u64(), Ok(v));
    }
    let bytes = vec![0u8, 1, 127, 128, 200, 255];
    let y = YamlSerializer::new().serialize_bytes(&bytes).unwrap();
    assert_eq!(YamlDeserializer::new(y).deserialize_bytes(), Ok(bytes));
    let y = YamlSerializer::new().serialize_char('a').unwrap();
    assert_eq!(YamlDeserializer::new(y).deserialize_char(), Ok('a'));
    let y = YamlSerializer::new().serialize_char('é').unwrap();
    assert!(YamlDeserializer::new(y).deserialize_char().is_err());
}
