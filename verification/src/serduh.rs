//! Conversion between values of the program and YAML values: the error type of the
//! conversion, the serializer that builds YAML values, and the deserializer that
//! reads them.
//!
//! A value is handed to the serializer as its parts (a number, a string, the YAML
//! values of its elements or fields), and the deserializer gives back plain values.

use crate::text::{append_decimal, append_decimal_u64, decimal, push_char};
use crate::yaml::scalar::{models, pair_models, Value, ValueModel};
use crate::yaml::structure::{lemma_list_model, lemma_mapping_model};
use vstd::prelude::*;
use vstd::string::*;

verus! {

// ---------------------------------------------------------------- errors

/// Error of a serialization or deserialization.
#[derive(Debug, Clone, PartialEq)]
pub enum Error {
    /// Expected a different type.
    ExpectedType { expected: &'static str, found: &'static str },
    /// Missing required field.
    MissingField(&'static str),
    /// Invalid value.
    InvalidValue(String),
    /// Index out of bounds.
    IndexOutOfBounds(usize),
    /// Custom error message.
    Custom(String),
}

/// The text of an error.
pub open spec fn error_text(e: Error) -> Seq<char> {
    match e {
        Error::ExpectedType { expected, found } => "expected "@ + expected@ + ", found "@ + found@,
        Error::MissingField(field) => "missing field `"@ + field@ + "`"@,
        Error::InvalidValue(msg) => "invalid value: "@ + msg@,
        Error::IndexOutOfBounds(idx) => "index "@ + decimal(idx as nat) + " out of bounds"@,
        Error::Custom(msg) => msg@,
    }
}

impl Error {
    /// The text of the error.
    pub fn to_string(&self) -> (s: String)
        ensures
            s@ == error_text(*self),
    {
        match self {
            Error::ExpectedType { expected, found } => {
                let mut s = String::from_str("expected ");
                s.append(expected);
                s.append(", found ");
                s.append(found);
                s
            },
            Error::MissingField(field) => {
                let mut s = String::from_str("missing field `");
                s.append(field);
                s.append("`");
                s
            },
            Error::InvalidValue(msg) => {
                let mut s = String::from_str("invalid value: ");
                s.append(msg.as_str());
                s
            },
            Error::IndexOutOfBounds(idx) => {
                let mut s = String::from_str("index ");
                append_decimal(&mut s, *idx);
                s.append(" out of bounds");
                s
            },
            Error::Custom(msg) => msg.clone(),
        }
    }
}

impl From<String> for Error {
    fn from(s: String) -> (e: Error) {
        Error::Custom(s)
    }
}

impl vstd::std_specs::convert::FromSpecImpl<String> for Error {
    open spec fn obeys_from_spec() -> bool {
        true
    }

    open spec fn from_spec(s: String) -> Error {
        Error::Custom(s)
    }
}

impl Error {
    /// A custom error carrying `msg`.
    pub fn custom(msg: &str) -> (e: Error)
        ensures
            e matches Error::Custom(m) && m@ == msg@,
    {
        Error::Custom(msg.to_string())
    }
}


// ---------------------------------------------------------------- hexadecimal bytes

/// The lowercase hexadecimal digit of `d` (`d < 16`).
pub open spec fn hex_digit(d: u8) -> char {
    if d < 10 {
        (d + 48) as char
    } else {
        (d + 87) as char
    }
}

/// Each byte of `bytes` as two lowercase hexadecimal digits, as `{:02x}` writes it.
pub open spec fn hex_text(bytes: Seq<u8>) -> Seq<char>
    decreases bytes.len(),
{
    if bytes.len() == 0 {
        Seq::empty()
    } else {
        hex_text(bytes.drop_last()) + seq![hex_digit(bytes.last() / 16), hex_digit(bytes.last() % 16)]
    }
}

/// The value of the hexadecimal digit `c`, in either case.
pub open spec fn hex_value(c: char) -> Option<u8> {
    if '0' <= c && c <= '9' {
        Some((c as u32 - 48) as u8)
    } else if 'a' <= c && c <= 'f' {
        Some((c as u32 - 87) as u8)
    } else if 'A' <= c && c <= 'F' {
        Some((c as u32 - 55) as u8)
    } else {
        None
    }
}

/// The byte that the two characters `a b` write in hexadecimal, as `u8::from_str_radix`
/// reads them (an optional `+` before the digits), or 0 when they write none.
pub open spec fn pair_byte(a: char, b: char) -> u8 {
    if a == '+' {
        match hex_value(b) {
            Some(d) => d,
            None => 0,
        }
    } else {
        match (hex_value(a), hex_value(b)) {
            (Some(x), Some(y)) => (x * 16 + y) as u8,
            _ => 0,
        }
    }
}

/// The bytes that the character pairs of `s` write.
pub open spec fn hex_bytes(s: Seq<char>) -> Seq<u8> {
    Seq::new(s.len() / 2, |i: int| pair_byte(s[2 * i], s[2 * i + 1]))
}

fn hex_digit_exec(d: u8) -> (c: char)
    requires
        d < 16,
    ensures
        c == hex_digit(d),
{
    if d < 10 {
        (d + 48) as char
    } else {
        (d + 87) as char
    }
}

fn hex_value_exec(c: char) -> (r: Option<u8>)
    ensures
        r == hex_value(c),
{
    if '0' <= c && c <= '9' {
        Some((c as u32 - 48) as u8)
    } else if 'a' <= c && c <= 'f' {
        Some((c as u32 - 87) as u8)
    } else if 'A' <= c && c <= 'F' {
        Some((c as u32 - 55) as u8)
    } else {
        None
    }
}

fn pair_byte_exec(a: char, b: char) -> (r: u8)
    ensures
        r == pair_byte(a, b),
{
    if a == '+' {
        match hex_value_exec(b) {
            Some(d) => d,
            None => 0,
        }
    } else {
        match (hex_value_exec(a), hex_value_exec(b)) {
            (Some(x), Some(y)) => x * 16 + y,
            _ => 0,
        }
    }
}

/// The lowercase hexadecimal text of `bytes`.
pub fn hex_encode(bytes: &[u8]) -> (s: String)
    ensures
        s@ == hex_text(bytes@),
{
    let mut s = String::new();
    let n = bytes.len();
    let mut i: usize = 0;
    proof {
        assert(bytes@.take(0) =~= Seq::<u8>::empty());
    }
    while i < n
        invariant
            n == bytes@.len(),
            i <= n,
            s@ == hex_text(bytes@.take(i as int)),
        decreases n - i,
    {
        let b = bytes[i];
        push_char(&mut s, hex_digit_exec(b / 16));
        push_char(&mut s, hex_digit_exec(b % 16));
        proof {
            assert(bytes@.take(i + 1).drop_last() =~= bytes@.take(i as int));
            assert(hex_text(bytes@.take(i + 1)) =~= hex_text(bytes@.take(i as int)).push(
                hex_digit(b / 16),
            ).push(hex_digit(b % 16)));
        }
        i = i + 1;
    }
    proof {
        assert(bytes@.take(n as int) =~= bytes@);
    }
    s
}

/// The bytes that the character pairs of `s` write in hexadecimal.
pub fn hex_decode(s: &str) -> (r: Vec<u8>)
    requires
        s@.len() % 2 == 0,
    ensures
        r@ == hex_bytes(s@),
{
    let len = s.unicode_len();
    let mut r: Vec<u8> = Vec::new();
    let mut i: usize = 0;
    while i < len / 2
        invariant
            len == s@.len(),
            len % 2 == 0,
            i <= len / 2,
            r@ == hex_bytes(s@).take(i as int),
        decreases len / 2 - i,
    {
        let b = pair_byte_exec(s.get_char(2 * i), s.get_char(2 * i + 1));
        r.push(b);
        assert(r@ =~= hex_bytes(s@).take(i + 1));
        i = i + 1;
    }
    assert(r@ =~= hex_bytes(s@));
    r
}

// ---------------------------------------------------------------- serializer

/// `r` is the YAML value whose model is `m`.
pub open spec fn gives(r: Result<Value, Error>, m: ValueModel) -> bool {
    r matches Ok(v) && v.model() == m
}

/// YAML serializer: builds the YAML value of a value from its parts.
pub struct YamlSerializer;

impl Default for YamlSerializer {
    fn default() -> (s: YamlSerializer)
        ensures
            s == YamlSerializer,
    {
        YamlSerializer
    }
}

impl YamlSerializer {
    /// A new serializer.
    pub fn new() -> (s: YamlSerializer)
        ensures
            s == YamlSerializer,
    {
        YamlSerializer
    }

    /// A boolean.
    pub fn serialize_bool(self, v: bool) -> (r: Result<Value, Error>)
        ensures
            gives(r, ValueModel::Bool(v)),
    {
        Ok(Value::Bool(v))
    }

    /// An `i8`, as the number with its bits (a negative one wraps around).
    pub fn serialize_i8(self, v: i8) -> (r: Result<Value, Error>)
        ensures
            gives(r, ValueModel::Number(v as u64)),
    {
        Ok(Value::Number(v as u64))
    }

    /// An `i16`, as the number with its bits (a negative one wraps around).
    pub fn serialize_i16(self, v: i16) -> (r: Result<Value, Error>)
        ensures
            gives(r, ValueModel::Number(v as u64)),
    {
        Ok(Value::Number(v as u64))
    }

    /// An `i32`, as the number with its bits (a negative one wraps around).
    pub fn serialize_i32(self, v: i32) -> (r: Result<Value, Error>)
        ensures
            gives(r, ValueModel::Number(v as u64)),
    {
        Ok(Value::Number(v as u64))
    }

    /// An `i64`, as the number with its bits (a negative one wraps around).
    pub fn serialize_i64(self, v: i64) -> (r: Result<Value, Error>)
        ensures
            gives(r, ValueModel::Number(v as u64)),
    {
        Ok(Value::Number(v as u64))
    }

    /// A `u8`.
    pub fn serialize_u8(self, v: u8) -> (r: Result<Value, Error>)
        ensures
            gives(r, ValueModel::Number(v as u64)),
    {
        Ok(Value::Number(v as u64))
    }

    /// A `u16`.
    pub fn serialize_u16(self, v: u16) -> (r: Result<Value, Error>)
        ensures
            gives(r, ValueModel::Number(v as u64)),
    {
        Ok(Value::Number(v as u64))
    }

    /// A `u32`.
    pub fn serialize_u32(self, v: u32) -> (r: Result<Value, Error>)
        ensures
            gives(r, ValueModel::Number(v as u64)),
    {
        Ok(Value::Number(v as u64))
    }

    /// A `u64`.
    pub fn serialize_u64(self, v: u64) -> (r: Result<Value, Error>)
        ensures
            gives(r, ValueModel::Number(v)),
    {
        Ok(Value::Number(v))
    }

    /// A character, as a string of one character.
    pub fn serialize_char(self, v: char) -> (r: Result<Value, Error>)
        ensures
            gives(r, ValueModel::String(seq![v])),
    {
        let mut s = String::new();
        push_char(&mut s, v);
        assert(s@ =~= seq![v]);
        Ok(Value::String(s))
    }

    /// A string.
    pub fn serialize_str(self, v: &str) -> (r: Result<Value, Error>)
        ensures
            gives(r, ValueModel::String(v@)),
    {
        Ok(Value::String(v.to_string()))
    }

    /// Bytes, as a string of two lowercase hexadecimal digits per byte.
    pub fn serialize_bytes(self, v: &[u8]) -> (r: Result<Value, Error>)
        ensures
            gives(r, ValueModel::String(hex_text(v@))),
    {
        Ok(Value::String(hex_encode(v)))
    }

    /// No value: null.
    pub fn serialize_none(self) -> (r: Result<Value, Error>)
        ensures
            gives(r, ValueModel::Null),
    {
        Ok(Value::Null)
    }

    /// The unit value: null.
    pub fn serialize_unit(self) -> (r: Result<Value, Error>)
        ensures
            gives(r, ValueModel::Null),
    {
        Ok(Value::Null)
    }

    /// A unit struct: null.
    pub fn serialize_unit_struct(self, name: &str) -> (r: Result<Value, Error>)
        ensures
            gives(r, ValueModel::Null),
    {
        Ok(Value::Null)
    }

    /// A unit variant: the variant's name.
    pub fn serialize_unit_variant(self, name: &str, variant_index: u32, variant: &str) -> (r: Result<Value, Error>)
        ensures
            gives(r, ValueModel::String(variant@)),
    {
        Ok(Value::String(variant.to_string()))
    }

    /// A newtype variant whose content has the YAML value `value`: a mapping from the
    /// variant's name to it.
    pub fn serialize_newtype_variant(
        self,
        name: &str,
        variant_index: u32,
        variant: &str,
        value: Value,
    ) -> (r: Result<Value, Error>)
        ensures
            gives(r, ValueModel::Mapping(seq![(variant@, value.model())])),
    {
        let mut map: Vec<(String, Value)> = Vec::new();
        let ghost vm = value.model();
        map.push((variant.to_string(), value));
        proof {
            lemma_mapping_model(map);
            assert(pair_models(map@) =~= seq![(variant@, vm)]);
        }
        Ok(Value::Mapping(map))
    }

    /// Start a sequence.
    pub fn serialize_seq(self, len: Option<usize>) -> (r: Result<SerializeSeq, Error>)
        ensures
            r matches Ok(s) && s.items() == Seq::<ValueModel>::empty(),
    {
        Ok(SerializeSeq::new())
    }

    /// Start a tuple: a sequence.
    pub fn serialize_tuple(self, len: usize) -> (r: Result<SerializeSeq, Error>)
        ensures
            r matches Ok(s) && s.items() == Seq::<ValueModel>::empty(),
    {
        self.serialize_seq(Some(len))
    }

    /// Start a tuple struct: a sequence.
    pub fn serialize_tuple_struct(self, name: &str, len: usize) -> (r: Result<SerializeSeq, Error>)
        ensures
            r matches Ok(s) && s.items() == Seq::<ValueModel>::empty(),
    {
        self.serialize_seq(Some(len))
    }

    /// Start a tuple variant: a sequence whose first item is the variant's name.
    pub fn serialize_tuple_variant(
        self,
        name: &str,
        variant_index: u32,
        variant: &str,
        len: usize,
    ) -> (r: Result<SerializeSeq, Error>)
        ensures
            r matches Ok(s) && s.items() == seq![ValueModel::String(variant@)],
    {
        let mut seq = SerializeSeq::new();
        seq.push(Value::String(variant.to_string()));
        assert(seq.items() =~= seq![ValueModel::String(variant@)]);
        Ok(seq)
    }

    /// Start a map.
    pub fn serialize_map(self, len: Option<usize>) -> (r: Result<SerializeMap, Error>)
        ensures
            r matches Ok(m) && m.entries() == Seq::<(Seq<char>, ValueModel)>::empty() && m.pending_key() is None,
    {
        Ok(SerializeMap::new())
    }

    /// Start a struct.
    pub fn serialize_struct(self, name: &str, len: usize) -> (r: Result<SerializeStruct, Error>)
        ensures
            r matches Ok(st) && st.fields() == Seq::<(Seq<char>, ValueModel)>::empty() && st.variant() is None,
    {
        Ok(SerializeStruct::new())
    }

    /// Start a struct variant: a struct wrapped in a mapping from the variant's name.
    pub fn serialize_struct_variant(
        self,
        name: &str,
        variant_index: u32,
        variant: &str,
        len: usize,
    ) -> (r: Result<SerializeStruct, Error>)
        ensures
            r matches Ok(st) && st.fields() == Seq::<(Seq<char>, ValueModel)>::empty() && st.variant()
                == Some(variant@),
    {
        Ok(SerializeStruct::with_variant(variant))
    }
}

/// Builds a YAML list item by item.
pub struct SerializeSeq {
    items: Vec<Value>,
}

impl SerializeSeq {
    /// The models of the items so far.
    pub closed spec fn items(&self) -> Seq<ValueModel> {
        models(self.items@)
    }

    fn new() -> (s: SerializeSeq)
        ensures
            s.items() == Seq::<ValueModel>::empty(),
    {
        let s = SerializeSeq { items: Vec::new() };
        assert(s.items() =~= Seq::<ValueModel>::empty());
        s
    }

    fn push(&mut self, item: Value)
        ensures
            final(self).items() == old(self).items().push(item.model()),
    {
        let ghost m = item.model();
        self.items.push(item);
        assert(self.items() =~= old(self).items().push(m));
    }

    /// Add the item whose YAML value is `value`.
    pub fn serialize_element(&mut self, value: Value) -> (r: Result<(), Error>)
        ensures
            r is Ok,
            final(self).items() == old(self).items().push(value.model()),
    {
        self.push(value);
        Ok(())
    }

    /// The list of the items.
    pub fn end(self) -> (r: Result<Value, Error>)
        ensures
            gives(r, ValueModel::List(self.items())),
    {
        proof {
            lemma_list_model(self.items);
        }
        Ok(Value::List(self.items))
    }
}

/// Builds a YAML mapping entry by entry: a key, then its value.
pub struct SerializeMap {
    items: Vec<(String, Value)>,
    current_key: Option<String>,
}

impl SerializeMap {
    /// The models of the entries so far.
    pub closed spec fn entries(&self) -> Seq<(Seq<char>, ValueModel)> {
        pair_models(self.items@)
    }

    /// The key waiting for its value.
    pub closed spec fn pending_key(&self) -> Option<Seq<char>> {
        match self.current_key {
            Some(k) => Some(k@),
            None => None,
        }
    }

    fn new() -> (m: SerializeMap)
        ensures
            m.entries() == Seq::<(Seq<char>, ValueModel)>::empty(),
            m.pending_key() is None,
    {
        let m = SerializeMap { items: Vec::new(), current_key: None };
        assert(m.entries() =~= Seq::<(Seq<char>, ValueModel)>::empty());
        m
    }

    /// Take the key whose YAML value is `key`: it must be a string.
    pub fn serialize_key(&mut self, key: Value) -> (r: Result<(), Error>)
        ensures
            match key.model() {
                ValueModel::String(k) => r is Ok && final(self).pending_key() == Some(k)
                    && final(self).entries() == old(self).entries(),
                _ => r == Err::<(), Error>(Error::ExpectedType { expected: "string", found: "non-string key" })
                    && final(self).pending_key() == old(self).pending_key()
                    && final(self).entries() == old(self).entries(),
            },
    {
        match key {
            Value::String(s) => {
                self.current_key = Some(s);
                Ok(())
            },
            _ => Err(Error::ExpectedType { expected: "string", found: "non-string key" }),
        }
    }

    /// Add the value whose YAML value is `value` under the waiting key.
    pub fn serialize_value(&mut self, value: Value) -> (r: Result<(), Error>)
        ensures
            match old(self).pending_key() {
                Some(k) => r is Ok && final(self).entries() == old(self).entries().push((k, value.model()))
                    && final(self).pending_key() is None,
                None => r matches Err(Error::Custom(m)) && m@ == "serialize_value called without key"@
                    && final(self).entries() == old(self).entries()
                    && final(self).pending_key() is None,
            },
    {
        match self.current_key.take() {
            Some(key) => {
                let ghost k = key@;
                let ghost m = value.model();
                self.items.push((key, value));
                assert(self.entries() =~= old(self).entries().push((k, m)));
                Ok(())
            },
            None => Err(Error::custom("serialize_value called without key")),
        }
    }

    /// The mapping of the entries.
    pub fn end(self) -> (r: Result<Value, Error>)
        ensures
            gives(r, ValueModel::Mapping(self.entries())),
    {
        proof {
            lemma_mapping_model(self.items);
        }
        Ok(Value::Mapping(self.items))
    }
}

/// Builds the YAML mapping of a struct field by field.
pub struct SerializeStruct {
    fields: Vec<(String, Value)>,
    variant: Option<String>,
}

impl SerializeStruct {
    /// The models of the fields so far.
    pub closed spec fn fields(&self) -> Seq<(Seq<char>, ValueModel)> {
        pair_models(self.fields@)
    }

    /// The variant whose name wraps the struct.
    pub closed spec fn variant(&self) -> Option<Seq<char>> {
        match self.variant {
            Some(v) => Some(v@),
            None => None,
        }
    }

    fn new() -> (st: SerializeStruct)
        ensures
            st.fields() == Seq::<(Seq<char>, ValueModel)>::empty(),
            st.variant() is None,
    {
        let st = SerializeStruct { fields: Vec::new(), variant: None };
        assert(st.fields() =~= Seq::<(Seq<char>, ValueModel)>::empty());
        st
    }

    fn with_variant(variant: &str) -> (st: SerializeStruct)
        ensures
            st.fields() == Seq::<(Seq<char>, ValueModel)>::empty(),
            st.variant() == Some(variant@),
    {
        let st = SerializeStruct { fields: Vec::new(), variant: Some(variant.to_string()) };
        assert(st.fields() =~= Seq::<(Seq<char>, ValueModel)>::empty());
        st
    }

    /// Add field `key` with the YAML value `value`.
    pub fn serialize_field(&mut self, key: &str, value: Value) -> (r: Result<(), Error>)
        ensures
            r is Ok,
            final(self).fields() == old(self).fields().push((key@, value.model())),
            final(self).variant() == old(self).variant(),
    {
        let ghost m = value.model();
        self.fields.push((key.to_string(), value));
        assert(self.fields() =~= old(self).fields().push((key@, m)));
        Ok(())
    }

    /// The mapping of the fields, wrapped in a mapping from the variant's name when
    /// there is one.
    pub fn end(self) -> (r: Result<Value, Error>)
        ensures
            match self.variant() {
                Some(v) => gives(r, ValueModel::Mapping(seq![(v, ValueModel::Mapping(self.fields()))])),
                None => gives(r, ValueModel::Mapping(self.fields())),
            },
    {
        proof {
            lemma_mapping_model(self.fields);
        }
        let ghost fm = self.fields();
        match self.variant {
            Some(variant) => {
                let ghost vname = variant@;
                let inner = Value::Mapping(self.fields);
                let mut map: Vec<(String, Value)> = Vec::new();
                map.push((variant, inner));
                proof {
                    lemma_mapping_model(map);
                    assert(pair_models(map@) =~= seq![(vname, ValueModel::Mapping(fm))]);
                }
                Ok(Value::Mapping(map))
            },
            None => Ok(Value::Mapping(self.fields)),
        }
    }
}

// ---------------------------------------------------------------- deserializer

/// The error of a value of another type than `expected`.
pub open spec fn type_error(expected: &'static str, found: &'static str) -> Error {
    Error::ExpectedType { expected, found }
}

/// YAML deserializer: reads plain values out of a YAML value.
pub struct YamlDeserializer {
    value: Value,
}

impl YamlDeserializer {
    /// The model of the value being read.
    pub closed spec fn model(&self) -> ValueModel {
        self.value.model()
    }

    /// A deserializer that reads `value`.
    pub fn new(value: Value) -> (d: YamlDeserializer)
        ensures
            d.model() == value.model(),
    {
        YamlDeserializer { value }
    }

    /// The value being read.
    pub fn value(&self) -> (v: &Value)
        ensures
            v.model() == self.model(),
    {
        &self.value
    }

    /// The decimal text of a float: that of a float, or the digits of a number.
    pub fn deserialize_float_text(&self) -> (r: Result<String, Error>)
        ensures
            match self.model() {
                ValueModel::Float(t) => r matches Ok(s) && s@ == t,
                ValueModel::Number(n) => r matches Ok(s) && s@ == decimal(n as nat),
                _ => r == Err::<String, Error>(type_error("float", "non-float")),
            },
    {
        match &self.value {
            Value::Float(t) => Ok(t.clone()),
            Value::Number(n) => {
                let mut s = String::new();
                append_decimal_u64(&mut s, *n);
                Ok(s)
            },
            _ => Err(Error::ExpectedType { expected: "float", found: "non-float" }),
        }
    }

    /// A boolean.
    pub fn deserialize_bool(&self) -> (r: Result<bool, Error>)
        ensures
            r == match self.model() {
                ValueModel::Bool(b) => Ok(b),
                _ => Err(type_error("bool", "non-bool")),
            },
    {
        match &self.value {
            Value::Bool(v) => Ok(*v),
            _ => Err(Error::ExpectedType { expected: "bool", found: "non-bool" }),
        }
    }

    /// An `i8`: a number, cut to its low bits.
    pub fn deserialize_i8(&self) -> (r: Result<i8, Error>)
        ensures
            r == match self.model() {
                ValueModel::Number(n) => Ok(n as i8),
                _ => Err(type_error("number", "non-number")),
            },
    {
        match &self.value {
            Value::Number(v) => Ok(*v as i8),
            _ => Err(Error::ExpectedType { expected: "number", found: "non-number" }),
        }
    }

    /// An `i16`: a number, cut to its low bits.
    pub fn deserialize_i16(&self) -> (r: Result<i16, Error>)
        ensures
            r == match self.model() {
                ValueModel::Number(n) => Ok(n as i16),
                _ => Err(type_error("number", "non-number")),
            },
    {
        match &self.value {
            Value::Number(v) => Ok(*v as i16),
            _ => Err(Error::ExpectedType { expected: "number", found: "non-number" }),
        }
    }

    /// An `i32`: a number, cut to its low bits.
    pub fn deserialize_i32(&self) -> (r: Result<i32, Error>)
        ensures
            r == match self.model() {
                ValueModel::Number(n) => Ok(n as i32),
                _ => Err(type_error("number", "non-number")),
            },
    {
        match &self.value {
            Value::Number(v) => Ok(*v as i32),
            _ => Err(Error::ExpectedType { expected: "number", found: "non-number" }),
        }
    }

    /// An `i64`: a number, with its bits.
    pub fn deserialize_i64(&self) -> (r: Result<i64, Error>)
        ensures
            r == match self.model() {
                ValueModel::Number(n) => Ok(n as i64),
                _ => Err(type_error("number", "non-number")),
            },
    {
        match &self.value {
            Value::Number(v) => Ok(*v as i64),
            _ => Err(Error::ExpectedType { expected: "number", found: "non-number" }),
        }
    }

    /// A `u8`: a number, cut to its low bits.
    pub fn deserialize_u8(&self) -> (r: Result<u8, Error>)
        ensures
            r == match self.model() {
                ValueModel::Number(n) => Ok(n as u8),
                _ => Err(type_error("number", "non-number")),
            },
    {
        match &self.value {
            Value::Number(v) => Ok(*v as u8),
            _ => Err(Error::ExpectedType { expected: "number", found: "non-number" }),
        }
    }

    /// A `u16`: a number, cut to its low bits.
    pub fn deserialize_u16(&self) -> (r: Result<u16, Error>)
        ensures
            r == match self.model() {
                ValueModel::Number(n) => Ok(n as u16),
                _ => Err(type_error("number", "non-number")),
            },
    {
        match &self.value {
            Value::Number(v) => Ok(*v as u16),
            _ => Err(Error::ExpectedType { expected: "number", found: "non-number" }),
        }
    }

    /// A `u32`: a number, cut to its low bits.
    pub fn deserialize_u32(&self) -> (r: Result<u32, Error>)
        ensures
            r == match self.model() {
                ValueModel::Number(n) => Ok(n as u32),
                _ => Err(type_error("number", "non-number")),
            },
    {
        match &self.value {
            Value::Number(v) => Ok(*v as u32),
            _ => Err(Error::ExpectedType { expected: "number", found: "non-number" }),
        }
    }

    /// A `u64`: a number.
    pub fn deserialize_u64(&self) -> (r: Result<u64, Error>)
        ensures
            r == match self.model() {
                ValueModel::Number(n) => Ok(n),
                _ => Err(type_error("number", "non-number")),
            },
    {
        match &self.value {
            Value::Number(v) => Ok(*v),
            _ => Err(Error::ExpectedType { expected: "number", found: "non-number" }),
        }
    }

    /// A character: a string of one byte.
    pub fn deserialize_char(&self) -> (r: Result<char, Error>)
        ensures
            r == read_char(self.model()),
    {
        match &self.value {
            Value::String(s) => {
                if s.as_str().unicode_len() == 1 {
                    let c = s.as_str().get_char(0);
                    if (c as u32) < 128 {
                        return Ok(c);
                    }
                }
                Err(Error::ExpectedType { expected: "char", found: "non-char" })
            },
            _ => Err(Error::ExpectedType { expected: "char", found: "non-char" }),
        }
    }

    /// A string.
    pub fn deserialize_str(&self) -> (r: Result<String, Error>)
        ensures
            match self.model() {
                ValueModel::String(s) => r matches Ok(t) && t@ == s,
                _ => r == Err::<String, Error>(type_error("string", "non-string")),
            },
    {
        match &self.value {
            Value::String(v) => Ok(v.clone()),
            _ => Err(Error::ExpectedType { expected: "string", found: "non-string" }),
        }
    }

    /// A string.
    pub fn deserialize_string(&self) -> (r: Result<String, Error>)
        ensures
            match self.model() {
                ValueModel::String(s) => r matches Ok(t) && t@ == s,
                _ => r == Err::<String, Error>(type_error("string", "non-string")),
            },
    {
        self.deserialize_str()
    }

    /// Bytes: a string of hexadecimal digit pairs.
    pub fn deserialize_bytes(&self) -> (r: Result<Vec<u8>, Error>)
        requires
            self.model() matches ValueModel::String(s) ==> s.len() % 2 == 0,
        ensures
            match self.model() {
                ValueModel::String(s) => r matches Ok(b) && b@ == hex_bytes(s),
                _ => r == Err::<Vec<u8>, Error>(type_error("bytes", "non-bytes")),
            },
    {
        match &self.value {
            Value::String(s) => Ok(hex_decode(s.as_str())),
            _ => Err(Error::ExpectedType { expected: "bytes", found: "non-bytes" }),
        }
    }

    /// Bytes: a string of hexadecimal digit pairs.
    pub fn deserialize_byte_buf(&self) -> (r: Result<Vec<u8>, Error>)
        requires
            self.model() matches ValueModel::String(s) ==> s.len() % 2 == 0,
        ensures
            match self.model() {
                ValueModel::String(s) => r matches Ok(b) && b@ == hex_bytes(s),
                _ => r == Err::<Vec<u8>, Error>(type_error("bytes", "non-bytes")),
            },
    {
        self.deserialize_bytes()
    }

    /// An option: null is `None`, anything else is there.
    pub fn deserialize_option(&self) -> (r: Result<Option<()>, Error>)
        ensures
            r == Ok::<Option<()>, Error>(
                if self.model() is Null {
                    None
                } else {
                    Some(())
                },
            ),
    {
        match &self.value {
            Value::Null => Ok(None),
            _ => Ok(Some(())),
        }
    }

    /// The unit value: null.
    pub fn deserialize_unit(&self) -> (r: Result<(), Error>)
        ensures
            r == if self.model() is Null {
                Ok::<(), Error>(())
            } else {
                Err(type_error("null", "non-null"))
            },
    {
        match &self.value {
            Value::Null => Ok(()),
            _ => Err(Error::ExpectedType { expected: "null", found: "non-null" }),
        }
    }

    /// A unit struct: null.
    pub fn deserialize_unit_struct(&self, name: &str) -> (r: Result<(), Error>)
        ensures
            r == if self.model() is Null {
                Ok::<(), Error>(())
            } else {
                Err(type_error("null", "non-null"))
            },
    {
        self.deserialize_unit()
    }
}

// ---------------------------------------------------------------- round trips

/// Reading back an integer that the serializer wrote, as the type it was written
/// from, gives the integer back.
pub proof fn lemma_integer_round_trip(a: i8, b: i16, c: i32, d: i64, e: u8, f: u16, g: u32, h: u64)
    ensures
        (a as u64) as i8 == a,
        (b as u64) as i16 == b,
        (c as u64) as i32 == c,
        (d as u64) as i64 == d,
        (e as u64) as u8 == e,
        (f as u64) as u16 == f,
        (g as u64) as u32 == g,
        h as u64 == h,
{
    assert((a as u64) as i8 == a) by (bit_vector);
    assert((b as u64) as i16 == b) by (bit_vector);
    assert((c as u64) as i32 == c) by (bit_vector);
    assert((d as u64) as i64 == d) by (bit_vector);
}

/// The hexadecimal text of bytes holds two digits per byte, the high one first.
pub proof fn lemma_hex_text(b: Seq<u8>)
    ensures
        hex_text(b).len() == 2 * b.len(),
        forall|i: int|
            0 <= i < b.len() ==> hex_text(b)[2 * i] == hex_digit(#[trigger] b[i] / 16) && hex_text(b)[2 * i + 1]
                == hex_digit(b[i] % 16),
    decreases b.len(),
{
    if b.len() > 0 {
        lemma_hex_text(b.drop_last());
        let t = hex_text(b.drop_last());
        assert forall|i: int| 0 <= i < b.len() implies hex_text(b)[2 * i] == hex_digit(#[trigger] b[i] / 16)
            && hex_text(b)[2 * i + 1] == hex_digit(b[i] % 16) by {
            if i < b.len() - 1 {
                assert(b.drop_last()[i] == b[i]);
            }
        }
    }
}

/// The digit of `d` reads back as `d`.
pub proof fn lemma_hex_digit(d: u8)
    requires
        d < 16,
    ensures
        hex_value(hex_digit(d)) == Some(d),
        hex_digit(d) != '+',
{
}

/// Reading back the hexadecimal text of bytes gives the bytes.
pub proof fn lemma_bytes_round_trip(b: Seq<u8>)
    ensures
        hex_bytes(hex_text(b)) == b,
{
    lemma_hex_text(b);
    let t = hex_text(b);
    assert forall|i: int| 0 <= i < b.len() implies #[trigger] hex_bytes(t)[i] == b[i] by {
        let x = b[i] / 16;
        let y = b[i] % 16;
        lemma_hex_digit(x);
        lemma_hex_digit(y);
        assert(t[2 * i] == hex_digit(x));
        assert(t[2 * i + 1] == hex_digit(y));
        assert(pair_byte(t[2 * i], t[2 * i + 1]) == (x * 16 + y) as u8);
    }
    assert(hex_bytes(t) =~= b);
}

/// What the deserializer reads as a character from a value.
pub open spec fn read_char(m: ValueModel) -> Result<char, Error> {
    match m {
        ValueModel::String(s) => if s.len() == 1 && (s[0] as u32) < 128 {
            Ok(s[0])
        } else {
            Err(type_error("char", "non-char"))
        },
        _ => Err(type_error("char", "non-char")),
    }
}

/// An ASCII character that the serializer wrote reads back as itself; no other
/// character does.
pub proof fn lemma_char_round_trip(c: char)
    ensures
        read_char(ValueModel::String(seq![c])) == (if (c as u32) < 128 {
            Ok::<char, Error>(c)
        } else {
            Err(type_error("char", "non-char"))
        }),
{
}
} // verus!
