//! The derive macros of the serialization framework: the name of a struct and the
//! names of its fields, read from its tokens, and the impls generated for them.

use crate::quote_lite::{stream_text, tokens_to_string, Delimiter, TokenModel, TokenStream, Tokens};
use crate::text::str_eq;
use vstd::prelude::*;
use vstd::string::*;

verus! {

/// A token of an item's definition.
#[derive(Debug)]
pub enum Token {
    Ident(String),
    Punct(char),
    Group(Vec<Token>),
    Literal(String),
}

/// The token is the identifier `s`.
pub open spec fn is_ident(t: Token, s: Seq<char>) -> bool {
    t matches Token::Ident(n) && n@ == s
}

/// The token is the punctuation `c`.
pub open spec fn is_punct(t: Token, c: char) -> bool {
    t matches Token::Punct(p) && p == c
}

/// The nesting depth after token `t`, from `depth` before it: `<` opens a level
/// and `>` closes one, if one is open.
pub open spec fn depth_after(t: Token, depth: nat) -> nat {
    if is_punct(t, '<') {
        depth + 1
    } else if is_punct(t, '>') && depth > 0 {
        (depth - 1) as nat
    } else {
        depth
    }
}

/// Where the field type starting at `j`, inside `depth` open `<`, ends: the first
/// `,` or `}` from `j` on outside any `<...>`, or the end.
pub open spec fn field_end(ts: Seq<Token>, j: int, depth: nat) -> int
    decreases ts.len() - j,
{
    if j >= ts.len() || (depth == 0 && (is_punct(ts[j], ',') || is_punct(ts[j], '}'))) {
        j
    } else {
        field_end(ts, j + 1, depth_after(ts[j], depth))
    }
}

/// The end of a field lies at or after its start, within the tokens.
pub proof fn lemma_field_end(ts: Seq<Token>, j: int, depth: nat)
    requires
        0 <= j,
    ensures
        j <= field_end(ts, j, depth),
        j <= ts.len() ==> field_end(ts, j, depth) <= ts.len(),
    decreases ts.len() - j,
{
    if !(j >= ts.len() || (depth == 0 && (is_punct(ts[j], ',') || is_punct(ts[j], '}')))) {
        lemma_field_end(ts, j + 1, depth_after(ts[j], depth));
    }
}

/// The names of the fields among `ts` from position `i` on: each identifier followed
/// by `:` names a field, whose type then runs to the next `,` or `}` outside `<...>`.
pub open spec fn fields_from(ts: Seq<Token>, i: int) -> Seq<Seq<char>>
    decreases ts.len() - i,
{
    if i < 0 || i >= ts.len() {
        Seq::empty()
    } else if ts[i] is Ident && i + 1 < ts.len() && is_punct(ts[i + 1], ':') {
        proof {
            lemma_field_end(ts, i + 2, 0);
        }
        seq![ts[i]->Ident_0@] + fields_from(ts, field_end(ts, i + 2, 0))
    } else {
        fields_from(ts, i + 1)
    }
}

/// The first group among `ts` from position `i` on.
pub open spec fn first_group(ts: Seq<Token>, i: int) -> Option<Seq<Token>>
    decreases ts.len() - i,
{
    if i < 0 || i >= ts.len() {
        None
    } else if ts[i] is Group {
        Some(ts[i]->Group_0@)
    } else {
        first_group(ts, i + 1)
    }
}

/// The struct defined among `ts` from position `i` on: the identifier after the first
/// `struct` that is followed by one, and the fields of the first group after it.
pub open spec fn struct_def_from(ts: Seq<Token>, i: int) -> Result<(Seq<char>, Seq<Seq<char>>), Seq<char>>
    decreases ts.len() - i,
{
    if i < 0 || i >= ts.len() {
        Err("Expected struct definition"@)
    } else if is_ident(ts[i], "struct"@) {
        if i + 1 >= ts.len() {
            Err("Expected struct definition"@)
        } else if ts[i + 1] is Ident {
            match first_group(ts, i + 2) {
                Some(inner) => Ok((ts[i + 1]->Ident_0@, fields_from(inner, 0))),
                None => Ok((ts[i + 1]->Ident_0@, Seq::empty())),
            }
        } else {
            struct_def_from(ts, i + 2)
        }
    } else {
        struct_def_from(ts, i + 1)
    }
}

fn is_separator(t: &Token) -> (b: bool)
    ensures
        b == (is_punct(*t, ',') || is_punct(*t, '}')),
{
    match t {
        Token::Punct(c) => *c == ',' || *c == '}',
        _ => false,
    }
}

fn is_punct_char(t: &Token, c: char) -> (b: bool)
    ensures
        b == is_punct(*t, c),
{
    match t {
        Token::Punct(p) => *p == c,
        _ => false,
    }
}

/// Parse the field names of a struct's brace group.
pub fn parse_fields(tokens: &[Token]) -> (r: Result<Vec<String>, String>)
    ensures
        r matches Ok(fs) && fs@.map_values(|f: String| f@) == fields_from(tokens@, 0),
{
    let ghost ts = tokens@;
    let mut fields: Vec<String> = Vec::new();
    let n = tokens.len();
    let mut i: usize = 0;
    proof {
        assert(fields@.map_values(|f: String| f@) =~= Seq::<Seq<char>>::empty());
    }
    while i < n
        invariant
            n == ts.len(),
            ts == tokens@,
            i <= n,
            fields_from(ts, 0) == fields@.map_values(|f: String| f@) + fields_from(ts, i as int),
        decreases n - i,
    {
        let ghost before = fields@.map_values(|f: String| f@);
        let is_field = match &tokens[i] {
            Token::Ident(_) => i + 1 < n && is_punct_char(&tokens[i + 1], ':'),
            _ => false,
        };
        if is_field {
            match &tokens[i] {
                Token::Ident(name) => {
                    fields.push(name.clone());
                },
                _ => {},
            }
            let mut j = i + 2;
            let mut depth: usize = 0;
            proof {
                lemma_field_end(ts, i + 2, 0);
            }
            while j < n && !(depth == 0 && is_separator(&tokens[j]))
                invariant
                    n == ts.len(),
                    ts == tokens@,
                    i + 2 <= j,
                    depth <= j,
                    field_end(ts, i + 2, 0) == field_end(ts, j as int, depth as nat),
                decreases n - j,
            {
                if is_punct_char(&tokens[j], '<') {
                    depth = depth + 1;
                } else if is_punct_char(&tokens[j], '>') && depth > 0 {
                    depth = depth - 1;
                }
                j = j + 1;
            }
            proof {
                assert(fields@.map_values(|f: String| f@) =~= before.push(ts[i as int]->Ident_0@));
                assert(before + fields_from(ts, i as int) =~= fields@.map_values(|f: String| f@)
                    + fields_from(ts, j as int));
            }
            i = j;
        } else {
            i = i + 1;
        }
    }
    proof {
        assert(fields@.map_values(|f: String| f@) + fields_from(ts, n as int) =~= fields@.map_values(
            |f: String| f@,
        ));
    }
    Ok(fields)
}

/// Where the first group among `tokens` from position `i` on stands.
fn find_group(tokens: &[Token], i: usize) -> (r: Option<usize>)
    ensures
        match r {
            Some(k) => i <= k < tokens@.len() && tokens@[k as int] is Group && first_group(tokens@, i as int)
                == Some(tokens@[k as int]->Group_0@),
            None => first_group(tokens@, i as int) is None,
        },
    decreases tokens@.len() - i,
{
    if i >= tokens.len() {
        return None;
    }
    match &tokens[i] {
        Token::Group(_) => Some(i),
        _ => find_group(tokens, i + 1),
    }
}

/// Parse a struct definition: its name and the names of its fields.
pub fn parse_struct_def(tokens: &[Token]) -> (r: Result<(String, Vec<String>), String>)
    ensures
        match struct_def_from(tokens@, 0) {
            Ok((name, fs)) => r matches Ok((n, v)) && n@ == name && v@.map_values(|f: String| f@) == fs,
            Err(msg) => r matches Err(m) && m@ == msg,
        },
{
    proof {
        reveal_strlit("struct");
        reveal_strlit("Expected struct definition");
    }
    let n = tokens.len();
    let mut i: usize = 0;
    while i < n
        invariant
            n == tokens@.len(),
            struct_def_from(tokens@, 0) == struct_def_from(tokens@, i as int),
        decreases n - i,
    {
        let is_struct = match &tokens[i] {
            Token::Ident(s) => str_eq(s.as_str(), "struct"),
            _ => false,
        };
        if is_struct {
            if i + 1 >= n {
                return Err(String::from_str("Expected struct definition"));
            }
            {
                match &tokens[i + 1] {
                    Token::Ident(name) => {
                        match find_group(tokens, i + 2) {
                            Some(k) => {
                                match &tokens[k] {
                                    Token::Group(inner) => {
                                        let fields = parse_fields(inner.as_slice());
                                        match fields {
                                            Ok(fs) => {
                                                return Ok((name.clone(), fs));
                                            },
                                            Err(e) => {
                                                return Err(e);
                                            },
                                        }
                                    },
                                    _ => {},
                                }
                            },
                            None => {
                                return Ok((name.clone(), Vec::new()));
                            },
                        }
                    },
                    _ => {},
                }
            }
            i = i + 2;
        } else {
            i = i + 1;
        }
    }
    Err(String::from_str("Expected struct definition"))
}

// ---------------------------------------------------------------- generated impls

/// The identifier `s`.
pub open spec fn id(s: Seq<char>) -> TokenModel {
    TokenModel::Ident(s)
}

/// The punctuation `c`.
pub open spec fn pu(c: char) -> TokenModel {
    TokenModel::Punct(c)
}

/// The path `a::b`.
pub open spec fn path2(a: Seq<char>, b: Seq<char>) -> Seq<TokenModel> {
    seq![id(a), pu(':'), pu(':'), id(b)]
}

/// The call `state.serialize_field("f", &self.f)?;` for the field `f`.
pub open spec fn field_call(f: Seq<char>) -> Seq<TokenModel> {
    seq![
        id("state"@),
        pu('.'),
        id("serialize_field"@),
        TokenModel::Group(
            Delimiter::Parenthesis,
            seq![TokenModel::Literal(f), pu(','), pu('&'), id("self"@), pu('.'), id(f)],
        ),
        pu('?'),
        pu(';'),
    ]
}

/// The calls for the fields `fs`, in order.
pub open spec fn field_calls(fs: Seq<Seq<char>>) -> Seq<TokenModel>
    decreases fs.len(),
{
    if fs.len() == 0 {
        Seq::empty()
    } else {
        field_calls(fs.drop_last()) + field_call(fs.last())
    }
}

/// The body of `serialize` for the struct `name` with the fields `fs`: a unit struct
/// is serialized by name; otherwise each field is serialized in turn.
pub open spec fn serialize_body(name: Seq<char>, fs: Seq<Seq<char>>) -> Seq<TokenModel> {
    if fs.len() == 0 {
        seq![
            id("serializer"@),
            pu('.'),
            id("serialize_unit_struct"@),
            TokenModel::Group(Delimiter::Parenthesis, seq![TokenModel::Literal(name)]),
        ]
    } else {
        seq![
            id("let"@),
            id("mut"@),
            id("state"@),
            pu('='),
            id("serializer"@),
            pu('.'),
            id("serialize_struct"@),
            TokenModel::Group(
                Delimiter::Parenthesis,
                seq![TokenModel::Literal(name), pu(','), id("0"@)],
            ),
            pu('?'),
            pu(';'),
        ] + field_calls(fs) + seq![
            id("state"@),
            pu('.'),
            id("end"@),
            TokenModel::Group(Delimiter::Parenthesis, Seq::empty()),
        ]
    }
}

/// The parameters `&self, serializer: S` of `serialize`.
pub open spec fn serialize_params() -> Seq<TokenModel> {
    seq![pu('&'), id("self"@), pu(','), id("serializer"@), pu(':'), id("S"@)]
}

/// `fn serialize<S: serduh_core::Serializer>(&self, serializer: S) -> Result<S::Ok,
/// S::Error> { body }` for the struct `name` with the fields `fs`.
pub open spec fn serialize_fn_model(name: Seq<char>, fs: Seq<Seq<char>>) -> Seq<TokenModel> {
    seq![id("fn"@), id("serialize"@), pu('<'), id("S"@), pu(':')] + path2("serduh_core"@, "Serializer"@)
        + seq![
        pu('>'),
        TokenModel::Group(Delimiter::Parenthesis, serialize_params()),
        pu('-'),
        pu('>'),
        id("Result"@),
        pu('<'),
    ] + path2("S"@, "Ok"@) + seq![pu(',')] + path2("S"@, "Error"@) + seq![
        pu('>'),
        TokenModel::Group(Delimiter::Brace, serialize_body(name, fs)),
    ]
}

/// `impl serduh_core::Serialize for name { fn serialize ... }`.
pub open spec fn serialize_impl_model(name: Seq<char>, fs: Seq<Seq<char>>) -> Seq<TokenModel> {
    seq![id("impl"@)] + path2("serduh_core"@, "Serialize"@) + seq![
        id("for"@),
        id(name),
        TokenModel::Group(Delimiter::Brace, serialize_fn_model(name, fs)),
    ]
}

/// The parameters `deserializer: D` of `deserialize`.
pub open spec fn deserialize_params() -> Seq<TokenModel> {
    seq![id("deserializer"@), pu(':'), id("D"@)]
}

/// The body `unimplemented!()` of `deserialize`.
pub open spec fn deserialize_body() -> Seq<TokenModel> {
    seq![id("unimplemented"@), pu('!'), TokenModel::Group(Delimiter::Parenthesis, Seq::empty())]
}

/// `fn deserialize<D: serduh_core::Deserializer>(deserializer: D) -> Result<Self,
/// D::Error> { unimplemented!() }`.
pub open spec fn deserialize_fn_model() -> Seq<TokenModel> {
    seq![id("fn"@), id("deserialize"@), pu('<'), id("D"@), pu(':')] + path2(
        "serduh_core"@,
        "Deserializer"@,
    ) + seq![
        pu('>'),
        TokenModel::Group(Delimiter::Parenthesis, deserialize_params()),
        pu('-'),
        pu('>'),
        id("Result"@),
        pu('<'),
        id("Self"@),
        pu(','),
    ] + path2("D"@, "Error"@) + seq![pu('>'), TokenModel::Group(Delimiter::Brace, deserialize_body())]
}

/// `impl serduh_core::DeserializeOwned for name { fn deserialize ... }`.
pub open spec fn deserialize_impl_model(name: Seq<char>) -> Seq<TokenModel> {
    seq![id("impl"@)] + path2("serduh_core"@, "DeserializeOwned"@) + seq![
        id("for"@),
        id(name),
        TokenModel::Group(Delimiter::Brace, deserialize_fn_model()),
    ]
}

/// `compile_error!("msg")`.
pub open spec fn compile_error_model(msg: Seq<char>) -> Seq<TokenModel> {
    seq![
        id("compile_error"@),
        pu('!'),
        TokenModel::Group(Delimiter::Parenthesis, seq![TokenModel::Literal(msg)]),
    ]
}

/// What `#[derive(Serialize)]` generates for the item `ts`: the impl for the struct
/// it defines, or a compile error with the message of the parse.
pub open spec fn derive_serialize_model(ts: Seq<Token>) -> Seq<TokenModel> {
    match struct_def_from(ts, 0) {
        Ok((name, fs)) => serialize_impl_model(name, fs),
        Err(e) => compile_error_model(e),
    }
}

/// What `#[derive(Deserialize)]` generates for the item `ts`.
pub open spec fn derive_deserialize_model(ts: Seq<Token>) -> Seq<TokenModel> {
    match struct_def_from(ts, 0) {
        Ok((name, _)) => deserialize_impl_model(name),
        Err(e) => compile_error_model(e),
    }
}

/// Appends the path `a::b`.
fn push_path(b: Tokens, x: &str, y: &str) -> (r: Tokens)
    ensures
        r@ == b@ + path2(x@, y@),
{
    let r = b.ident(x).punct(':').punct(':').ident(y);
    assert(r@ =~= b@ + path2(x@, y@));
    r
}

/// The serialization of the fields `fields`.
fn field_calls_stream(fields: &Vec<String>) -> (ts: TokenStream)
    ensures
        ts@ == field_calls(fields@.map_values(|f: String| f@)),
{
    let ghost fs = fields@.map_values(|f: String| f@);
    let mut b = Tokens::new();
    let mut i: usize = 0;
    proof {
        assert(fs.take(0) =~= Seq::<Seq<char>>::empty());
    }
    while i < fields.len()
        invariant
            fs == fields@.map_values(|f: String| f@),
            i <= fields@.len(),
            b@ == field_calls(fs.take(i as int)),
        decreases fields@.len() - i,
    {
        let f = fields[i].as_str();
        let args = Tokens::new().literal(f).punct(',').punct('&').ident("self").punct('.').ident(f).build();
        assert(args@ =~= seq![TokenModel::Literal(f@), pu(','), pu('&'), id("self"@), pu('.'), id(f@)]);
        let ghost before = b@;
        b = b.ident("state").punct('.').ident("serialize_field").group(Delimiter::Parenthesis, args).punct(
            '?',
        ).punct(';');
        proof {
            assert(fs.take(i + 1).drop_last() =~= fs.take(i as int));
            assert(fs.take(i + 1).last() == f@);
            assert(b@ =~= before + field_call(f@));
        }
        i = i + 1;
    }
    proof {
        assert(fs.take(fields@.len() as int) =~= fs);
    }
    b.build()
}

/// The tokens of `impl serduh_core::Serialize` for the struct `name` with the fields
/// `fields`.
pub fn serialize_impl(name: &str, fields: &Vec<String>) -> (ts: TokenStream)
    ensures
        ts@ == serialize_impl_model(name@, fields@.map_values(|f: String| f@)),
{
    let ghost fs = fields@.map_values(|f: String| f@);
    let body = if fields.len() == 0 {
        let args = Tokens::new().literal(name).build();
        let r = Tokens::new().ident("serializer").punct('.').ident("serialize_unit_struct").group(
            Delimiter::Parenthesis,
            args,
        ).build();
        assert(r@ =~= serialize_body(name@, fs));
        r
    } else {
        let args = Tokens::new().literal(name).punct(',').ident("0").build();
        assert(args@ =~= seq![TokenModel::Literal(name@), pu(','), id("0"@)]);
        let calls = field_calls_stream(fields);
        let r = Tokens::new().ident("let").ident("mut").ident("state").punct('=').ident("serializer").punct(
            '.',
        ).ident("serialize_struct").group(Delimiter::Parenthesis, args).punct('?').punct(';').tokens(
            calls,
        ).ident("state").punct('.').ident("end").group(Delimiter::Parenthesis, TokenStream::new()).build();
        assert(r@ =~= serialize_body(name@, fs));
        r
    };
    let params = Tokens::new().punct('&').ident("self").punct(',').ident("serializer").punct(':').ident(
        "S",
    ).build();
    assert(params@ =~= serialize_params());
    let b = Tokens::new().ident("fn").ident("serialize").punct('<').ident("S").punct(':');
    let b = push_path(b, "serduh_core", "Serializer");
    let b = b.punct('>').group(Delimiter::Parenthesis, params).punct('-').punct('>').ident("Result").punct(
        '<',
    );
    let b = push_path(b, "S", "Ok");
    let b = push_path(b.punct(','), "S", "Error");
    let inner = b.punct('>').group(Delimiter::Brace, body).build();
    assert(inner@ =~= serialize_fn_model(name@, fs));
    let b = push_path(Tokens::new().ident("impl"), "serduh_core", "Serialize");
    let r = b.ident("for").ident(name).group(Delimiter::Brace, inner).build();
    assert(r@ =~= serialize_impl_model(name@, fs));
    r
}

/// The tokens of `impl serduh_core::DeserializeOwned` for the struct `name`.
pub fn deserialize_impl(name: &str) -> (ts: TokenStream)
    ensures
        ts@ == deserialize_impl_model(name@),
{
    let body = Tokens::new().ident("unimplemented").punct('!').group(
        Delimiter::Parenthesis,
        TokenStream::new(),
    ).build();
    assert(body@ =~= deserialize_body());
    let params = Tokens::new().ident("deserializer").punct(':').ident("D").build();
    assert(params@ =~= deserialize_params());
    let b = Tokens::new().ident("fn").ident("deserialize").punct('<').ident("D").punct(':');
    let b = push_path(b, "serduh_core", "Deserializer");
    let b = b.punct('>').group(Delimiter::Parenthesis, params).punct('-').punct('>').ident("Result").punct(
        '<',
    ).ident("Self").punct(',');
    let b = push_path(b, "D", "Error");
    let inner = b.punct('>').group(Delimiter::Brace, body).build();
    assert(inner@ =~= deserialize_fn_model());
    let b = push_path(Tokens::new().ident("impl"), "serduh_core", "DeserializeOwned");
    let r = b.ident("for").ident(name).group(Delimiter::Brace, inner).build();
    assert(r@ =~= deserialize_impl_model(name@));
    r
}

/// The tokens of `compile_error!("msg")`.
pub fn compile_error_tokens(msg: &str) -> (ts: TokenStream)
    ensures
        ts@ == compile_error_model(msg@),
{
    let args = Tokens::new().literal(msg).build();
    let r = Tokens::new().ident("compile_error").punct('!').group(Delimiter::Parenthesis, args).build();
    assert(r@ =~= compile_error_model(msg@));
    r
}

/// The text that `#[derive(Serialize)]` generates for the item `tokens`.
pub fn derive_serialize(tokens: &[Token]) -> (s: String)
    ensures
        s@ == stream_text(derive_serialize_model(tokens@)),
{
    let ts = match parse_struct_def(tokens) {
        Ok((name, fields)) => serialize_impl(name.as_str(), &fields),
        Err(e) => compile_error_tokens(e.as_str()),
    };
    tokens_to_string(&ts)
}

/// The text that `#[derive(Deserialize)]` generates for the item `tokens`.
pub fn derive_deserialize(tokens: &[Token]) -> (s: String)
    ensures
        s@ == stream_text(derive_deserialize_model(tokens@)),
{
    let ts = match parse_struct_def(tokens) {
        Ok((name, _)) => deserialize_impl(name.as_str()),
        Err(e) => compile_error_tokens(e.as_str()),
    };
    tokens_to_string(&ts)
}

} // verus!
