use rmpl::quote_lite::{tokens_to_string, Delimiter, Ident, ToTokens, Token, TokenStream, Tokens};

#[test]
fn test_basic_tokens() {
    let ts = Tokens::new()
        .ident("fn")
        .ident("main")
        .group(Delimiter::Parenthesis, TokenStream::new())
        .group(Delimiter::Brace, TokenStream::new())
        .build();
    let s = tokens_to_string(&ts);
    assert!(s.contains("fn"));
    assert!(s.contains("main"));
}

#[test]
fn test_impl_block() {
    let mut ts = TokenStream::new();
    ts.push_ident("impl");
    ts.push_ident("MyType");
    ts.push_punct('{');
    ts.push_ident("fn");
    ts.push_ident("method");
    ts.push_punct('{');
    ts.push_punct('}');
    ts.push_punct('}');
    let s = tokens_to_string(&ts);
    assert!(s.contains("impl"));
    assert!(s.contains("MyType"));
}

#[test]
fn lib_test_tokenstream_new() {
    let ts = TokenStream::new();
    assert!(ts.is_empty());

    let ts = rmpl::syn_lite::TokenStream::new();
    assert!(ts.is_empty());
    assert_eq!(ts.len(), 0);
}

#[test]
fn test_tokenstream_push_ident() {
    let mut ts = TokenStream::new();
    ts.push_ident("foo");
    assert!(!ts.is_empty());
    assert_eq!(ts.tokens.len(), 1);
}

#[test]
fn test_tokenstream_push_punct() {
    let mut ts = TokenStream::new();
    ts.push_punct('=');
    assert_eq!(ts.tokens.len(), 1);
    match &ts.tokens[0] {
        Token::Punct(c) => assert_eq!(*c, '='),
        _ => panic!("Expected Punct"),
    }
}

#[test]
fn test_tokenstream_push_literal() {
    let mut ts = TokenStream::new();
    ts.push_literal("hello");
    match &ts.tokens[0] {
        Token::Literal(s) => assert_eq!(s, "hello"),
        _ => panic!("Expected Literal"),
    }
}

#[test]
fn test_tokenstream_extend() {
    let mut ts1 = TokenStream::new();
    ts1.push_ident("fn");
    ts1.push_ident("main");

    let mut ts2 = TokenStream::new();
    ts2.push_punct('(');
    ts2.push_punct(')');

    ts1.extend(ts2);
    assert_eq!(ts1.tokens.len(), 4);
}

#[test]
fn test_tokens_builder() {
    let ts = Tokens::new()
        .ident("struct")
        .ident("Point")
        .punct('{')
        .ident("x")
        .punct(':')
        .ident("i32")
        .punct('}')
        .build();

    let s = tokens_to_string(&ts);
    assert!(s.contains("struct"));
    assert!(s.contains("Point"));
    assert!(s.contains("x"));
    assert!(s.contains("i32"));
}

#[test]
fn test_tokens_with_group() {
    let inner = TokenStream::new();
    let ts = Tokens::new()
        .ident("vec")
        .group(Delimiter::Bracket, inner)
        .build();

    let s = tokens_to_string(&ts);
    assert!(s.contains("vec"));
    assert!(s.contains("["));
}

#[test]
fn test_to_tokens_trait_str() {
    let mut ts = TokenStream::new();
    "foo".to_tokens(&mut ts);
    match &ts.tokens[0] {
        Token::Ident(s) => assert_eq!(s, "foo"),
        _ => panic!("Expected Ident"),
    }
}

#[test]
fn test_to_tokens_trait_string() {
    let mut ts = TokenStream::new();
    "bar".to_string().to_tokens(&mut ts);
    match &ts.tokens[0] {
        Token::Ident(s) => assert_eq!(s, "bar"),
        _ => panic!("Expected Ident"),
    }
}

#[test]
fn test_to_tokens_trait_tokenstream() {
    let mut ts1 = TokenStream::new();
    ts1.push_ident("hello");

    let mut ts2 = TokenStream::new();
    ts2.push_ident("world");

    ts1.to_tokens(&mut ts2);
    assert_eq!(ts2.tokens.len(), 2);
}

#[test]
fn lib_test_ident_new() {
    let ident = Ident::new("my_ident");
    assert_eq!(ident.0, "my_ident");

    let span = rmpl::syn_lite::Span::call_site();
    let ident = rmpl::syn_lite::Ident::new("foo", span);
    assert_eq!(ident.sym, "foo");
}

#[test]
fn test_tokens_default() {
    let tokens: Tokens = Default::default();
    assert!(tokens.build().is_empty());
}

#[test]
fn test_tokens_chaining() {
    let ts = Tokens::new()
        .ident("impl")
        .punct('<')
        .ident("T")
        .punct(',')
        .ident("U")
        .punct('>')
        .ident("for")
        .ident("MyType")
        .build();

    let s = tokens_to_string(&ts);
    assert!(s.contains("impl"));
    assert!(s.contains("<"));
    assert!(s.contains("T"));
    assert!(s.contains("U"));
    assert!(s.contains(">"));
    assert!(s.contains("for"));
    assert!(s.contains("MyType"));
}

#[test]
fn test_nested_groups() {
    let inner = TokenStream::new();
    let middle = Tokens::new()
        .ident("inner")
        .group(Delimiter::Parenthesis, inner)
        .build();

    let outer = Tokens::new()
        .ident("outer")
        .group(Delimiter::Brace, middle)
        .build();

    let s = tokens_to_string(&outer);
    assert!(s.contains("outer"));
    assert!(s.contains("{"));
    assert!(s.contains("inner"));
}

#[test]
fn test_tokens_to_string_empty() {
    let ts = TokenStream::new();
    let s = tokens_to_string(&ts);
    assert_eq!(s, "");
}

#[test]
fn test_tokens_to_string_with_punct() {
    let mut ts = TokenStream::new();
    ts.push_ident("a");
    ts.push_punct('+');
    ts.push_ident("b");
    let s = tokens_to_string(&ts);
    assert!(s.contains("a"));
    assert!(s.contains("+"));
    assert!(s.contains("b"));
}

#[test]
fn test_all_delimiters() {
    let inner = TokenStream::new();
    let ts = Tokens::new()
        .group(Delimiter::Parenthesis, inner.clone())
        .group(Delimiter::Brace, inner.clone())
        .group(Delimiter::Bracket, inner.clone())
        .group(Delimiter::NoDelimiter, inner)
        .build();

    let s = tokens_to_string(&ts);
    assert!(s.contains("("));
    assert!(s.contains(")"));
    assert!(s.contains("{"));
    assert!(s.contains("}"));
    assert!(s.contains("["));
    assert!(s.contains("]"));
}

#[test]
fn test_iter() {
    let mut ts = TokenStream::new();
    ts.push_ident("a");
    ts.push_ident("b");
    ts.push_ident("c");

    let count = ts.iter().count();
    assert_eq!(count, 3);
}

// Exact renderings.

#[test]
fn rendering_is_exact() {
    let mut inner = TokenStream::new();
    inner.push_ident("x");
    inner.push_punct(':');
    inner.push_literal("s");
    let ts = Tokens::new()
        .ident("f")
        .group(Delimiter::Parenthesis, inner)
        .punct(';')
        .build();
    assert_eq!(tokens_to_string(&ts), "f (x : \"s\") ;");
}

#[test]
fn groups_three_deep_render_as_nothing() {
    let mut deepest = TokenStream::new();
    deepest.push_ident("lost");
    let third = Tokens::new().ident("c").group(Delimiter::Bracket, deepest).build();
    let second = Tokens::new().ident("b").group(Delimiter::Brace, third).build();
    let top = Tokens::new().ident("a").group(Delimiter::Parenthesis, second).build();
    assert_eq!(tokens_to_string(&top), "a (b {c })");
}

#[test]
fn invisible_group_and_clone() {
    let mut inner = TokenStream::new();
    inner.push_ident("y");
    let copy = inner.clone();
    let ts = Tokens::new().group(Delimiter::NoDelimiter, inner).tokens(copy).build();
    assert_eq!(tokens_to_string(&ts), "y y");
    let mut out = TokenStream::new();
    Ident::new("z").to_tokens(&mut out);
    assert_eq!(tokens_to_string(&out), "z");
}
